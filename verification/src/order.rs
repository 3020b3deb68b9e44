//! The order of paths by components, as `Path`'s `Ord` compares them.
use vstd::prelude::*;
use crate::paths::{comps, components, path_eq};
use crate::text::{lemma_lt_asym, lemma_lt_total, lemma_lt_trans, lt_s, str_precedes, strs};

verus! {

/// The rank of a component kind: root, current directory, parent, name.
pub open spec fn comp_rank(c: Seq<char>) -> int {
    if c == seq!['/'] {
        0
    } else if c == seq!['.'] {
        1
    } else if c == seq!['.', '.'] {
        2
    } else {
        3
    }
}

/// One component before another: by kind, and names by their characters.
pub open spec fn comp_lt(a: Seq<char>, b: Seq<char>) -> bool {
    comp_rank(a) < comp_rank(b) || (comp_rank(a) == 3 && comp_rank(b) == 3 && lt_s(a, b))
}

/// Component lists in lexicographic order.
pub open spec fn comps_lt(a: Seq<Seq<char>>, b: Seq<Seq<char>>) -> bool
    decreases a.len(),
{
    if b.len() == 0 {
        false
    } else if a.len() == 0 {
        true
    } else if comp_lt(a[0], b[0]) {
        true
    } else if comp_lt(b[0], a[0]) {
        false
    } else {
        comps_lt(a.drop_first(), b.drop_first())
    }
}

/// `a < b` for paths.
pub open spec fn path_lt_s(a: Seq<char>, b: Seq<char>) -> bool {
    comps_lt(comps(a), comps(b))
}

/// Two components neither before the other are the same.
pub proof fn lemma_comp_eq(a: Seq<char>, b: Seq<char>)
    requires
        !comp_lt(a, b),
        !comp_lt(b, a),
    ensures
        a == b,
{
    if comp_rank(a) == 3 {
        lemma_lt_total(a, b);
    }
}

/// `comp_lt` is transitive and asymmetric.
pub proof fn lemma_comp_order(a: Seq<char>, b: Seq<char>, c: Seq<char>)
    ensures
        comp_lt(a, b) && comp_lt(b, c) ==> comp_lt(a, c),
        comp_lt(a, b) ==> !comp_lt(b, a),
{
    if comp_rank(a) == 3 && comp_rank(b) == 3 && comp_rank(c) == 3 {
        if lt_s(a, b) && lt_s(b, c) {
            lemma_lt_trans(a, b, c);
        }
    }
    if comp_rank(a) == 3 && comp_rank(b) == 3 && lt_s(a, b) {
        lemma_lt_asym(a, b);
    }
}

/// `comps_lt` is transitive, asymmetric and irreflexive.
pub proof fn lemma_comps_order(a: Seq<Seq<char>>, b: Seq<Seq<char>>, c: Seq<Seq<char>>)
    ensures
        comps_lt(a, b) && comps_lt(b, c) ==> comps_lt(a, c),
        comps_lt(a, b) ==> !comps_lt(b, a),
        !comps_lt(a, a),
    decreases a.len(),
{
    if a.len() > 0 && b.len() > 0 && c.len() > 0 {
        lemma_comps_order(a.drop_first(), b.drop_first(), c.drop_first());
        lemma_comp_order(a[0], b[0], c[0]);
        lemma_comp_order(b[0], a[0], c[0]);
        lemma_comp_order(a[0], c[0], b[0]);
        lemma_comp_order(c[0], b[0], a[0]);
        lemma_comp_order(b[0], c[0], a[0]);
        lemma_comp_order(c[0], a[0], b[0]);
        if !comp_lt(a[0], b[0]) && !comp_lt(b[0], a[0]) {
            lemma_comp_eq(a[0], b[0]);
        }
        if !comp_lt(b[0], c[0]) && !comp_lt(c[0], b[0]) {
            lemma_comp_eq(b[0], c[0]);
        }
    } else if a.len() > 0 && b.len() > 0 {
        lemma_comps_order(a.drop_first(), b.drop_first(), c);
        lemma_comp_order(a[0], b[0], a[0]);
    }
    if a.len() > 0 {
        lemma_comps_order(a.drop_first(), a.drop_first(), a.drop_first());
        lemma_comp_order(a[0], a[0], a[0]);
    }
}

/// Two component lists neither before the other are the same.
pub proof fn lemma_comps_eq(a: Seq<Seq<char>>, b: Seq<Seq<char>>)
    requires
        !comps_lt(a, b),
        !comps_lt(b, a),
    ensures
        a == b,
    decreases a.len(),
{
    if a.len() > 0 && b.len() > 0 {
        lemma_comp_eq(a[0], b[0]);
        lemma_comps_eq(a.drop_first(), b.drop_first());
        assert(a =~= seq![a[0]] + a.drop_first());
        assert(b =~= seq![b[0]] + b.drop_first());
    }
}

/// The rank of a component.
fn rank(c: &String) -> (r: u8)
    ensures
        r as int == comp_rank(c@),
{
    let v = crate::text::chars_of(c.as_str());
    if v.len() == 1 && v[0] == '/' {
        proof {
            assert(v@ =~= seq!['/']);
        }
        0
    } else if v.len() == 1 && v[0] == '.' {
        proof {
            assert(v@ =~= seq!['.']);
            assert(v@ != seq!['/']);
        }
        1
    } else if v.len() == 2 && v[0] == '.' && v[1] == '.' {
        proof {
            assert(v@ =~= seq!['.', '.']);
            assert(v@ != seq!['/']);
            assert(v@ != seq!['.']);
        }
        2
    } else {
        proof {
            if v@ == seq!['/'] || v@ == seq!['.'] {
                assert(v@.len() == 1);
            }
            if v@ == seq!['.', '.'] {
                assert(v@.len() == 2);
            }
        }
        3
    }
}

/// `comp_lt`.
fn component_before(a: &String, b: &String) -> (r: bool)
    ensures
        r == comp_lt(a@, b@),
{
    let ra = rank(a);
    let rb = rank(b);
    ra < rb || (ra == 3 && rb == 3 && str_precedes(a.as_str(), b.as_str()))
}

/// `Path`'s `<`.
pub fn path_lt(a: &str, b: &str) -> (r: bool)
    ensures
        r == path_lt_s(a@, b@),
{
    let x = components(a);
    let y = components(b);
    let mut i: usize = 0;
    proof {
        assert(strs(x@).skip(0) =~= strs(x@));
        assert(strs(y@).skip(0) =~= strs(y@));
    }
    while i < x.len() && i < y.len()
        invariant
            i <= x@.len(),
            i <= y@.len(),
            strs(x@) == comps(a@),
            strs(y@) == comps(b@),
            path_lt_s(a@, b@) == comps_lt(strs(x@).skip(i as int), strs(y@).skip(i as int)),
        decreases x@.len() - i,
    {
        proof {
            assert(strs(x@).skip(i as int)[0] == x@[i as int]@);
            assert(strs(y@).skip(i as int)[0] == y@[i as int]@);
            assert(strs(x@).skip(i as int).drop_first() =~= strs(x@).skip(i + 1));
            assert(strs(y@).skip(i as int).drop_first() =~= strs(y@).skip(i + 1));
        }
        if component_before(&x[i], &y[i]) {
            return true;
        }
        if component_before(&y[i], &x[i]) {
            return false;
        }
        i += 1;
    }
    i == x.len() && i < y.len()
}

/// Paths in path order with repeats (by components) removed, as sorting a
/// list of `PathBuf`s and calling `dedup` leaves them.
pub open spec fn sorted_unique(s: Seq<Seq<char>>) -> bool {
    forall|i: int, j: int| 0 <= i < j < s.len() ==> path_lt_s(#[trigger] s[i], #[trigger] s[j])
}

/// Whether `p` is, by components, one of `s`.
pub open spec fn listed_path(s: Seq<Seq<char>>, p: Seq<char>) -> bool {
    exists|i: int| 0 <= i < s.len() && comps(#[trigger] s[i]) == comps(p)
}

/// Inserts a path into a sorted list without repeats.
pub fn insert_path(v: &mut Vec<String>, p: String)
    requires
        sorted_unique(strs(old(v)@)),
    ensures
        sorted_unique(strs(final(v)@)),
        forall|q: Seq<char>|
            listed_path(strs(final(v)@), q) <==> (listed_path(strs(old(v)@), q) || comps(q) == comps(
                p@,
            )),
        forall|i: int|
            0 <= i < final(v)@.len() ==> (strs(old(v)@).contains(#[trigger] final(v)@[i]@)
                || final(v)@[i]@ == p@),
        listed_path(strs(old(v)@), p@) ==> final(v)@ == old(v)@,
{
    let ghost before = strs(v@);
    let mut k: usize = 0;
    while k < v.len() && path_lt(v[k].as_str(), p.as_str())
        invariant
            k <= v@.len(),
            strs(v@) == before,
            forall|j: int| 0 <= j < k ==> path_lt_s(#[trigger] v@[j]@, p@),
        decreases v@.len() - k,
    {
        k += 1;
    }
    proof {
        assert forall|j: int| 0 <= j < before.len() implies before[j] == v@[j]@ by {}
    }
    if k < v.len() && path_eq(v[k].as_str(), p.as_str()) {
        proof {
            assert forall|q: Seq<char>| listed_path(strs(v@), q) <==> (listed_path(before, q) || comps(q)
                == comps(p@)) by {
                if comps(q) == comps(p@) {
                    assert(comps(strs(v@)[k as int]) == comps(q));
                }
            }
            assert forall|i: int| 0 <= i < v@.len() implies before.contains(#[trigger] v@[i]@) by {
                assert(before[i] == v@[i]@);
            }
        }
        return;
    }
    proof {
        if k < v@.len() {
            crate::order::lemma_comps_order(comps(v@[k as int]@), comps(p@), comps(p@));
            if !path_lt_s(p@, v@[k as int]@) {
                crate::order::lemma_comps_eq(comps(p@), comps(v@[k as int]@));
            }
        }
    }
    proof {
        if listed_path(before, p@) {
            let j = choose|j: int| 0 <= j < before.len() && comps(#[trigger] before[j]) == comps(p@);
            lemma_comps_order(comps(p@), comps(p@), comps(p@));
            if j < k {
                assert(path_lt_s(v@[j]@, p@));
                assert(before[j] == v@[j]@);
            } else {
                assert(k < v@.len());
                if j > k {
                    assert(path_lt_s(before[k as int], before[j]));
                    lemma_comps_order(comps(p@), comps(before[k as int]), comps(before[j]));
                    lemma_comps_order(comps(before[k as int]), comps(p@), comps(before[k as int]));
                }
                assert(before[k as int] == v@[k as int]@);
            }
            assert(false);
        }
    }
    v.insert(k, p);
    proof {
        let after = strs(v@);
        assert(after =~= before.insert(k as int, p@));
        assert forall|i: int, j: int| 0 <= i < j < after.len() implies path_lt_s(
            #[trigger] after[i],
            #[trigger] after[j],
        ) by {
            if i < k && j == k {
            } else if i < k && j > k {
                crate::order::lemma_comps_order(comps(after[i]), comps(p@), comps(after[j]));
                if j - 1 > k {
                    assert(path_lt_s(before[k as int], before[j - 1]));
                    crate::order::lemma_comps_order(comps(p@), comps(before[k as int]), comps(before[j - 1]));
                }
            } else if i == k {
                if j - 1 > k {
                    assert(path_lt_s(before[k as int], before[j - 1]));
                    crate::order::lemma_comps_order(comps(p@), comps(before[k as int]), comps(before[j - 1]));
                }
            } else if i > k {
                assert(after[i] == before[i - 1] && after[j] == before[j - 1]);
            } else {
                assert(after[i] == before[i] && after[j] == before[j]);
            }
        }
        assert forall|q: Seq<char>| listed_path(after, q) <==> (listed_path(before, q) || comps(q) == comps(
            p@,
        )) by {
            if listed_path(after, q) {
                let i = choose|i: int| 0 <= i < after.len() && comps(#[trigger] after[i]) == comps(q);
                if i < k {
                    assert(after[i] == before[i]);
                } else if i > k {
                    assert(after[i] == before[i - 1]);
                }
            }
            if listed_path(before, q) {
                let i = choose|i: int| 0 <= i < before.len() && comps(#[trigger] before[i]) == comps(q);
                if i < k {
                    assert(after[i] == before[i]);
                } else {
                    assert(after[i + 1] == before[i]);
                }
            }
            if comps(q) == comps(p@) {
                assert(after[k as int] == p@);
            }
        }
        assert forall|i: int| 0 <= i < v@.len() implies before.contains(#[trigger] v@[i]@) || v@[i]@
            == p@ by {
            if i < k {
                assert(after[i] == before[i]);
            } else if i > k {
                assert(after[i] == before[i - 1]);
            }
        }
    }
}

/// `x` is, among the first `n` of `s`, the first path with its components.
pub open spec fn kept_first(s: Seq<Seq<char>>, x: Seq<char>, n: int) -> bool {
    exists|j: int|
        0 <= j < n && j < s.len() && s[j] == x && forall|k: int| 0 <= k < j ==> comps(#[trigger] s[k]) != comps(x)
}

/// The paths sorted by components, each once, as sorting a list of
/// `PathBuf`s and calling `dedup` leaves them: of paths with the same
/// components, the first one given stays.
pub fn sort_paths(paths: &Vec<String>) -> (v: Vec<String>)
    ensures
        sorted_unique(strs(v@)),
        forall|q: Seq<char>| listed_path(strs(v@), q) <==> listed_path(strs(paths@), q),
        forall|i: int| 0 <= i < v@.len() ==> strs(paths@).contains(#[trigger] v@[i]@),
        forall|i: int| 0 <= i < v@.len() ==> kept_first(strs(paths@), #[trigger] v@[i]@, paths@.len() as int),
{
    let mut v: Vec<String> = Vec::new();
    let mut i: usize = 0;
    while i < paths.len()
        invariant
            i <= paths@.len(),
            sorted_unique(strs(v@)),
            forall|q: Seq<char>| listed_path(strs(v@), q) <==> listed_path(strs(paths@.take(i as int)), q),
            forall|k: int| 0 <= k < v@.len() ==> strs(paths@).contains(#[trigger] v@[k]@),
            forall|k: int| 0 <= k < v@.len() ==> kept_first(strs(paths@), #[trigger] v@[k]@, i as int),
        decreases paths@.len() - i,
    {
        let p = paths[i].clone();
        let ghost before = strs(v@);
        let ghost bv = v@;
        proof {
            assert(forall|k: int| 0 <= k < before.len() ==> strs(paths@).contains(#[trigger] before[k]));
        }
        insert_path(&mut v, p);
        proof {
            let t1 = strs(paths@.take(i + 1));
            let t0 = strs(paths@.take(i as int));
            assert forall|q: Seq<char>| listed_path(t1, q) <==> (listed_path(t0, q) || comps(q) == comps(
                paths@[i as int]@,
            )) by {
                if listed_path(t1, q) {
                    let j = choose|j: int| 0 <= j < t1.len() && comps(#[trigger] t1[j]) == comps(q);
                    if j < i {
                        assert(t0[j] == t1[j]);
                    }
                }
                if listed_path(t0, q) {
                    let j = choose|j: int| 0 <= j < t0.len() && comps(#[trigger] t0[j]) == comps(q);
                    assert(t1[j] == t0[j]);
                }
                if comps(q) == comps(paths@[i as int]@) {
                    assert(t1[i as int] == paths@[i as int]@);
                }
            }
            assert forall|k: int| 0 <= k < v@.len() implies strs(paths@).contains(#[trigger] v@[k]@) by {
                if v@[k]@ == p@ {
                    assert(strs(paths@)[i as int] == p@);
                } else {
                    assert(before.contains(v@[k]@));
                    let j = choose|j: int| 0 <= j < before.len() && before[j] == v@[k]@;
                    assert(strs(paths@).contains(before[j]));
                }
            }
            let sp = strs(paths@);
            assert forall|k: int| 0 <= k < v@.len() implies kept_first(sp, #[trigger] v@[k]@, i + 1) by {
                if listed_path(before, p@) {
                    assert(v@ == bv);
                    assert(kept_first(sp, bv[k]@, i as int));
                    let j = choose|j: int|
                        0 <= j < i && j < sp.len() && sp[j] == bv[k]@ && forall|m: int|
                            0 <= m < j ==> comps(#[trigger] sp[m]) != comps(bv[k]@);
                    assert(0 <= j < i + 1 && j < sp.len() && sp[j] == v@[k]@);
                } else if v@[k]@ == p@ {
                    assert(sp[i as int] == p@);
                    assert forall|m: int| 0 <= m < i implies comps(#[trigger] sp[m]) != comps(p@) by {
                        assert(strs(paths@.take(i as int))[m] == sp[m]);
                        if comps(sp[m]) == comps(p@) {
                            assert(listed_path(strs(paths@.take(i as int)), p@));
                        }
                    }
                } else {
                    assert(before.contains(v@[k]@));
                    let m0 = choose|m0: int| 0 <= m0 < before.len() && before[m0] == v@[k]@;
                    assert(before[m0] == bv[m0]@);
                    assert(kept_first(sp, bv[m0]@, i as int));
                    let j = choose|j: int|
                        0 <= j < i && j < sp.len() && sp[j] == bv[m0]@ && forall|m: int|
                            0 <= m < j ==> comps(#[trigger] sp[m]) != comps(bv[m0]@);
                    assert(0 <= j < i + 1 && j < sp.len() && sp[j] == v@[k]@);
                }
            }
        }
        i += 1;
    }
    proof {
        assert(paths@.take(i as int) =~= paths@);
    }
    v
}

} // verus!
