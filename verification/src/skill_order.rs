//! The migration plan does not depend on the order in which the personal
//! Skill sources are listed.
use vstd::prelude::*;
use crate::skills::{
    found_s, has_skill, hashes_s, is_migration_plan, item_ok, mixed, named_s, origin_lt, origins_sorted, otext,
    tag_origins, SkillInventoryEntry, SkillMigrationPlan, SkillOrigin, SkillPlanDecision, SkillPlanItem,
    SkillSource,
};
use crate::text::{lemma_lt_asym, lemma_lt_irrefl, lt_s};

verus! {

broadcast use vstd::multiset::group_multiset_axioms, vstd::seq_lib::group_to_multiset_ensures;

/// A copy of a Skill as plain values: agent, path and hash.
pub open spec fn origin_view(o: SkillOrigin) -> (Seq<char>, Seq<char>, Seq<char>) {
    (o.agent@, o.path@, o.sha256@)
}

/// An item of a plan as plain values.
pub open spec fn item_view(it: SkillPlanItem) -> (
    Seq<char>,
    Seq<char>,
    Option<Seq<char>>,
    Seq<(Seq<char>, Seq<char>, Seq<char>)>,
    SkillPlanDecision,
) {
    (
        it.name@,
        it.destination@,
        otext(it.canonical_sha256),
        it.sources@.map_values(|o: SkillOrigin| origin_view(o)),
        it.decision,
    )
}

/// A plan as plain values: its root and its items.
pub open spec fn plan_view(p: SkillMigrationPlan) -> (
    Seq<char>,
    Seq<(Seq<char>, Seq<char>, Option<Seq<char>>, Seq<(Seq<char>, Seq<char>, Seq<char>)>, SkillPlanDecision)>,
) {
    (p.canonical_root@, p.items@.map_values(|it: SkillPlanItem| item_view(it)))
}

/// Any two copies of one Skill are either ordered by agent and path, or the
/// same copy (same agent, path and hash).
pub open spec fn copies_ordered(f: Seq<(Seq<char>, SkillOrigin)>) -> bool {
    forall|a: int, b: int|
        #![trigger f[a], f[b]]
        0 <= a < f.len() && 0 <= b < f.len() && f[a].0 == f[b].0 ==> origin_lt(f[a].1, f[b].1) || origin_lt(
            f[b].1,
            f[a].1,
        ) || origin_view(f[a].1) == origin_view(f[b].1)
}

/// `named_s` of a concatenation.
proof fn lemma_named_concat(a: Seq<(Seq<char>, SkillOrigin)>, b: Seq<(Seq<char>, SkillOrigin)>, n: Seq<char>)
    ensures
        named_s(a + b, n) == named_s(a, n) + named_s(b, n),
    decreases b.len(),
{
    if b.len() == 0 {
        assert(a + b =~= a);
        assert(named_s(a, n) + named_s(b, n) =~= named_s(a, n));
    } else {
        assert((a + b).drop_last() =~= a + b.drop_last());
        assert((a + b).last() == b.last());
        lemma_named_concat(a, b.drop_last(), n);
        if b.last().0 == n {
            assert(named_s(a, n) + named_s(b.drop_last(), n).push(b.last().1) =~= (named_s(a, n) + named_s(
                b.drop_last(),
                n,
            )).push(b.last().1));
        }
    }
}

/// `found_s` of a concatenation.
proof fn lemma_found_concat(
    a: Seq<(SkillSource, Vec<SkillInventoryEntry>)>,
    b: Seq<(SkillSource, Vec<SkillInventoryEntry>)>,
)
    ensures
        found_s(a + b) == found_s(a) + found_s(b),
    decreases b.len(),
{
    if b.len() == 0 {
        assert(a + b =~= a);
        assert(found_s(a) + found_s(b) =~= found_s(a));
    } else {
        assert((a + b).drop_last() =~= a + b.drop_last());
        assert((a + b).last() == b.last());
        lemma_found_concat(a, b.drop_last());
        let t = tag_origins(b.last().0.agent, b.last().1@);
        assert(found_s(a) + found_s(b.drop_last()) + t =~= found_s(a) + (found_s(b.drop_last()) + t));
    }
}

/// Listing the same sources in another order gives each Skill the same copies.
proof fn lemma_named_perm(
    s1: Seq<(SkillSource, Vec<SkillInventoryEntry>)>,
    s2: Seq<(SkillSource, Vec<SkillInventoryEntry>)>,
    n: Seq<char>,
)
    requires
        s1.to_multiset() == s2.to_multiset(),
    ensures
        named_s(found_s(s1), n).to_multiset() == named_s(found_s(s2), n).to_multiset(),
    decreases s1.len(),
{
    if s1.len() == 0 {
        assert(s2.len() == 0) by {
            vstd::seq_lib::to_multiset_len(s1);
            vstd::seq_lib::to_multiset_len(s2);
        }
    } else {
        let x = s1.last();
        let s1d = s1.drop_last();
        assert(s1 =~= s1d.push(x));
        vstd::seq_lib::to_multiset_build(s1d, x);
        assert(s2.to_multiset().count(x) > 0);
        assert(s2.contains(x));
        let k = choose|k: int| 0 <= k < s2.len() && s2[k] == x;
        let s2r = s2.remove(k);
        vstd::seq_lib::to_multiset_remove(s2, k);
        assert(s2r.to_multiset() =~= s1d.to_multiset());
        lemma_named_perm(s1d, s2r, n);
        let st = s2.take(k);
        let ss = s2.skip(k + 1);
        assert(s2 =~= st + seq![x] + ss);
        assert(s2r =~= st + ss);
        lemma_found_concat(st + seq![x], ss);
        lemma_found_concat(st, seq![x]);
        lemma_found_concat(st, ss);
        let tx = tag_origins(x.0.agent, x.1@);
        assert(seq![x].drop_last() =~= Seq::<(SkillSource, Vec<SkillInventoryEntry>)>::empty());
        assert(seq![x].last() == x);
        assert(found_s(Seq::<(SkillSource, Vec<SkillInventoryEntry>)>::empty()) =~= Seq::<
            (Seq<char>, SkillOrigin),
        >::empty());
        assert(Seq::<(Seq<char>, SkillOrigin)>::empty() + tx =~= tx);
        assert(found_s(seq![x]) =~= tx);
        let ft = found_s(st);
        let fs = found_s(ss);
        lemma_named_concat(ft + tx, fs, n);
        lemma_named_concat(ft, tx, n);
        lemma_named_concat(ft, fs, n);
        lemma_named_concat(found_s(s1d), tx, n);
        let nt = named_s(ft, n);
        let nx = named_s(tx, n);
        let ns = named_s(fs, n);
        vstd::seq_lib::lemma_multiset_commutative(nt + nx, ns);
        vstd::seq_lib::lemma_multiset_commutative(nt, nx);
        vstd::seq_lib::lemma_multiset_commutative(nt, ns);
        vstd::seq_lib::lemma_multiset_commutative(named_s(found_s(s1d), n), nx);
        assert(named_s(found_s(s1), n).to_multiset() =~= named_s(found_s(s2), n).to_multiset());
    }
}

/// A Skill has a copy exactly when its list of copies is not empty.
proof fn lemma_has_skill_named(f: Seq<(Seq<char>, SkillOrigin)>, n: Seq<char>)
    ensures
        has_skill(f, n) <==> named_s(f, n).len() > 0,
    decreases f.len(),
{
    if f.len() > 0 {
        lemma_has_skill_named(f.drop_last(), n);
        if has_skill(f, n) && f.last().0 != n {
            let q = choose|q: int| 0 <= q < f.len() && #[trigger] f[q].0 == n;
            assert(f.drop_last()[q] == f[q]);
        }
        if has_skill(f.drop_last(), n) {
            let q = choose|q: int| 0 <= q < f.drop_last().len() && #[trigger] f.drop_last()[q].0 == n;
            assert(f[q] == f.drop_last()[q]);
        }
        assert(f[f.len() - 1] == f.last());
    }
}

/// Each copy of Skill `n` was found under that name.
proof fn lemma_named_from(f: Seq<(Seq<char>, SkillOrigin)>, n: Seq<char>, m: int)
    requires
        0 <= m < named_s(f, n).len(),
    ensures
        exists|q: int| 0 <= q < f.len() && f[q].0 == n && #[trigger] f[q].1 == named_s(f, n)[m],
    decreases f.len(),
{
    if f.last().0 == n && m == named_s(f, n).len() - 1 {
        assert(f[f.len() - 1] == f.last());
    } else {
        lemma_named_from(f.drop_last(), n, m);
        let q = choose|q: int|
            0 <= q < f.drop_last().len() && f.drop_last()[q].0 == n && #[trigger] f.drop_last()[q].1 == named_s(
                f.drop_last(),
                n,
            )[m];
        assert(f[q] == f.drop_last()[q]);
    }
}

/// Mapping keeps equal multisets equal.
proof fn lemma_map_multiset<A, B>(a: Seq<A>, b: Seq<A>, g: spec_fn(A) -> B)
    requires
        a.to_multiset() == b.to_multiset(),
    ensures
        a.map_values(g).to_multiset() == b.map_values(g).to_multiset(),
    decreases a.len(),
{
    if a.len() == 0 {
        vstd::seq_lib::to_multiset_len(a);
        vstd::seq_lib::to_multiset_len(b);
        assert(a.map_values(g) =~= Seq::<B>::empty());
        assert(b.map_values(g) =~= Seq::<B>::empty());
    } else {
        let x = a.last();
        let ad = a.drop_last();
        assert(a =~= ad.push(x));
        vstd::seq_lib::to_multiset_build(ad, x);
        assert(b.to_multiset().count(x) > 0);
        assert(b.contains(x));
        let k = choose|k: int| 0 <= k < b.len() && b[k] == x;
        vstd::seq_lib::to_multiset_remove(b, k);
        assert(b.remove(k).to_multiset() =~= ad.to_multiset());
        lemma_map_multiset(ad, b.remove(k), g);
        assert(a.map_values(g) =~= ad.map_values(g).push(g(x)));
        vstd::seq_lib::to_multiset_build(ad.map_values(g), g(x));
        assert(b.remove(k).map_values(g) =~= b.map_values(g).remove(k));
        vstd::seq_lib::to_multiset_remove(b.map_values(g), k);
        assert(a.map_values(g).to_multiset() =~= b.map_values(g).to_multiset());
    }
}

/// Whether copies differ depends only on which copies there are.
proof fn lemma_mixed_perm(a: Seq<SkillOrigin>, b: Seq<SkillOrigin>, c: Option<Seq<char>>)
    requires
        a.to_multiset() == b.to_multiset(),
        mixed(hashes_s(a, c)),
    ensures
        mixed(hashes_s(b, c)),
{
    let ha = hashes_s(a, c);
    let hb = hashes_s(b, c);
    let (i, j) = choose|i: int, j: int| 0 <= i < ha.len() && 0 <= j < ha.len() && ha[i] != ha[j];
    assert forall|p: int| 0 <= p < ha.len() implies exists|r: int| 0 <= r < hb.len() && #[trigger] hb[r] == #[trigger] ha[p] by {
        if p < a.len() {
            assert(a.to_multiset().count(a[p]) > 0) by {
                assert(a.contains(a[p]));
            }
            assert(b.contains(a[p]));
            let r = choose|r: int| 0 <= r < b.len() && b[r] == a[p];
            assert(hb[r] == ha[p]);
        } else {
            vstd::seq_lib::to_multiset_len(a);
            vstd::seq_lib::to_multiset_len(b);
            assert(hb[b.len() as int] == ha[p]);
        }
    }
    let ri = choose|r: int| 0 <= r < hb.len() && #[trigger] hb[r] == ha[i];
    let rj = choose|r: int| 0 <= r < hb.len() && #[trigger] hb[r] == ha[j];
    assert(hb[ri] != hb[rj]);
}

/// Two lists of copies sorted by agent and path, with the same copies, any two
/// of which are ordered or equal, read the same.
proof fn lemma_sorted_views(s1: Seq<SkillOrigin>, s2: Seq<SkillOrigin>)
    requires
        origins_sorted(s1),
        origins_sorted(s2),
        s1.map_values(|o: SkillOrigin| origin_view(o)).to_multiset() == s2.map_values(
            |o: SkillOrigin| origin_view(o),
        ).to_multiset(),
        forall|a: int, b: int|
            #![trigger s1[a], s1[b]]
            0 <= a < s1.len() && 0 <= b < s1.len() ==> origin_lt(s1[a], s1[b]) || origin_lt(s1[b], s1[a])
                || origin_view(s1[a]) == origin_view(s1[b]),
    ensures
        s1.map_values(|o: SkillOrigin| origin_view(o)) == s2.map_values(|o: SkillOrigin| origin_view(o)),
    decreases s1.len(),
{
    let t1 = s1.map_values(|o: SkillOrigin| origin_view(o));
    let t2 = s2.map_values(|o: SkillOrigin| origin_view(o));
    vstd::seq_lib::to_multiset_len(t1);
    vstd::seq_lib::to_multiset_len(t2);
    if s1.len() == 0 {
        assert(t1 =~= t2);
    } else {
        assert(t1.contains(t1[0]));
        assert(t1.to_multiset().count(t1[0]) > 0);
        assert(t2.to_multiset().count(t1[0]) > 0);
        assert(t2.contains(t1[0]));
        let k = choose|k: int| 0 <= k < t2.len() && t2[k] == t1[0];
        assert(t1.contains(t2[0])) by {
            assert(t2.contains(t2[0]));
            assert(t2.to_multiset().count(t2[0]) > 0);
            assert(t1.to_multiset().count(t2[0]) > 0);
        }
        let m = choose|m: int| 0 <= m < t1.len() && t1[m] == t2[0];
        // The order reads agents and paths only, which the views hold.
        if k > 0 && m > 0 {
            assert(!origin_lt(s2[k], s2[0]));
            assert(origin_lt(s1[0], s2[0]) == origin_lt(s2[k], s2[0]));
            assert(!origin_lt(s1[m], s1[0]));
            assert(origin_lt(s2[0], s1[0]) == origin_lt(s1[m], s1[0]));
            assert(origin_lt(s1[0], s1[m]) == origin_lt(s1[0], s2[0]));
            assert(origin_lt(s1[0], s1[m]) || origin_lt(s1[m], s1[0]) || origin_view(s1[0]) == origin_view(
                s1[m],
            ));
        }
        assert(t1[0] == t2[0]);
        let d1 = s1.drop_first();
        let d2 = s2.drop_first();
        assert(d1.map_values(|o: SkillOrigin| origin_view(o)) =~= t1.drop_first());
        assert(d2.map_values(|o: SkillOrigin| origin_view(o)) =~= t2.drop_first());
        assert(t1 =~= t1.drop_first().insert(0, t1[0]));
        assert(t2 =~= t2.drop_first().insert(0, t2[0]));
        vstd::seq_lib::to_multiset_insert(t1.drop_first(), 0, t1[0]);
        vstd::seq_lib::to_multiset_insert(t2.drop_first(), 0, t2[0]);
        assert forall|v| #[trigger] t1.drop_first().to_multiset().count(v) == t2.drop_first().to_multiset().count(
            v,
        ) by {
            assert(t1.to_multiset().count(v) == t2.to_multiset().count(v));
        }
        assert(t1.drop_first().to_multiset() =~= t2.drop_first().to_multiset());
        assert forall|a: int, b: int|
            #![trigger d1[a], d1[b]]
            0 <= a < d1.len() && 0 <= b < d1.len() implies origin_lt(d1[a], d1[b]) || origin_lt(d1[b], d1[a])
                || origin_view(d1[a]) == origin_view(d1[b]) by {
            assert(d1[a] == s1[a + 1] && d1[b] == s1[b + 1]);
        }
        assert forall|i: int, j: int| 0 <= i < j < d1.len() implies !origin_lt(#[trigger] d1[j], #[trigger] d1[i]) by {
            assert(d1[i] == s1[i + 1] && d1[j] == s1[j + 1]);
        }
        assert forall|i: int, j: int| 0 <= i < j < d2.len() implies !origin_lt(#[trigger] d2[j], #[trigger] d2[i]) by {
            assert(d2[i] == s2[i + 1] && d2[j] == s2[j + 1]);
        }
        lemma_sorted_views(d1, d2);
        assert(t1 =~= t2);
    }
}

/// Two strictly increasing lists of names with the same names are the same.
proof fn lemma_sorted_names(x: Seq<Seq<char>>, y: Seq<Seq<char>>)
    requires
        forall|i: int, j: int| 0 <= i < j < x.len() ==> lt_s(#[trigger] x[i], #[trigger] x[j]),
        forall|i: int, j: int| 0 <= i < j < y.len() ==> lt_s(#[trigger] y[i], #[trigger] y[j]),
        forall|n: Seq<char>| x.contains(n) <==> y.contains(n),
    ensures
        x == y,
    decreases x.len(),
{
    if x.len() == 0 {
        if y.len() > 0 {
            assert(y.contains(y[0]));
        }
        assert(x =~= y);
    } else if y.len() == 0 {
        assert(x.contains(x[0]));
    } else {
        assert(x.contains(x[0]));
        assert(y.contains(y[0]));
        let k = choose|k: int| 0 <= k < y.len() && y[k] == x[0];
        let m = choose|m: int| 0 <= m < x.len() && x[m] == y[0];
        lemma_lt_asym(x[0], y[0]);
        lemma_lt_irrefl(x[0]);
        lemma_lt_irrefl(y[0]);
        if k > 0 {
            assert(lt_s(y[0], y[k]));
        }
        if m > 0 {
            assert(lt_s(x[0], x[m]));
        }
        assert(x[0] == y[0]);
        let dx = x.drop_first();
        let dy = y.drop_first();
        assert forall|n: Seq<char>| dx.contains(n) <==> dy.contains(n) by {
            if dx.contains(n) {
                let a = choose|a: int| 0 <= a < dx.len() && dx[a] == n;
                assert(x[a + 1] == n);
                assert(lt_s(x[0], x[a + 1]));
                assert(y.contains(n));
                let b = choose|b: int| 0 <= b < y.len() && y[b] == n;
                assert(b != 0);
                assert(dy[b - 1] == n);
            }
            if dy.contains(n) {
                let a = choose|a: int| 0 <= a < dy.len() && dy[a] == n;
                assert(y[a + 1] == n);
                assert(lt_s(y[0], y[a + 1]));
                assert(x.contains(n));
                let b = choose|b: int| 0 <= b < x.len() && x[b] == n;
                assert(b != 0);
                assert(dx[b - 1] == n);
            }
        }
        assert forall|i: int, j: int| 0 <= i < j < dx.len() implies lt_s(#[trigger] dx[i], #[trigger] dx[j]) by {
            assert(dx[i] == x[i + 1] && dx[j] == x[j + 1]);
        }
        assert forall|i: int, j: int| 0 <= i < j < dy.len() implies lt_s(#[trigger] dy[i], #[trigger] dy[j]) by {
            assert(dy[i] == y[i + 1] && dy[j] == y[j + 1]);
        }
        lemma_sorted_names(dx, dy);
        assert forall|i: int| 0 <= i < x.len() implies x[i] == y[i] by {
            if i > 0 {
                assert(x[i] == dx[i - 1] && y[i] == dy[i - 1]);
            }
        }
        assert(x =~= y);
    }
}

/// The order in which the personal Skill sources are listed never changes the
/// migration plan: the plans for the same shared root, the same inventory of
/// it, and the same sources listed in any order are the same, as long as no
/// two different copies of one Skill share an agent and a path.
pub proof fn law_source_order_irrelevant(
    p1: SkillMigrationPlan,
    p2: SkillMigrationPlan,
    root: Seq<char>,
    canonical: Seq<SkillInventoryEntry>,
    s1: Seq<(SkillSource, Vec<SkillInventoryEntry>)>,
    s2: Seq<(SkillSource, Vec<SkillInventoryEntry>)>,
)
    requires
        is_migration_plan(p1, root, canonical, s1),
        is_migration_plan(p2, root, canonical, s2),
        s1.to_multiset() == s2.to_multiset(),
        copies_ordered(found_s(s1)),
    ensures
        plan_view(p1) == plan_view(p2),
{
    let f1 = found_s(s1);
    let f2 = found_s(s2);
    assert forall|n: Seq<char>| has_skill(f1, n) <==> has_skill(f2, n) by {
        lemma_named_perm(s1, s2, n);
        lemma_has_skill_named(f1, n);
        lemma_has_skill_named(f2, n);
        vstd::seq_lib::to_multiset_len(named_s(f1, n));
        vstd::seq_lib::to_multiset_len(named_s(f2, n));
    }
    let x = p1.items@.map_values(|it: SkillPlanItem| it.name@);
    let y = p2.items@.map_values(|it: SkillPlanItem| it.name@);
    assert forall|n: Seq<char>| x.contains(n) <==> y.contains(n) by {
        if x.contains(n) {
            let a = choose|a: int| 0 <= a < x.len() && x[a] == n;
            assert(p1.items@[a].name@ == n);
            assert(has_skill(f2, n));
            let b = choose|b: int| 0 <= b < p2.items@.len() && #[trigger] p2.items@[b].name@ == n;
            assert(y[b] == n);
        }
        if y.contains(n) {
            let a = choose|a: int| 0 <= a < y.len() && y[a] == n;
            assert(p2.items@[a].name@ == n);
            assert(has_skill(f1, n));
            let b = choose|b: int| 0 <= b < p1.items@.len() && #[trigger] p1.items@[b].name@ == n;
            assert(x[b] == n);
        }
    }
    assert forall|i: int, j: int| 0 <= i < j < x.len() implies lt_s(#[trigger] x[i], #[trigger] x[j]) by {
        assert(lt_s(p1.items@[i].name@, p1.items@[j].name@));
    }
    assert forall|i: int, j: int| 0 <= i < j < y.len() implies lt_s(#[trigger] y[i], #[trigger] y[j]) by {
        assert(lt_s(p2.items@[i].name@, p2.items@[j].name@));
    }
    lemma_sorted_names(x, y);
    assert forall|q: int| 0 <= q < p1.items@.len() implies item_view(#[trigger] p1.items@[q]) == item_view(
        p2.items@[q],
    ) by {
        let it1 = p1.items@[q];
        let it2 = p2.items@[q];
        assert(x[q] == y[q]);
        let n = it1.name@;
        assert(it2.name@ == n);
        assert(item_ok(it1, root, f1, canonical));
        assert(item_ok(it2, root, f2, canonical));
        lemma_named_perm(s1, s2, n);
        let a1 = named_s(f1, n);
        let a2 = named_s(f2, n);
        if mixed(hashes_s(a1, otext(it1.canonical_sha256))) {
            lemma_mixed_perm(a1, a2, otext(it1.canonical_sha256));
        }
        if mixed(hashes_s(a2, otext(it1.canonical_sha256))) {
            lemma_mixed_perm(a2, a1, otext(it1.canonical_sha256));
        }
        let v = |o: SkillOrigin| origin_view(o);
        lemma_map_multiset(it1.sources@, it2.sources@, v);
        let s = it1.sources@;
        assert forall|a: int, b: int|
            #![trigger s[a], s[b]]
            0 <= a < s.len() && 0 <= b < s.len() implies origin_lt(s[a], s[b]) || origin_lt(s[b], s[a])
                || origin_view(s[a]) == origin_view(s[b]) by {
            assert(s.contains(s[a]) && s.contains(s[b]));
            assert(s.to_multiset().count(s[a]) > 0 && s.to_multiset().count(s[b]) > 0);
            assert(a1.to_multiset().count(s[a]) > 0 && a1.to_multiset().count(s[b]) > 0);
            assert(a1.contains(s[a]) && a1.contains(s[b]));
            let ia = choose|i: int| 0 <= i < a1.len() && a1[i] == s[a];
            let ib = choose|i: int| 0 <= i < a1.len() && a1[i] == s[b];
            lemma_named_from(f1, n, ia);
            lemma_named_from(f1, n, ib);
            let qa = choose|q: int| 0 <= q < f1.len() && f1[q].0 == n && #[trigger] f1[q].1 == a1[ia];
            let qb = choose|q: int| 0 <= q < f1.len() && f1[q].0 == n && #[trigger] f1[q].1 == a1[ib];
            assert(f1[qa].0 == f1[qb].0);
        }
        lemma_sorted_views(it1.sources@, it2.sources@);
    }
    assert(p1.items@.map_values(|it: SkillPlanItem| item_view(it)) =~= p2.items@.map_values(
        |it: SkillPlanItem| item_view(it),
    ));
}

} // verus!
