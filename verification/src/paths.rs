//! Paths held as text, read with the component rules of `std::path` on Unix.
//!
//! A path's components are modelled as a sequence of strings: `"/"` for the
//! root, `"."` for a leading current-directory marker, `".."` for a parent
//! step and the name itself for any other component. No ordinary component
//! contains a slash or is `"."`, so the encoding is one to one.
use vstd::prelude::*;
use crate::text::{chars_of, push_char, push_str, same, strs};

verus! {

/// `base` joined with `rel` as `PathBuf::push` joins them: an absolute `rel`
/// replaces `base`; otherwise a slash goes between them unless `base` is
/// empty or already ends with one.
pub open spec fn join_s(base: Seq<char>, rel: Seq<char>) -> Seq<char> {
    if rel.len() > 0 && rel[0] == '/' {
        rel
    } else if base.len() == 0 || base.last() == '/' {
        base + rel
    } else {
        base + seq!['/'] + rel
    }
}

/// `Path::join`.
pub fn join(base: &str, rel: &str) -> (r: String)
    ensures
        r@ == join_s(base@, rel@),
{
    let rc = chars_of(rel);
    if rc.len() > 0 && rc[0] == '/' {
        return rel.to_owned();
    }
    let bc = chars_of(base);
    let mut r = base.to_owned();
    if bc.len() > 0 && bc[bc.len() - 1] != '/' {
        push_char(&mut r, '/');
    }
    push_str(&mut r, rel);
    r
}

/// The pieces of `p` between the separators `sep`, as `str::split(sep)` yields them.
pub open spec fn split_s(p: Seq<char>, sep: char) -> Seq<Seq<char>>
    decreases p.len(),
{
    if p.len() == 0 {
        seq![Seq::<char>::empty()]
    } else {
        let r = split_s(p.drop_last(), sep);
        if p.last() == sep {
            r.push(Seq::<char>::empty())
        } else {
            r.update(r.len() - 1, r.last().push(p.last()))
        }
    }
}

/// There is always at least one piece.
pub proof fn lemma_split_len(p: Seq<char>, sep: char)
    ensures
        split_s(p, sep).len() >= 1,
    decreases p.len(),
{
    if p.len() > 0 {
        lemma_split_len(p.drop_last(), sep);
    }
}

/// The pieces that name components: the non-empty ones other than `"."`.
pub open spec fn normal_parts(segs: Seq<Seq<char>>) -> Seq<Seq<char>>
    decreases segs.len(),
{
    if segs.len() == 0 {
        Seq::empty()
    } else {
        let r = normal_parts(segs.drop_last());
        let s = segs.last();
        if s.len() == 0 || s == seq!['.'] {
            r
        } else {
            r.push(s)
        }
    }
}

/// The components of `p`, as `Path::components` yields them.
pub open spec fn comps(p: Seq<char>) -> Seq<Seq<char>> {
    let segs = split_s(p, '/');
    if p.len() > 0 && p[0] == '/' {
        seq![seq!['/']] + normal_parts(segs)
    } else if segs[0] == seq!['.'] {
        seq![seq!['.']] + normal_parts(segs)
    } else {
        normal_parts(segs)
    }
}

/// A string holding one character.
fn one_char(c: char) -> (s: String)
    ensures
        s@ == seq![c],
{
    let mut s = String::new();
    push_char(&mut s, c);
    proof {
        assert(Seq::<char>::empty().push(c) =~= seq![c]);
    }
    s
}

/// `str::split(sep)`: the pieces of `p` between the separators.
pub fn split(p: &str, sep: char) -> (r: Vec<String>)
    ensures
        strs(r@) == split_s(p@, sep),
{
    let cs = chars_of(p);
    let mut done: Vec<String> = Vec::new();
    let mut cur = String::new();
    let mut i: usize = 0;
    proof {
        assert(cs@.take(0) =~= Seq::<char>::empty());
        assert(strs(done@).push(cur@) =~= seq![Seq::<char>::empty()]);
    }
    while i < cs.len()
        invariant
            i <= cs@.len(),
            cs@ == p@,
            strs(done@).push(cur@) == split_s(cs@.take(i as int), sep),
        decreases cs@.len() - i,
    {
        let c = cs[i];
        proof {
            assert(cs@.take(i + 1).drop_last() =~= cs@.take(i as int));
            assert(cs@.take(i + 1).last() == c);
            lemma_split_len(cs@.take(i as int), sep);
        }
        if c == sep {
            let piece = cur;
            done.push(piece);
            cur = String::new();
            proof {
                assert(strs(done@) =~= split_s(cs@.take(i as int), sep));
                assert(strs(done@).push(cur@) =~= split_s(cs@.take(i as int), sep).push(
                    Seq::<char>::empty(),
                ));
            }
        } else {
            let ghost before = cur@;
            push_char(&mut cur, c);
            proof {
                let r = split_s(cs@.take(i as int), sep);
                assert(r.last() == before);
                assert(strs(done@).push(cur@) =~= r.update(r.len() - 1, r.last().push(c)));
            }
        }
        i += 1;
    }
    done.push(cur);
    proof {
        assert(cs@.take(cs@.len() as int) =~= cs@);
        assert(strs(done@) =~= split_s(p@, sep));
    }
    done
}

/// Whether the piece names a component.
fn is_named(s: &str) -> (b: bool)
    ensures
        b == !(s@.len() == 0 || s@ == seq!['.']),
{
    let c = chars_of(s);
    if c.len() == 0 {
        return false;
    }
    if c.len() == 1 && c[0] == '.' {
        proof {
            assert(c@ =~= seq!['.']);
        }
        return false;
    }
    proof {
        if c@ == seq!['.'] {
            assert(c@.len() == 1);
        }
    }
    true
}

/// `Path::components`, in the encoding described at the top of this file.
pub fn components(p: &str) -> (r: Vec<String>)
    ensures
        strs(r@) == comps(p@),
{
    let segs = split(p, '/');
    let pc = chars_of(p);
    let mut out: Vec<String> = Vec::new();
    proof {
        lemma_split_len(p@, '/');
    }
    if pc.len() > 0 && pc[0] == '/' {
        out.push(one_char('/'));
    } else if is_dot(&segs[0]) {
        out.push(one_char('.'));
    }
    let ghost head = strs(out@);
    let mut j: usize = 0;
    proof {
        assert(strs(segs@).take(0) =~= Seq::<Seq<char>>::empty());
        assert(strs(out@) =~= head + normal_parts(strs(segs@).take(0)));
    }
    while j < segs.len()
        invariant
            j <= segs@.len(),
            strs(out@) == head + normal_parts(strs(segs@).take(j as int)),
        decreases segs@.len() - j,
    {
        proof {
            assert(strs(segs@).take(j + 1).drop_last() =~= strs(segs@).take(j as int));
            assert(strs(segs@).take(j + 1).last() == segs@[j as int]@);
        }
        if is_named(&segs[j]) {
            let ghost prev = out@;
            out.push(segs[j].clone());
            proof {
                assert(strs(out@) =~= strs(prev).push(segs@[j as int]@));
                assert(strs(out@) =~= head + normal_parts(strs(segs@).take(j as int)).push(
                    segs@[j as int]@,
                ));
            }
        }
        j += 1;
    }
    proof {
        assert(strs(segs@).take(segs@.len() as int) =~= strs(segs@));
        assert(strs(segs@)[0] == segs@[0]@);
        if pc@.len() > 0 && pc@[0] == '/' {
            assert(head =~= seq![seq!['/']]);
        } else if segs@[0]@ == seq!['.'] {
            assert(head =~= seq![seq!['.']]);
        } else {
            assert(head =~= Seq::<Seq<char>>::empty());
        }
        assert(strs(out@) =~= comps(p@));
    }
    out
}

/// Whether the piece is exactly `"."`.
fn is_dot(s: &str) -> (b: bool)
    ensures
        b == (s@ == seq!['.']),
{
    let c = chars_of(s);
    if c.len() == 1 && c[0] == '.' {
        proof {
            assert(c@ =~= seq!['.']);
        }
        true
    } else {
        proof {
            if c@ == seq!['.'] {
                assert(c@.len() == 1);
            }
        }
        false
    }
}

/// Whether two lists of strings hold the same characters, element by element.
pub fn same_strs(a: &Vec<String>, b: &Vec<String>) -> (r: bool)
    ensures
        r == (strs(a@) == strs(b@)),
{
    if a.len() != b.len() {
        proof {
            assert(strs(a@).len() != strs(b@).len());
        }
        return false;
    }
    let mut i: usize = 0;
    while i < a.len()
        invariant
            i <= a@.len(),
            a@.len() == b@.len(),
            forall|k: int| 0 <= k < i ==> a@[k]@ == b@[k]@,
        decreases a@.len() - i,
    {
        let x = chars_of(&a[i]);
        let y = chars_of(&b[i]);
        if !same(x.as_slice(), y.as_slice()) {
            proof {
                assert(strs(a@)[i as int] != strs(b@)[i as int]);
            }
            return false;
        }
        i += 1;
    }
    proof {
        assert(strs(a@) =~= strs(b@));
    }
    true
}

/// Whether the first `a.len()` entries of `b` hold the characters of `a`.
fn prefix_strs(a: &Vec<String>, b: &Vec<String>) -> (r: bool)
    ensures
        r == strs(a@).is_prefix_of(strs(b@)),
{
    if a.len() > b.len() {
        return false;
    }
    let mut i: usize = 0;
    while i < a.len()
        invariant
            i <= a@.len(),
            a@.len() <= b@.len(),
            forall|k: int| 0 <= k < i ==> a@[k]@ == b@[k]@,
        decreases a@.len() - i,
    {
        let x = chars_of(&a[i]);
        let y = chars_of(&b[i]);
        if !same(x.as_slice(), y.as_slice()) {
            proof {
                assert(strs(a@)[i as int] != strs(b@)[i as int]);
            }
            return false;
        }
        i += 1;
    }
    proof {
        assert(strs(a@) =~= strs(b@).subrange(0, a@.len() as int));
    }
    true
}

/// `Path` equality, which compares components.
pub fn path_eq(a: &str, b: &str) -> (r: bool)
    ensures
        r == (comps(a@) == comps(b@)),
{
    let x = components(a);
    let y = components(b);
    same_strs(&x, &y)
}

/// `Path::starts_with`: the components of `base` begin those of `p`.
pub fn path_starts_with(p: &str, base: &str) -> (r: bool)
    ensures
        r == comps(base@).is_prefix_of(comps(p@)),
{
    let x = components(p);
    let y = components(base);
    prefix_strs(&y, &x)
}

/// `Path::is_absolute` on Unix: the path begins at the root.
pub fn is_absolute(p: &str) -> (r: bool)
    ensures
        r == (p@.len() > 0 && p@[0] == '/'),
{
    let c = chars_of(p);
    c.len() > 0 && c[0] == '/'
}

/// `p.parent() == Some(root)`: the last component of `p` is a name or a
/// step, and the components before it are those of `root`.
pub open spec fn parent_is_s(p: Seq<char>, root: Seq<char>) -> bool {
    let c = comps(p);
    c.len() > 0 && c.last() != seq!['/'] && c.drop_last() == comps(root)
}

/// Whether `root` is the parent of `p`.
pub fn parent_is(p: &str, root: &str) -> (r: bool)
    ensures
        r == parent_is_s(p@, root@),
{
    let mut x = components(p);
    let y = components(root);
    if x.len() == 0 {
        return false;
    }
    let ghost all = x@;
    let last = x.pop().unwrap();
    proof {
        assert(strs(all).last() == last@);
        assert(strs(all).drop_last() =~= strs(x@));
    }
    if is_root_mark(&last) {
        return false;
    }
    same_strs(&x, &y)
}

/// Whether a component is the root.
fn is_root_mark(s: &str) -> (b: bool)
    ensures
        b == (s@ == seq!['/']),
{
    let c = chars_of(s);
    if c.len() == 1 && c[0] == '/' {
        proof {
            assert(c@ =~= seq!['/']);
        }
        true
    } else {
        proof {
            if c@ == seq!['/'] {
                assert(c@.len() == 1);
            }
        }
        false
    }
}

/// `Path::file_name`: the last component when it is a name.
pub open spec fn file_name_s(p: Seq<char>) -> Option<Seq<char>> {
    let c = comps(p);
    if c.len() > 0 && c.last() != seq!['/'] && c.last() != seq!['.'] && c.last() != seq!['.', '.'] {
        Some(c.last())
    } else {
        None
    }
}

/// The index of the last `'.'` in `s`.
pub open spec fn last_dot(s: Seq<char>) -> Option<int>
    decreases s.len(),
{
    if s.len() == 0 {
        None
    } else if s.last() == '.' {
        Some(s.len() - 1)
    } else {
        last_dot(s.drop_last())
    }
}

/// `Path::extension`: what follows the last dot of the file name, unless
/// that dot is the name's first character.
pub open spec fn extension_s(p: Seq<char>) -> Option<Seq<char>> {
    match file_name_s(p) {
        None => None,
        Some(n) => match last_dot(n) {
            None => None,
            Some(i) => if i == 0 {
                None
            } else {
                Some(n.subrange(i + 1, n.len() as int))
            },
        },
    }
}

/// The position of the last dot in `s`.
fn find_last_dot(s: &Vec<char>) -> (r: Option<usize>)
    ensures
        match r {
            Some(i) => i < s@.len() && last_dot(s@) == Some(i as int),
            None => last_dot(s@) is None,
        },
{
    let mut i = s.len();
    proof {
        assert(s@.take(s@.len() as int) =~= s@);
    }
    while i > 0
        invariant
            i <= s@.len(),
            last_dot(s@) == last_dot(s@.take(i as int)),
        decreases i,
    {
        proof {
            assert(s@.take(i as int).drop_last() =~= s@.take(i - 1));
        }
        if s[i - 1] == '.' {
            return Some(i - 1);
        }
        i -= 1;
    }
    proof {
        assert(s@.take(0) =~= Seq::<char>::empty());
    }
    None
}

/// `Path::extension`.
pub fn extension(p: &str) -> (r: Option<String>)
    ensures
        match r {
            Some(e) => extension_s(p@) == Some(e@),
            None => extension_s(p@) is None,
        },
{
    let mut c = components(p);
    if c.len() == 0 {
        return None;
    }
    let ghost all = c@;
    let name = c.pop().unwrap();
    proof {
        assert(strs(all).last() == name@);
    }
    let n = chars_of(&name);
    if n.len() == 0 || is_root_mark(&name) || is_dot(&name) || is_dots(&name) {
        proof {
            if n@.len() == 0 {
                lemma_named_nonempty(p@);
            }
        }
        return None;
    }
    match find_last_dot(&n) {
        None => None,
        Some(i) => {
            if i == 0 {
                None
            } else {
                let tail = crate::text::slice_of(n.as_slice(), i + 1, n.len());
                Some(crate::text::string_of(tail.as_slice()))
            }
        },
    }
}

/// Whether a component is `".."`.
fn is_dots(s: &str) -> (b: bool)
    ensures
        b == (s@ == seq!['.', '.']),
{
    let c = chars_of(s);
    if c.len() == 2 && c[0] == '.' && c[1] == '.' {
        proof {
            assert(c@ =~= seq!['.', '.']);
        }
        true
    } else {
        proof {
            if c@ == seq!['.', '.'] {
                assert(c@.len() == 2);
            }
        }
        false
    }
}

/// No component is empty.
pub proof fn lemma_named_nonempty(p: Seq<char>)
    ensures
        forall|k: int| 0 <= k < comps(p).len() ==> #[trigger] comps(p)[k].len() > 0,
{
    lemma_parts_nonempty(split_s(p, '/'));
}

proof fn lemma_parts_nonempty(segs: Seq<Seq<char>>)
    ensures
        forall|k: int|
            0 <= k < normal_parts(segs).len() ==> #[trigger] normal_parts(segs)[k].len() > 0,
    decreases segs.len(),
{
    if segs.len() > 0 {
        let r = normal_parts(segs.drop_last());
        lemma_parts_nonempty(segs.drop_last());
        assert forall|k: int| 0 <= k < normal_parts(segs).len() implies #[trigger] normal_parts(
            segs,
        )[k].len() > 0 by {
            if k < r.len() {
                assert(normal_parts(segs)[k] == r[k]);
            }
        }
    }
}

/// `dirs::home_dir()`, as text. What it returns depends on the environment
/// and the system; nothing is said of it.
#[verifier::external_body]
pub(crate) fn home_dir_text() -> (r: Option<String>) {
    dirs::home_dir().map(|p| p.to_string_lossy().into_owned())
}

/// A text without the separator is one piece.
pub proof fn lemma_split_whole(y: Seq<char>, sep: char)
    requires
        !y.contains(sep),
    ensures
        split_s(y, sep) == seq![y],
    decreases y.len(),
{
    if y.len() > 0 {
        assert(!y.drop_last().contains(sep)) by {
            if y.drop_last().contains(sep) {
                let i = choose|i: int| 0 <= i < y.drop_last().len() && y.drop_last()[i] == sep;
                assert(y[i] == sep);
            }
        }
        lemma_split_whole(y.drop_last(), sep);
        assert(y.last() != sep) by {
            assert(y[y.len() - 1] == y.last());
        }
        let r = split_s(y.drop_last(), sep);
        assert(split_s(y, sep) == r.update(r.len() - 1, r.last().push(y.last())));
        assert(y.drop_last().push(y.last()) =~= y);
        assert(r.update(r.len() - 1, r.last().push(y.last())) =~= seq![y]);
    } else {
        assert(y =~= Seq::<char>::empty());
    }
}

/// A lone empty piece names nothing.
proof fn lemma_normal_blank()
    ensures
        normal_parts(seq![Seq::<char>::empty()]) == Seq::<Seq<char>>::empty(),
{
    let s = seq![Seq::<char>::empty()];
    assert(s.drop_last() =~= Seq::<Seq<char>>::empty());
    assert(normal_parts(Seq::<Seq<char>>::empty()) =~= Seq::<Seq<char>>::empty());
    assert(s.last().len() == 0);
    assert(normal_parts(s) == normal_parts(s.drop_last()));
}

/// Splitting at a separator splits the two sides apart.
pub proof fn lemma_split_cat(x: Seq<char>, y: Seq<char>, sep: char)
    ensures
        split_s(x + seq![sep] + y, sep) == split_s(x, sep) + split_s(y, sep),
    decreases y.len(),
{
    let z = x + seq![sep] + y;
    if y.len() == 0 {
        assert(z.drop_last() =~= x);
        assert(split_s(y, sep) =~= seq![Seq::<char>::empty()]);
        assert(split_s(z, sep) =~= split_s(x, sep) + split_s(y, sep));
    } else {
        assert(z.drop_last() =~= x + seq![sep] + y.drop_last());
        lemma_split_cat(x, y.drop_last(), sep);
        lemma_split_len(y.drop_last(), sep);
        lemma_split_len(x, sep);
        let a = split_s(x, sep);
        let b = split_s(y.drop_last(), sep);
        assert(z.last() == y.last());
        if y.last() == sep {
            assert((a + b).push(Seq::<char>::empty()) =~= a + b.push(Seq::<char>::empty()));
        } else {
            assert((a + b).update((a + b).len() - 1, (a + b).last().push(y.last())) =~= a + b.update(
                b.len() - 1,
                b.last().push(y.last()),
            ));
        }
    }
}

/// The names among two runs of pieces are those of the first, then of the second.
pub proof fn lemma_normal_cat(a: Seq<Seq<char>>, b: Seq<Seq<char>>)
    ensures
        normal_parts(a + b) == normal_parts(a) + normal_parts(b),
    decreases b.len(),
{
    if b.len() == 0 {
        assert(a + b =~= a);
        assert(normal_parts(b) =~= Seq::<Seq<char>>::empty());
        assert(normal_parts(a) + normal_parts(b) =~= normal_parts(a));
    } else {
        assert((a + b).drop_last() =~= a + b.drop_last());
        assert((a + b).last() == b.last());
        lemma_normal_cat(a, b.drop_last());
        let s = b.last();
        if s.len() == 0 || s == seq!['.'] {
        } else {
            assert((normal_parts(a) + normal_parts(b.drop_last())).push(s) =~= normal_parts(a) + normal_parts(
                b.drop_last(),
            ).push(s));
        }
    }
}

/// Joining a relative path whose first piece is a name adds its names to
/// the components of the base.
pub proof fn lemma_comps_join(b: Seq<char>, r: Seq<char>)
    requires
        r.len() > 0,
        r[0] != '/',
        split_s(r, '/')[0].len() > 0,
        split_s(r, '/')[0] != seq!['.'],
    ensures
        comps(join_s(b, r)) == comps(b) + normal_parts(split_s(r, '/')),
{
    lemma_split_len(r, '/');
    lemma_split_len(b, '/');
    let sr = split_s(r, '/');
    if b.len() == 0 {
        assert(join_s(b, r) == r);
        assert(split_s(b, '/') =~= seq![Seq::<char>::empty()]);
        lemma_normal_blank();
        assert(comps(b) =~= Seq::<Seq<char>>::empty());
        assert(comps(b) + normal_parts(sr) =~= normal_parts(sr));
    } else if b.last() == '/' {
        let b0 = b.drop_last();
        assert(b =~= b0 + seq!['/'] + Seq::<char>::empty());
        assert(join_s(b, r) =~= b0 + seq!['/'] + r);
        lemma_split_cat(b0, Seq::<char>::empty(), '/');
        lemma_split_cat(b0, r, '/');
        let s0 = split_s(b0, '/');
        assert(split_s(Seq::<char>::empty(), '/') =~= seq![Seq::<char>::empty()]);
        lemma_normal_cat(s0, seq![Seq::<char>::empty()]);
        lemma_normal_blank();
        lemma_normal_cat(s0, sr);
        lemma_split_len(b0, '/');
        let j = join_s(b, r);
        assert(j[0] == b[0]);
        assert((s0 + seq![Seq::<char>::empty()])[0] == s0[0]);
        assert((s0 + sr)[0] == s0[0]);
        assert(normal_parts(s0) + normal_parts(seq![Seq::<char>::empty()]) =~= normal_parts(s0));
        if b[0] == '/' {
            assert(comps(j) =~= seq![seq!['/']] + normal_parts(s0) + normal_parts(sr));
        } else if s0[0] == seq!['.'] {
            assert(comps(j) =~= seq![seq!['.']] + normal_parts(s0) + normal_parts(sr));
        } else {
        }
    } else {
        assert(join_s(b, r) =~= b + seq!['/'] + r);
        lemma_split_cat(b, r, '/');
        let s0 = split_s(b, '/');
        lemma_normal_cat(s0, sr);
        let j = join_s(b, r);
        assert(j[0] == b[0]);
        assert((s0 + sr)[0] == s0[0]);
        if b[0] == '/' {
            assert(comps(j) =~= seq![seq!['/']] + normal_parts(s0) + normal_parts(sr));
        } else if s0[0] == seq!['.'] {
            assert(comps(j) =~= seq![seq!['.']] + normal_parts(s0) + normal_parts(sr));
        } else {
        }
    }
}

/// A component name: not empty, no slash, not `.`.
pub open spec fn plain_name(s: Seq<char>) -> bool {
    s.len() > 0 && !s.contains('/') && s != seq!['.']
}

/// A single name is its own only component piece.
proof fn lemma_normal_one(s: Seq<char>)
    requires
        s.len() > 0,
        s != seq!['.'],
    ensures
        normal_parts(seq![s]) == seq![s],
{
    let q = seq![s];
    assert(q.drop_last() =~= Seq::<Seq<char>>::empty());
    assert(normal_parts(Seq::<Seq<char>>::empty()) =~= Seq::<Seq<char>>::empty());
    assert(q.last() == s);
    assert(Seq::<Seq<char>>::empty().push(s) =~= q);
}

/// A name has no slash in front.
proof fn lemma_name_head(s: Seq<char>)
    requires
        plain_name(s),
    ensures
        s[0] != '/',
{
    if s[0] == '/' {
        assert(s.contains('/'));
    }
}

/// Joining a name adds it as the last component.
pub proof fn lemma_comps_join_name(b: Seq<char>, name: Seq<char>)
    requires
        plain_name(name),
    ensures
        comps(join_s(b, name)) == comps(b).push(name),
{
    lemma_split_whole(name, '/');
    lemma_name_head(name);
    lemma_comps_join(b, name);
    lemma_normal_one(name);
    assert(comps(b) + seq![name] =~= comps(b).push(name));
}

/// Joining `x/y` for two names adds both as components.
pub proof fn lemma_comps_join_two(b: Seq<char>, x: Seq<char>, y: Seq<char>)
    requires
        plain_name(x),
        plain_name(y),
    ensures
        comps(join_s(b, x + seq!['/'] + y)) == comps(b) + seq![x, y],
{
    let r = x + seq!['/'] + y;
    lemma_split_cat(x, y, '/');
    lemma_split_whole(x, '/');
    lemma_split_whole(y, '/');
    assert(split_s(r, '/') =~= seq![x, y]);
    lemma_name_head(x);
    assert(r[0] == x[0]);
    lemma_comps_join(b, r);
    lemma_normal_cat(seq![x], seq![y]);
    lemma_normal_one(x);
    lemma_normal_one(y);
    assert(seq![x] + seq![y] =~= seq![x, y]);
}

} // verus!
