//! Character-level text operations, each with a model over `Seq<char>`.
use vstd::prelude::*;
use vstd::std_specs::iter::IteratorSpec;

verus! {

/// The characters of `s`, in order.
pub fn chars_of(s: &str) -> (v: Vec<char>)
    ensures
        v@ == s@,
{
    let mut v: Vec<char> = Vec::new();
    let mut it = s.chars();
    let ghost all = s@;
    proof {
        vstd::string::axiom_spec_iter(s);
    }
    loop
        invariant
            it.remaining() == all.skip(v.len() as int),
            v@ == all.take(v.len() as int),
            v.len() <= all.len(),
        ensures
            v@ == all,
        decreases all.len() - v.len(),
    {
        match it.next() {
            Some(c) => {
                v.push(c);
            },
            None => {
                break ;
            },
        }
    }
    v
}

/// `String::push`: appends one character.
#[verifier::external_body]
pub(crate) fn push_char(s: &mut String, c: char)
    ensures
        final(s)@ == old(s)@.push(c),
{
    s.push(c);
}

/// `String::push_str`: appends the characters of `t`.
#[verifier::external_body]
pub(crate) fn push_str(s: &mut String, t: &str)
    ensures
        final(s)@ == old(s)@ + t@,
{
    s.push_str(t);
}

/// A `String` holding exactly the characters of `v`.
pub fn string_of(v: &[char]) -> (s: String)
    ensures
        s@ == v@,
{
    let mut s = String::new();
    let mut i: usize = 0;
    while i < v.len()
        invariant
            i <= v.len(),
            s@ == v@.take(i as int),
        decreases v.len() - i,
    {
        push_char(&mut s, v[i]);
        proof {
            assert(v@.take(i + 1) =~= v@.take(i as int).push(v@[i as int]));
        }
        i += 1;
    }
    proof {
        assert(v@.take(v.len() as int) =~= v@);
    }
    s
}

/// The concatenation of `a` and `b` as a new `String`.
pub fn cat(a: &str, b: &str) -> (s: String)
    ensures
        s@ == a@ + b@,
{
    let mut s = a.to_owned();
    push_str(&mut s, b);
    s
}

/// The characters `v[a..b]`.
pub fn slice_of(v: &[char], a: usize, b: usize) -> (r: Vec<char>)
    requires
        a <= b <= v.len(),
    ensures
        r@ == v@.subrange(a as int, b as int),
{
    let mut r: Vec<char> = Vec::new();
    let mut i = a;
    while i < b
        invariant
            a <= i <= b,
            b <= v.len(),
            r@ == v@.subrange(a as int, i as int),
        decreases b - i,
    {
        r.push(v[i]);
        proof {
            assert(v@.subrange(a as int, i + 1) =~= v@.subrange(a as int, i as int).push(
                v@[i as int],
            ));
        }
        i += 1;
    }
    r
}

/// Whether two character slices hold the same characters.
pub fn same(a: &[char], b: &[char]) -> (r: bool)
    ensures
        r == (a@ == b@),
{
    if a.len() != b.len() {
        return false;
    }
    let mut i: usize = 0;
    while i < a.len()
        invariant
            i <= a.len(),
            a.len() == b.len(),
            forall|k: int| 0 <= k < i ==> a@[k] == b@[k],
        decreases a.len() - i,
    {
        if a[i] != b[i] {
            return false;
        }
        i += 1;
    }
    proof {
        assert(a@ =~= b@);
    }
    true
}

/// Whether the string `s` holds exactly the characters of `lit`.
pub fn str_is(s: &str, lit: &str) -> (r: bool)
    ensures
        r == (s@ == lit@),
{
    let a = chars_of(s);
    let b = chars_of(lit);
    same(a.as_slice(), b.as_slice())
}

/// Unicode `White_Space`, the property behind `char::is_whitespace` and `str::trim`.
pub open spec fn is_ws(c: char) -> bool {
    let n = c as u32;
    (0x09 <= n && n <= 0x0d) || n == 0x20 || n == 0x85 || n == 0xa0 || n == 0x1680 || (0x2000
        <= n && n <= 0x200a) || n == 0x2028 || n == 0x2029 || n == 0x202f || n == 0x205f || n
        == 0x3000
}

/// `char::is_whitespace`.
pub fn is_whitespace(c: char) -> (b: bool)
    ensures
        b == is_ws(c),
{
    let n: u32 = c as u32;
    (0x09 <= n && n <= 0x0d) || n == 0x20 || n == 0x85 || n == 0xa0 || n == 0x1680 || (0x2000
        <= n && n <= 0x200a) || n == 0x2028 || n == 0x2029 || n == 0x202f || n == 0x205f || n
        == 0x3000
}

/// `s` without its leading white space.
pub open spec fn trim_start_s(s: Seq<char>) -> Seq<char>
    decreases s.len(),
{
    if s.len() > 0 && is_ws(s[0]) {
        trim_start_s(s.drop_first())
    } else {
        s
    }
}

/// `s` without its trailing white space.
pub open spec fn trim_end_s(s: Seq<char>) -> Seq<char>
    decreases s.len(),
{
    if s.len() > 0 && is_ws(s.last()) {
        trim_end_s(s.drop_last())
    } else {
        s
    }
}

/// `s` without leading and trailing white space, as `str::trim` gives it.
pub open spec fn trim_s(s: Seq<char>) -> Seq<char> {
    trim_end_s(trim_start_s(s))
}

/// Number of leading white-space characters of `s`.
pub fn leading_ws(s: &[char]) -> (i: usize)
    ensures
        i <= s.len(),
        trim_start_s(s@) == s@.skip(i as int),
        forall|k: int| 0 <= k < i ==> is_ws(s@[k]),
{
    let mut i: usize = 0;
    proof {
        assert(s@.skip(0) =~= s@);
    }
    while i < s.len() && is_whitespace(s[i])
        invariant
            i <= s.len(),
            trim_start_s(s@) == trim_start_s(s@.skip(i as int)),
            forall|k: int| 0 <= k < i ==> is_ws(s@[k]),
        decreases s.len() - i,
    {
        proof {
            assert(s@.skip(i as int).drop_first() =~= s@.skip(i + 1));
        }
        i += 1;
    }
    i
}

/// End of `s[a..]` once its trailing white space is removed.
pub fn trailing_end(s: &[char], a: usize) -> (j: usize)
    requires
        a <= s.len(),
    ensures
        a <= j <= s.len(),
        trim_end_s(s@.subrange(a as int, s.len() as int)) == s@.subrange(a as int, j as int),
{
    let mut j = s.len();
    while j > a && is_whitespace(s[j - 1])
        invariant
            a <= j <= s.len(),
            trim_end_s(s@.subrange(a as int, s.len() as int)) == trim_end_s(
                s@.subrange(a as int, j as int),
            ),
        decreases j,
    {
        proof {
            assert(s@.subrange(a as int, j as int).drop_last() =~= s@.subrange(
                a as int,
                j - 1,
            ));
        }
        j -= 1;
    }
    j
}

/// `str::trim`.
pub fn trim(s: &[char]) -> (r: Vec<char>)
    ensures
        r@ == trim_s(s@),
{
    let a = leading_ws(s);
    let b = trailing_end(s, a);
    proof {
        assert(s@.skip(a as int) =~= s@.subrange(a as int, s.len() as int));
    }
    slice_of(s, a, b)
}

/// `str::trim_start`.
pub fn trim_start(s: &[char]) -> (r: Vec<char>)
    ensures
        r@ == trim_start_s(s@),
{
    let a = leading_ws(s);
    proof {
        assert(s@.skip(a as int) =~= s@.subrange(a as int, s.len() as int));
    }
    slice_of(s, a, s.len())
}

/// `str::trim` on a string.
pub fn trim_str(s: &str) -> (r: String)
    ensures
        r@ == trim_s(s@),
{
    let v = chars_of(s);
    let t = trim(v.as_slice());
    string_of(t.as_slice())
}

/// Whether `s` is empty once trimmed: `s.trim().is_empty()`.
pub fn is_blank(s: &str) -> (b: bool)
    ensures
        b == (trim_s(s@).len() == 0),
{
    let t = trim_str(s);
    t.as_str().is_empty()
}

/// `char::to_ascii_lowercase`.
pub open spec fn lower_c(c: char) -> char {
    if 'A' <= c && c <= 'Z' {
        ((c as u32) + 32) as char
    } else {
        c
    }
}

/// `str::to_ascii_lowercase`.
pub open spec fn lower_s(s: Seq<char>) -> Seq<char> {
    s.map_values(|c: char| lower_c(c))
}

/// `char::to_ascii_lowercase`.
pub fn lower_char(c: char) -> (r: char)
    ensures
        r == lower_c(c),
{
    if 'A' <= c && c <= 'Z' {
        let n: u32 = c as u32;
        ((n + 32) as u8) as char
    } else {
        c
    }
}

/// `str::to_ascii_lowercase` over characters.
pub fn lower(s: &[char]) -> (r: Vec<char>)
    ensures
        r@ == lower_s(s@),
{
    let mut r: Vec<char> = Vec::new();
    let mut i: usize = 0;
    while i < s.len()
        invariant
            i <= s.len(),
            r@ == lower_s(s@.take(i as int)),
        decreases s.len() - i,
    {
        r.push(lower_char(s[i]));
        proof {
            assert(lower_s(s@.take(i + 1)) =~= lower_s(s@.take(i as int)).push(
                lower_c(s@[i as int]),
            ));
        }
        i += 1;
    }
    proof {
        assert(s@.take(s.len() as int) =~= s@);
    }
    r
}

/// `p` occurs in `s` at position `i`.
pub open spec fn matches_at(s: Seq<char>, p: Seq<char>, i: int) -> bool {
    0 <= i && i + p.len() <= s.len() && s.subrange(i, i + p.len()) == p
}

/// `str::contains` with a string pattern.
pub open spec fn contains_s(s: Seq<char>, p: Seq<char>) -> bool {
    exists|i: int| matches_at(s, p, i)
}

/// `s` begins with `p`.
pub open spec fn starts_with_s(s: Seq<char>, p: Seq<char>) -> bool {
    p.len() <= s.len() && s.take(p.len() as int) == p
}

/// `s` ends with `p`.
pub open spec fn ends_with_s(s: Seq<char>, p: Seq<char>) -> bool {
    p.len() <= s.len() && s.skip(s.len() - p.len()) == p
}

/// First position at or after `i` where `p` occurs in `s`.
pub open spec fn find_from_s(s: Seq<char>, p: Seq<char>, i: nat) -> Option<int>
    decreases s.len() - i,
{
    if i + p.len() > s.len() {
        None
    } else if p.len() == 0 || s.subrange(i as int, (i + p.len()) as int) == p {
        Some(i as int)
    } else {
        find_from_s(s, p, i + 1)
    }
}

/// `str::find` with a string pattern: the first position of `p` in `s`.
pub open spec fn find_s(s: Seq<char>, p: Seq<char>) -> Option<int> {
    find_from_s(s, p, 0)
}

/// Whether `p` occurs in `s` at `i`.
pub fn matches_here(s: &[char], p: &[char], i: usize) -> (b: bool)
    ensures
        b == matches_at(s@, p@, i as int),
{
    if i > s.len() || p.len() > s.len() - i {
        return false;
    }
    let mut k: usize = 0;
    while k < p.len()
        invariant
            k <= p.len(),
            i + p.len() <= s.len(),
            forall|m: int| 0 <= m < k ==> s@[i + m] == p@[m],
        decreases p.len() - k,
    {
        if s[i + k] != p[k] {
            proof {
                assert(s@.subrange(i as int, i + p.len())[k as int] != p@[k as int]);
            }
            return false;
        }
        k += 1;
    }
    proof {
        assert(s@.subrange(i as int, i + p.len()) =~= p@);
    }
    true
}

/// Facts that tie the first-match model to every position before it.
pub proof fn lemma_find_from(s: Seq<char>, p: Seq<char>, i: nat)
    ensures
        find_from_s(s, p, i) matches Some(j) ==> i <= j && matches_at(s, p, j) && forall|k: int|
            i <= k < j ==> !matches_at(s, p, k),
        find_from_s(s, p, i) is None ==> forall|k: int| i <= k ==> !matches_at(s, p, k),
    decreases s.len() - i,
{
    if i + p.len() > s.len() {
    } else if p.len() == 0 || s.subrange(i as int, (i + p.len()) as int) == p {
        if p.len() == 0 {
            assert(s.subrange(i as int, i as int) =~= p);
        }
    } else {
        lemma_find_from(s, p, i + 1);
    }
}

/// `find_s` is the least position of a match, and absent exactly when there is none.
pub proof fn lemma_find(s: Seq<char>, p: Seq<char>)
    ensures
        find_s(s, p) matches Some(j) ==> matches_at(s, p, j) && forall|k: int|
            0 <= k < j ==> !matches_at(s, p, k),
        find_s(s, p) is None <==> !contains_s(s, p),
{
    lemma_find_from(s, p, 0);
}

/// `str::find`: the first position of `p` in `s`.
pub fn find(s: &[char], p: &[char]) -> (r: Option<usize>)
    ensures
        r matches Some(i) ==> find_s(s@, p@) == Some(i as int),
        r is None ==> find_s(s@, p@) is None,
{
    let mut i: usize = 0;
    while i < s.len()
        invariant
            i <= s.len(),
            find_s(s@, p@) == find_from_s(s@, p@, i as nat),
        decreases s.len() - i,
    {
        if p.len() > s.len() - i {
            return None;
        }
        if matches_here(s, p, i) {
            return Some(i);
        }
        proof {
            if p.len() == 0 {
                assert(s@.subrange(i as int, i as int) =~= p@);
            }
        }
        i += 1;
    }
    if p.len() == 0 {
        Some(i)
    } else {
        None
    }
}

/// `str::contains`.
pub fn contains(s: &[char], p: &[char]) -> (b: bool)
    ensures
        b == contains_s(s@, p@),
{
    proof {
        lemma_find(s@, p@);
    }
    find(s, p).is_some()
}

/// `str::starts_with`.
pub fn starts_with(s: &[char], p: &[char]) -> (b: bool)
    ensures
        b == starts_with_s(s@, p@),
{
    let b = matches_here(s, p, 0);
    proof {
        if p.len() <= s.len() {
            assert(s@.subrange(0, p.len() as int) =~= s@.take(p.len() as int));
        }
    }
    b
}

/// `str::ends_with`.
pub fn ends_with(s: &[char], p: &[char]) -> (b: bool)
    ensures
        b == ends_with_s(s@, p@),
{
    if p.len() > s.len() {
        return false;
    }
    let b = matches_here(s, p, s.len() - p.len());
    proof {
        assert(s@.subrange(s.len() - p.len(), s.len() as int) =~= s@.skip(s.len() - p.len()));
    }
    b
}

/// `str::starts_with` on strings.
pub fn str_starts_with(s: &str, p: &str) -> (b: bool)
    ensures
        b == starts_with_s(s@, p@),
{
    let a = chars_of(s);
    let b = chars_of(p);
    starts_with(a.as_slice(), b.as_slice())
}

/// Decimal digits of `n`, as `u64`'s `Display` writes them.
pub open spec fn dec_s(n: nat) -> Seq<char>
    decreases n,
{
    if n < 10 {
        seq![digit_c(n)]
    } else {
        dec_s(n / 10).push(digit_c(n % 10))
    }
}

/// The decimal digit for `d < 10`.
pub open spec fn digit_c(d: nat) -> char {
    ((d + 48) as u32) as char
}

/// `u64::to_string`.
pub fn dec(n: u64) -> (s: String)
    ensures
        s@ == dec_s(n as nat),
    decreases n,
{
    if n < 10 {
        let mut s = String::new();
        push_char(&mut s, ((n as u8) + 48) as char);
        proof {
            assert(s@ =~= seq![digit_c(n as nat)]);
        }
        s
    } else {
        let mut s = dec(n / 10);
        push_char(&mut s, (((n % 10) as u8) + 48) as char);
        s
    }
}

/// Lexicographic order of character sequences by code point, the order in
/// which `String`'s `Ord` (and so a `BTreeMap` keyed by `String`) ranks keys.
pub open spec fn lt_s(a: Seq<char>, b: Seq<char>) -> bool
    decreases a.len(),
{
    if b.len() == 0 {
        false
    } else if a.len() == 0 {
        true
    } else if a[0] != b[0] {
        (a[0] as u32) < (b[0] as u32)
    } else {
        lt_s(a.drop_first(), b.drop_first())
    }
}

/// `lt_s` is irreflexive.
pub proof fn lemma_lt_irrefl(a: Seq<char>)
    ensures
        !lt_s(a, a),
    decreases a.len(),
{
    if a.len() > 0 {
        lemma_lt_irrefl(a.drop_first());
    }
}

/// `lt_s` is asymmetric.
pub proof fn lemma_lt_asym(a: Seq<char>, b: Seq<char>)
    ensures
        lt_s(a, b) ==> !lt_s(b, a),
    decreases a.len(),
{
    if a.len() > 0 && b.len() > 0 && a[0] == b[0] {
        lemma_lt_asym(a.drop_first(), b.drop_first());
    }
}

/// `lt_s` is transitive.
pub proof fn lemma_lt_trans(a: Seq<char>, b: Seq<char>, c: Seq<char>)
    requires
        lt_s(a, b),
        lt_s(b, c),
    ensures
        lt_s(a, c),
    decreases a.len(),
{
    if a.len() > 0 && b.len() > 0 && c.len() > 0 && a[0] == b[0] && b[0] == c[0] {
        lemma_lt_trans(a.drop_first(), b.drop_first(), c.drop_first());
    }
}

/// Distinct characters have distinct code points.
pub proof fn lemma_char_code(c: char, d: char)
    ensures
        c != d ==> (c as u32) != (d as u32),
{
}

/// Two different sequences are ordered one way or the other.
pub proof fn lemma_lt_total(a: Seq<char>, b: Seq<char>)
    ensures
        a == b || lt_s(a, b) || lt_s(b, a),
    decreases a.len(),
{
    if a.len() > 0 && b.len() > 0 && a[0] == b[0] {
        lemma_lt_total(a.drop_first(), b.drop_first());
        if a.drop_first() == b.drop_first() {
            assert(a =~= seq![a[0]] + a.drop_first());
            assert(b =~= seq![b[0]] + b.drop_first());
        }
    } else if a.len() == 0 && b.len() == 0 {
        assert(a =~= b);
    } else if a.len() > 0 && b.len() > 0 {
        lemma_char_code(a[0], b[0]);
    }
}

/// Whether `a` comes strictly before `b` in `lt_s` order.
pub fn precedes(a: &[char], b: &[char]) -> (r: bool)
    ensures
        r == lt_s(a@, b@),
{
    let mut i: usize = 0;
    proof {
        assert(a@.skip(0) =~= a@);
        assert(b@.skip(0) =~= b@);
    }
    while i < a.len() && i < b.len() && a[i] == b[i]
        invariant
            i <= a.len(),
            i <= b.len(),
            lt_s(a@, b@) == lt_s(a@.skip(i as int), b@.skip(i as int)),
        decreases a.len() - i,
    {
        proof {
            assert(a@.skip(i as int).drop_first() =~= a@.skip(i + 1));
            assert(b@.skip(i as int).drop_first() =~= b@.skip(i + 1));
        }
        i += 1;
    }
    if i == b.len() {
        false
    } else if i == a.len() {
        true
    } else {
        let x: u32 = a[i] as u32;
        let y: u32 = b[i] as u32;
        proof {
            assert(a@.skip(i as int)[0] == a@[i as int]);
            assert(b@.skip(i as int)[0] == b@[i as int]);
        }
        x < y
    }
}

/// `precedes` on strings.
pub fn str_precedes(a: &str, b: &str) -> (r: bool)
    ensures
        r == lt_s(a@, b@),
{
    let x = chars_of(a);
    let y = chars_of(b);
    precedes(x.as_slice(), y.as_slice())
}

/// What `format!("{:?}", s)` writes for a string slice `s`: the text quoted,
/// with `str`'s `Debug` escapes.
pub uninterp spec fn debug_text(s: Seq<char>) -> Seq<char>;

/// `<str as Debug>::fmt`, through `format!`. Its result is named, not spelled
/// out: the escape rules of `str::escape_debug` are left to std.
#[verifier::external_body]
pub(crate) fn debug_str(s: &str) -> (r: String)
    ensures
        r@ == debug_text(s@),
{
    format!("{s:?}")
}

/// Characters of each string.
pub open spec fn strs(v: Seq<String>) -> Seq<Seq<char>> {
    v.map_values(|s: String| s@)
}

/// Characters of an optional string.
pub open spec fn ostr(o: Option<String>) -> Option<Seq<char>> {
    match o {
        Some(s) => Some(s@),
        None => None,
    }
}

/// A copy of a list of strings.
pub fn dup_strs(v: &Vec<String>) -> (r: Vec<String>)
    ensures
        r@ == v@,
{
    let mut r: Vec<String> = Vec::new();
    let mut i: usize = 0;
    while i < v.len()
        invariant
            i <= v.len(),
            r@ == v@.take(i as int),
        decreases v.len() - i,
    {
        r.push(v[i].clone());
        proof {
            assert(v@.take(i + 1) =~= v@.take(i as int).push(v@[i as int]));
        }
        i += 1;
    }
    proof {
        assert(v@.take(v.len() as int) =~= v@);
    }
    r
}

/// A copy of an optional string.
pub fn dup_opt(o: &Option<String>) -> (r: Option<String>)
    ensures
        r == *o,
{
    match o {
        Some(s) => Some(s.clone()),
        None => None,
    }
}

/// Decimal text of a signed integer, as `i64`'s `Display` writes it.
pub open spec fn idec_s(n: int) -> Seq<char> {
    if n < 0 {
        seq!['-'] + dec_s((-n) as nat)
    } else {
        dec_s(n as nat)
    }
}

/// `i64::to_string`.
pub fn idec(n: i64) -> (s: String)
    ensures
        s@ == idec_s(n as int),
{
    if n < 0 {
        let m: u64 = if n == i64::MIN {
            9223372036854775808u64
        } else {
            (-n) as u64
        };
        let mut s = String::new();
        push_char(&mut s, '-');
        let d = dec(m);
        push_str(&mut s, d.as_str());
        proof {
            assert(seq!['-'] =~= Seq::<char>::empty().push('-'));
        }
        s
    } else {
        dec(n as u64)
    }
}

/// The pieces joined with `sep` between them, as `[String]::join` does it.
pub open spec fn join_s(parts: Seq<Seq<char>>, sep: Seq<char>) -> Seq<char>
    decreases parts.len(),
{
    if parts.len() == 0 {
        Seq::empty()
    } else if parts.len() == 1 {
        parts[0]
    } else {
        join_s(parts.drop_last(), sep) + sep + parts.last()
    }
}

/// `[String]::join`.
pub fn join(parts: &Vec<String>, sep: &str) -> (r: String)
    ensures
        r@ == join_s(strs(parts@), sep@),
{
    let mut r = String::new();
    let mut i: usize = 0;
    while i < parts.len()
        invariant
            i <= parts@.len(),
            r@ == join_s(strs(parts@).take(i as int), sep@),
        decreases parts@.len() - i,
    {
        proof {
            assert(strs(parts@).take(i + 1).drop_last() =~= strs(parts@).take(i as int));
            assert(strs(parts@).take(i + 1).last() == parts@[i as int]@);
        }
        if i > 0 {
            push_str(&mut r, sep);
        } else {
            proof {
                assert(strs(parts@).take(1) =~= seq![parts@[0]@]);
            }
        }
        push_str(&mut r, parts[i].as_str());
        i += 1;
    }
    proof {
        assert(strs(parts@).take(parts@.len() as int) =~= strs(parts@));
    }
    r
}

} // verus!
