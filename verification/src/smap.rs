//! `StrMap`: a map keyed by strings that keeps its entries in key order, as
//! a `BTreeMap<String, V>` does. vstd's contracts for `BTreeMap` hold only
//! for keys whose `Ord` it models, which `String` is not (with a `String`
//! key, not even the length after one `insert` follows), so the map is kept
//! here as a vector sorted by key, with that order as its invariant.
use vstd::prelude::*;
use crate::text::{
    chars_of, lemma_lt_asym, lemma_lt_irrefl, lemma_lt_total, lemma_lt_trans, lt_s, same,
    str_precedes,
};

verus! {

/// The keys of `s` strictly increase.
pub open spec fn keys_increasing<V>(s: Seq<(String, V)>) -> bool {
    forall|i: int, j: int| 0 <= i < j < s.len() ==> lt_s(#[trigger] s[i].0@, #[trigger] s[j].0@)
}

/// The value that `s` holds for key `k`: that of the first entry with key `k`.
pub open spec fn get_s<V>(s: Seq<(String, V)>, k: Seq<char>) -> Option<V>
    decreases s.len(),
{
    if s.len() == 0 {
        None
    } else if s[0].0@ == k {
        Some(s[0].1)
    } else {
        get_s(s.drop_first(), k)
    }
}

/// Some entry of `s` has key `k`.
pub open spec fn has_key<V>(s: Seq<(String, V)>, k: Seq<char>) -> bool {
    exists|i: int| 0 <= i < s.len() && #[trigger] s[i].0@ == k
}

/// The map that `s` stands for.
pub open spec fn map_of<V>(s: Seq<(String, V)>) -> Map<Seq<char>, V> {
    Map::new(|k: Seq<char>| get_s(s, k) is Some, |k: Seq<char>| get_s(s, k)->0)
}

/// In a sequence with increasing keys, each entry is what its key looks up.
pub proof fn lemma_get_at<V>(s: Seq<(String, V)>, i: int)
    requires
        keys_increasing(s),
        0 <= i < s.len(),
    ensures
        get_s(s, s[i].0@) == Some(s[i].1),
    decreases s.len(),
{
    if i > 0 {
        assert(lt_s(s[0].0@, s[i].0@));
        lemma_lt_irrefl(s[i].0@);
        assert(s.drop_first()[i - 1] == s[i]);
        lemma_get_at(s.drop_first(), i - 1);
    }
}

/// A key that no entry holds looks up nothing.
pub proof fn lemma_get_absent<V>(s: Seq<(String, V)>, k: Seq<char>)
    requires
        !has_key(s, k),
    ensures
        get_s(s, k) is None,
    decreases s.len(),
{
    if s.len() > 0 {
        assert(s[0].0@ != k);
        assert forall|i: int| 0 <= i < s.drop_first().len() implies #[trigger] s.drop_first()[i].0@
            != k by {
            assert(s.drop_first()[i] == s[i + 1]);
        }
        lemma_get_absent(s.drop_first(), k);
    }
}

/// A lookup that finds something finds the value of an entry with that key.
pub proof fn lemma_get_found<V>(s: Seq<(String, V)>, k: Seq<char>)
    requires
        get_s(s, k) is Some,
    ensures
        exists|i: int| 0 <= i < s.len() && s[i].0@ == k && s[i].1 == get_s(s, k)->0,
    decreases s.len(),
{
    if s[0].0@ != k {
        lemma_get_found(s.drop_first(), k);
        let i = choose|i: int|
            0 <= i < s.drop_first().len() && s.drop_first()[i].0@ == k && s.drop_first()[i].1
                == get_s(s.drop_first(), k)->0;
        assert(s[i + 1] == s.drop_first()[i]);
    }
}

/// `s` after `BTreeMap::insert(k, v)`: the value of an equal key is replaced,
/// otherwise the entry goes before the first greater key.
pub open spec fn insert_s<V>(s: Seq<(String, V)>, k: String, v: V) -> Seq<(String, V)>
    decreases s.len(),
{
    if s.len() == 0 {
        seq![(k, v)]
    } else if s[0].0@ == k@ {
        seq![(k, v)] + s.drop_first()
    } else if lt_s(k@, s[0].0@) {
        seq![(k, v)] + s
    } else {
        seq![s[0]] + insert_s(s.drop_first(), k, v)
    }
}

/// `insert_s` in terms of the slot where the key belongs.
pub proof fn lemma_insert_shape<V>(s: Seq<(String, V)>, k: String, v: V, p: int)
    requires
        keys_increasing(s),
        0 <= p <= s.len(),
        forall|j: int| 0 <= j < p ==> lt_s(#[trigger] s[j].0@, k@),
        p < s.len() ==> !lt_s(s[p].0@, k@),
    ensures
        insert_s(s, k, v) == if p < s.len() && s[p].0@ == k@ {
            s.update(p, (k, v))
        } else {
            s.insert(p, (k, v))
        },
    decreases s.len(),
{
    if s.len() == 0 {
        assert(seq![(k, v)] =~= s.insert(0, (k, v)));
    } else if p == 0 {
        if s[0].0@ == k@ {
            assert(seq![(k, v)] + s.drop_first() =~= s.update(0, (k, v)));
        } else {
            lemma_lt_total(s[0].0@, k@);
            assert(seq![(k, v)] + s =~= s.insert(0, (k, v)));
        }
    } else {
        lemma_lt_irrefl(k@);
        lemma_lt_asym(s[0].0@, k@);
        let t = s.drop_first();
        assert forall|i: int, j: int| 0 <= i < j < t.len() implies lt_s(
            #[trigger] t[i].0@,
            #[trigger] t[j].0@,
        ) by {
            assert(t[i] == s[i + 1] && t[j] == s[j + 1]);
        }
        assert forall|j: int| 0 <= j < p - 1 implies lt_s(#[trigger] t[j].0@, k@) by {
            assert(t[j] == s[j + 1]);
        }
        if p - 1 < t.len() {
            assert(t[p - 1] == s[p]);
        }
        lemma_insert_shape(t, k, v, p - 1);
        if p < s.len() && s[p].0@ == k@ {
            assert(seq![s[0]] + t.update(p - 1, (k, v)) =~= s.update(p, (k, v)));
        } else {
            assert(seq![s[0]] + t.insert(p - 1, (k, v)) =~= s.insert(p, (k, v)));
        }
    }
}

/// A map from strings to `V` whose entries stay in increasing key order.
pub struct StrMap<V> {
    entries: Vec<(String, V)>,
}

impl<V> StrMap<V> {
    /// The entries, in key order.
    pub closed spec fn entries(self) -> Seq<(String, V)> {
        self.entries@
    }

    /// The map these entries stand for.
    pub open spec fn view(self) -> Map<Seq<char>, V> {
        map_of(self.entries())
    }

    /// The type invariant: keys increase along the entries.
    #[verifier::type_invariant]
    pub closed spec fn inv(self) -> bool {
        keys_increasing(self.entries@)
    }

    /// What the invariant says.
    pub proof fn lemma_inv(self)
        requires
            self.inv(),
        ensures
            keys_increasing(self.entries()),
    {
    }

    /// An empty map.
    pub fn new() -> (m: Self)
        ensures
            m.entries() == Seq::<(String, V)>::empty(),
    {
        StrMap { entries: Vec::new() }
    }

    /// Number of entries.
    pub fn len(&self) -> (n: usize)
        ensures
            n == self.entries().len(),
    {
        self.entries.len()
    }

    /// Key of the entry at position `i`.
    pub fn key_at(&self, i: usize) -> (k: &String)
        requires
            i < self.entries().len(),
        ensures
            *k == self.entries()[i as int].0,
    {
        &self.entries[i].0
    }

    /// Value of the entry at position `i`.
    pub fn value_at(&self, i: usize) -> (v: &V)
        requires
            i < self.entries().len(),
        ensures
            *v == self.entries()[i as int].1,
    {
        &self.entries[i].1
    }

    /// Position of the entry with key `k`.
    pub fn index_of(&self, k: &str) -> (r: Option<usize>)
        ensures
            r matches Some(i) ==> i < self.entries().len() && self.entries()[i as int].0@ == k@,
            r is None ==> !has_key(self.entries(), k@),
    {
        let kc = chars_of(k);
        let mut i: usize = 0;
        while i < self.entries.len()
            invariant
                i <= self.entries@.len(),
                kc@ == k@,
                forall|j: int| 0 <= j < i ==> #[trigger] self.entries@[j].0@ != k@,
            decreases self.entries@.len() - i,
        {
            let ec = chars_of(self.entries[i].0.as_str());
            if same(ec.as_slice(), kc.as_slice()) {
                return Some(i);
            }
            i += 1;
        }
        None
    }

    /// `BTreeMap::get`.
    pub fn get(&self, k: &str) -> (r: Option<&V>)
        ensures
            r matches Some(v) ==> get_s(self.entries(), k@) == Some(*v),
            r is None ==> get_s(self.entries(), k@) is None,
    {
        proof {
            use_type_invariant(self);
        }
        match self.index_of(k) {
            Some(i) => {
                proof {
                    lemma_get_at(self.entries@, i as int);
                }
                Some(&self.entries[i].1)
            },
            None => {
                proof {
                    lemma_get_absent(self.entries@, k@);
                }
                None
            },
        }
    }

    /// `BTreeMap::contains_key`.
    pub fn contains_key(&self, k: &str) -> (b: bool)
        ensures
            b == (get_s(self.entries(), k@) is Some),
    {
        self.get(k).is_some()
    }

    /// Position at which key `k` belongs: the first entry whose key is not
    /// below `k`.
    fn slot(&self, k: &str) -> (p: usize)
        ensures
            p <= self.entries().len(),
            forall|j: int| 0 <= j < p ==> lt_s(#[trigger] self.entries()[j].0@, k@),
            p < self.entries().len() ==> !lt_s(self.entries()[p as int].0@, k@),
    {
        let mut p: usize = 0;
        while p < self.entries.len() && str_precedes(self.entries[p].0.as_str(), k)
            invariant
                p <= self.entries@.len(),
                forall|j: int| 0 <= j < p ==> lt_s(#[trigger] self.entries@[j].0@, k@),
            decreases self.entries@.len() - p,
        {
            p += 1;
        }
        p
    }

    /// `BTreeMap::insert`: sets the value of key `k` to `v`, keeping key order.
    pub fn insert(&mut self, k: String, v: V)
        ensures
            final(self)@ == old(self)@.insert(k@, v),
            final(self).entries() == insert_s(old(self).entries(), k, v),
            get_s(old(self).entries(), k@) is Some ==> final(self).entries().len() == old(
                self,
            ).entries().len(),
            get_s(old(self).entries(), k@) is None ==> final(self).entries().len() == old(
                self,
            ).entries().len() + 1,
    {
        proof {
            use_type_invariant(&*self);
        }
        let ghost old_s = self.entries@;
        let p = self.slot(k.as_str());
        proof {
            lemma_insert_shape(old_s, k, v, p as int);
        }
        let mut e: Vec<(String, V)> = Vec::new();
        std::mem::swap(&mut e, &mut self.entries);
        let mut found = false;
        if p < e.len() {
            let kc = chars_of(k.as_str());
            let ec = chars_of(e[p].0.as_str());
            found = same(ec.as_slice(), kc.as_slice());
        }
        if found {
            let ghost new_s = old_s.update(p as int, (k, v));
            e.set(p, (k, v));
            proof {
                assert(e@ == new_s);
                assert forall|i: int, j: int| 0 <= i < j < new_s.len() implies lt_s(
                    #[trigger] new_s[i].0@,
                    #[trigger] new_s[j].0@,
                ) by {
                    assert(old_s[p as int].0@ == new_s[p as int].0@);
                }
                assert forall|key: Seq<char>| #[trigger]
                    map_of(new_s).dom().contains(key) == map_of(old_s).insert(
                        k@,
                        v,
                    ).dom().contains(key) && (map_of(new_s).dom().contains(key) ==> map_of(
                        new_s,
                    )[key] == map_of(old_s).insert(k@, v)[key]) by {
                    Self::lemma_lookup_update(old_s, new_s, p as int, key);
                }
                assert(map_of(new_s) =~= map_of(old_s).insert(k@, v));
                lemma_get_at(old_s, p as int);
            }
        } else {
            let ghost new_s = old_s.insert(p as int, (k, v));
            e.insert(p, (k, v));
            proof {
                assert(e@ == new_s);
                if p < old_s.len() {
                    lemma_lt_total(old_s[p as int].0@, k@);
                }
                assert forall|i: int, j: int| 0 <= i < j < new_s.len() implies lt_s(
                    #[trigger] new_s[i].0@,
                    #[trigger] new_s[j].0@,
                ) by {
                    if i < p && j == p {
                    } else if i < p && j > p {
                        assert(new_s[j] == old_s[j - 1]);
                        if p < old_s.len() {
                            lemma_lt_trans(old_s[i].0@, k@, old_s[p as int].0@);
                            if j - 1 > p {
                                lemma_lt_trans(old_s[i].0@, old_s[p as int].0@, old_s[j - 1].0@);
                            }
                        }
                    } else if i == p {
                        assert(new_s[j] == old_s[j - 1]);
                        if j - 1 > p {
                            lemma_lt_trans(k@, old_s[p as int].0@, old_s[j - 1].0@);
                        }
                    } else if j < p {
                        assert(new_s[i] == old_s[i]);
                        assert(new_s[j] == old_s[j]);
                    } else {
                        assert(new_s[i] == old_s[i - 1]);
                        assert(new_s[j] == old_s[j - 1]);
                    }
                }
                assert(!has_key(old_s, k@)) by {
                    if has_key(old_s, k@) {
                        let i = choose|i: int| 0 <= i < old_s.len() && #[trigger] old_s[i].0@ == k@;
                        lemma_lt_irrefl(k@);
                        if i > p {
                            lemma_lt_trans(old_s[p as int].0@, old_s[i].0@, k@);
                            lemma_lt_asym(old_s[p as int].0@, k@);
                        }
                    }
                }
                lemma_get_absent(old_s, k@);
                assert forall|key: Seq<char>| #[trigger]
                    map_of(new_s).dom().contains(key) == map_of(old_s).insert(
                        k@,
                        v,
                    ).dom().contains(key) && (map_of(new_s).dom().contains(key) ==> map_of(
                        new_s,
                    )[key] == map_of(old_s).insert(k@, v)[key]) by {
                    Self::lemma_lookup_insert(old_s, new_s, p as int, key);
                }
                assert(map_of(new_s) =~= map_of(old_s).insert(k@, v));
            }
        }
        self.entries = e;
    }

    /// `BTreeMap::remove`: takes out the entry with key `k`.
    pub fn remove(&mut self, k: &str) -> (r: Option<V>)
        ensures
            match r {
                Some(v) => exists|i: int|
                    0 <= i < old(self).entries().len() && old(self).entries()[i].0@ == k@ && old(
                        self,
                    ).entries()[i].1 == v && final(self).entries() == old(self).entries().remove(i),
                None => !has_key(old(self).entries(), k@) && final(self).entries() == old(
                    self,
                ).entries(),
            },
            final(self)@ == old(self)@.remove(k@),
            r matches Some(v) ==> old(self)@.dom().contains(k@) && old(self)@[k@] == v,
            r is None ==> !old(self)@.dom().contains(k@),
    {
        proof {
            use_type_invariant(&*self);
        }
        match self.index_of(k) {
            Some(i) => {
                let ghost old_s = self.entries@;
                let mut e: Vec<(String, V)> = Vec::new();
                std::mem::swap(&mut e, &mut self.entries);
                let (_key, v) = e.remove(i);
                proof {
                    assert forall|a: int, b: int| 0 <= a < b < e@.len() implies lt_s(
                        #[trigger] e@[a].0@,
                        #[trigger] e@[b].0@,
                    ) by {
                        let a0 = if a < i { a } else { a + 1 };
                        let b0 = if b < i { b } else { b + 1 };
                        assert(e@[a] == old_s[a0]);
                        assert(e@[b] == old_s[b0]);
                    }
                }
                proof {
                    lemma_map_remove(old_s, i as int);
                    lemma_get_at(old_s, i as int);
                }
                self.entries = e;
                Some(v)
            },
            None => {
                proof {
                    lemma_get_absent(self.entries@, k@);
                    assert(self@ =~= self@.remove(k@));
                }
                None
            },
        }
    }

    proof fn lemma_lookup_update(old_s: Seq<(String, V)>, new_s: Seq<(String, V)>, p: int, key: Seq<char>)
        requires
            keys_increasing(old_s),
            keys_increasing(new_s),
            0 <= p < old_s.len(),
            new_s.len() == old_s.len(),
            forall|i: int| 0 <= i < old_s.len() && i != p ==> #[trigger] new_s[i] == old_s[i],
            new_s[p].0@ == old_s[p].0@,
        ensures
            get_s(new_s, key) == if key == new_s[p].0@ {
                Some(new_s[p].1)
            } else {
                get_s(old_s, key)
            },
    {
        if key == new_s[p].0@ {
            lemma_get_at(new_s, p);
        } else if has_key(old_s, key) {
            let i = choose|i: int| 0 <= i < old_s.len() && #[trigger] old_s[i].0@ == key;
            lemma_get_at(old_s, i);
            lemma_get_at(new_s, i);
        } else {
            lemma_get_absent(old_s, key);
            assert(!has_key(new_s, key)) by {
                if has_key(new_s, key) {
                    let i = choose|i: int| 0 <= i < new_s.len() && #[trigger] new_s[i].0@ == key;
                    assert(old_s[i].0@ == key);
                }
            }
            lemma_get_absent(new_s, key);
        }
    }

    proof fn lemma_lookup_insert(old_s: Seq<(String, V)>, new_s: Seq<(String, V)>, p: int, key: Seq<char>)
        requires
            keys_increasing(old_s),
            keys_increasing(new_s),
            0 <= p <= old_s.len(),
            new_s == old_s.insert(p, new_s[p]),
        ensures
            get_s(new_s, key) == if key == new_s[p].0@ {
                Some(new_s[p].1)
            } else {
                get_s(old_s, key)
            },
    {
        if key == new_s[p].0@ {
            lemma_get_at(new_s, p);
        } else if has_key(old_s, key) {
            let i = choose|i: int| 0 <= i < old_s.len() && #[trigger] old_s[i].0@ == key;
            lemma_get_at(old_s, i);
            if i < p {
                assert(new_s[i] == old_s[i]);
                lemma_get_at(new_s, i);
            } else {
                assert(new_s[i + 1] == old_s[i]);
                lemma_get_at(new_s, i + 1);
            }
        } else {
            lemma_get_absent(old_s, key);
            assert(!has_key(new_s, key)) by {
                if has_key(new_s, key) {
                    let i = choose|i: int| 0 <= i < new_s.len() && #[trigger] new_s[i].0@ == key;
                    if i < p {
                        assert(old_s[i].0@ == key);
                    } else if i > p {
                        assert(old_s[i - 1].0@ == key);
                    }
                }
            }
            lemma_get_absent(new_s, key);
        }
    }
}

/// Taking out the entry at `i` takes its key out of the map.
pub proof fn lemma_map_remove<V>(s: Seq<(String, V)>, i: int)
    requires
        keys_increasing(s),
        0 <= i < s.len(),
    ensures
        map_of(s.remove(i)) == map_of(s).remove(s[i].0@),
{
    let t = s.remove(i);
    let k = s[i].0@;
    assert forall|a: int, b: int| 0 <= a < b < t.len() implies lt_s(
        #[trigger] t[a].0@,
        #[trigger] t[b].0@,
    ) by {
        let a0 = if a < i { a } else { a + 1 };
        let b0 = if b < i { b } else { b + 1 };
        assert(t[a] == s[a0]);
        assert(t[b] == s[b0]);
    }
    assert forall|n: Seq<char>| #[trigger] get_s(t, n) == if n == k {
        None
    } else {
        get_s(s, n)
    } by {
        if has_key(t, n) {
            let j = choose|j: int| 0 <= j < t.len() && #[trigger] t[j].0@ == n;
            let j0 = if j < i { j } else { j + 1 };
            assert(t[j] == s[j0]);
            lemma_get_at(t, j);
            lemma_get_at(s, j0);
            if n == k {
                lemma_lt_irrefl(k);
                if j0 < i {
                    assert(lt_s(s[j0].0@, s[i].0@));
                } else {
                    assert(lt_s(s[i].0@, s[j0].0@));
                }
            }
        } else {
            lemma_get_absent(t, n);
            if n != k && has_key(s, n) {
                let j = choose|j: int| 0 <= j < s.len() && #[trigger] s[j].0@ == n;
                if j < i {
                    assert(t[j] == s[j]);
                } else {
                    assert(t[j - 1] == s[j]);
                }
            }
            if n != k && !has_key(s, n) {
                lemma_get_absent(s, n);
            }
        }
    }
    assert(map_of(t) =~= map_of(s).remove(k));
}

/// Inserting a key above every present key appends it.
pub proof fn lemma_insert_last<V>(s: Seq<(String, V)>, k: String, v: V)
    requires
        keys_increasing(s),
        forall|j: int| 0 <= j < s.len() ==> lt_s(#[trigger] s[j].0@, k@),
    ensures
        insert_s(s, k, v) == s.push((k, v)),
{
    lemma_insert_shape(s, k, v, s.len() as int);
    assert(s.insert(s.len() as int, (k, v)) =~= s.push((k, v)));
}

impl StrMap<String> {
    /// A copy with the same entries.
    pub fn dup(&self) -> (r: Self)
        ensures
            r.entries() == self.entries(),
    {
        proof {
            use_type_invariant(self);
        }
        let mut e: Vec<(String, String)> = Vec::new();
        let mut i: usize = 0;
        while i < self.entries.len()
            invariant
                i <= self.entries@.len(),
                e@ == self.entries@.take(i as int),
            decreases self.entries@.len() - i,
        {
            let k = self.entries[i].0.clone();
            let v = self.entries[i].1.clone();
            e.push((k, v));
            proof {
                assert(self.entries@.take(i + 1) =~= self.entries@.take(i as int).push(
                    self.entries@[i as int],
                ));
            }
            i += 1;
        }
        proof {
            assert(self.entries@.take(self.entries@.len() as int) =~= self.entries@);
        }
        StrMap { entries: e }
    }
}

impl StrMap<bool> {
    /// A copy with the same entries.
    pub fn dup(&self) -> (r: Self)
        ensures
            r.entries() == self.entries(),
    {
        proof {
            use_type_invariant(self);
        }
        let mut e: Vec<(String, bool)> = Vec::new();
        let mut i: usize = 0;
        while i < self.entries.len()
            invariant
                i <= self.entries@.len(),
                e@ == self.entries@.take(i as int),
            decreases self.entries@.len() - i,
        {
            let k = self.entries[i].0.clone();
            let v = self.entries[i].1;
            e.push((k, v));
            proof {
                assert(self.entries@.take(i + 1) =~= self.entries@.take(i as int).push(
                    self.entries@[i as int],
                ));
            }
            i += 1;
        }
        proof {
            assert(self.entries@.take(self.entries@.len() as int) =~= self.entries@);
        }
        StrMap { entries: e }
    }
}

} // verus!
