//! Structured configuration documents (JSON, YAML and TOML) as plain values,
//! and the edits and reads the library makes on them.
use vstd::prelude::*;
use crate::error::{HkError, HkErrorV};
use crate::paths::{lemma_split_len, split, split_s};
use crate::text::{chars_of, push_char, push_str, same, strs};

verus! {

/// A configuration value. Maps keep their entries in order and hold each key
/// once; JSON and TOML keys are always strings.
pub enum Doc {
    Null,
    Bool(bool),
    Int(i64),
    /// A number that is not an `i64`, by the text the parser gave for it.
    Num(String),
    Str(String),
    /// A TOML date or time, by its text.
    Datetime(String),
    List(Vec<Doc>),
    Table(Vec<(Doc, Doc)>),
}

/// The value a document stands for.
pub enum DocV {
    Null,
    Bool(bool),
    Int(int),
    Num(Seq<char>),
    Str(Seq<char>),
    Datetime(Seq<char>),
    List(Seq<DocV>),
    Table(Seq<(DocV, DocV)>),
}

/// The value of `d`.
pub open spec fn dv(d: Doc) -> DocV
    decreases d,
{
    match d {
        Doc::Null => DocV::Null,
        Doc::Bool(b) => DocV::Bool(b),
        Doc::Int(i) => DocV::Int(i as int),
        Doc::Num(t) => DocV::Num(t@),
        Doc::Str(s) => DocV::Str(s@),
        Doc::Datetime(t) => DocV::Datetime(t@),
        Doc::List(v) => DocV::List(
            Seq::new(
                v@.len(),
                |i: int|
                    if 0 <= i < v@.len() {
                        dv(v@[i])
                    } else {
                        DocV::Null
                    },
            ),
        ),
        Doc::Table(v) => DocV::Table(
            Seq::new(
                v@.len(),
                |i: int|
                    if 0 <= i < v@.len() {
                        (dv(v@[i].0), dv(v@[i].1))
                    } else {
                        (DocV::Null, DocV::Null)
                    },
            ),
        ),
    }
}

/// The values of a list of documents.
pub open spec fn dvs(v: Seq<Doc>) -> Seq<DocV> {
    Seq::new(v.len(), |i: int| dv(v[i]))
}

/// The values of the entries of a map.
pub open spec fn dvm(v: Seq<(Doc, Doc)>) -> Seq<(DocV, DocV)> {
    Seq::new(v.len(), |i: int| (dv(v[i].0), dv(v[i].1)))
}

/// The value of a list is the list of the values of its items.
pub proof fn lemma_dv_list(v: Vec<Doc>)
    ensures
        dv(Doc::List(v)) == DocV::List(dvs(v@)),
{
    if let DocV::List(s) = dv(Doc::List(v)) {
        assert(s =~= dvs(v@));
    }
}

/// The value of a table is the sequence of the values of its entries.
pub proof fn lemma_dv_table(v: Vec<(Doc, Doc)>)
    ensures
        dv(Doc::Table(v)) == DocV::Table(dvm(v@)),
{
    if let DocV::Table(s) = dv(Doc::Table(v)) {
        assert(s =~= dvm(v@));
    }
}

/// The index of the first entry whose key is the string `k`.
pub open spec fn find_key(es: Seq<(DocV, DocV)>, k: Seq<char>) -> Option<int>
    decreases es.len(),
{
    if es.len() == 0 {
        None
    } else if es.last().0 == DocV::Str(k) {
        match find_key(es.drop_last(), k) {
            Some(i) => Some(i),
            None => Some(es.len() - 1),
        }
    } else {
        find_key(es.drop_last(), k)
    }
}

/// `find_key` gives an entry with that key, and no earlier one has it.
pub proof fn lemma_find_key(es: Seq<(DocV, DocV)>, k: Seq<char>)
    ensures
        match find_key(es, k) {
            Some(i) => 0 <= i < es.len() && es[i].0 == DocV::Str(k) && forall|j: int|
                0 <= j < i ==> #[trigger] es[j].0 != DocV::Str(k),
            None => forall|j: int| 0 <= j < es.len() ==> #[trigger] es[j].0 != DocV::Str(k),
        },
    decreases es.len(),
{
    if es.len() > 0 {
        lemma_find_key(es.drop_last(), k);
        assert forall|j: int| 0 <= j < es.len() - 1 implies #[trigger] es[j] == es.drop_last()[j] by {}
    }
}

/// What the string key `k` maps to in `d`, if `d` is a map that has it.
pub open spec fn get_v(d: DocV, k: Seq<char>) -> Option<DocV> {
    match d {
        DocV::Table(es) => match find_key(es, k) {
            Some(i) => Some(es[i].1),
            None => None,
        },
        _ => None,
    }
}

/// `es` with string key `k` set to `v`: in place where the key is, else at the end.
pub open spec fn map_insert_s(es: Seq<(DocV, DocV)>, k: Seq<char>, v: DocV) -> Seq<(DocV, DocV)> {
    match find_key(es, k) {
        Some(i) => es.update(i, (DocV::Str(k), v)),
        None => es.push((DocV::Str(k), v)),
    }
}

/// Whether `k` is the string `name`.
pub fn key_is(k: &Doc, name: &str) -> (b: bool)
    ensures
        b == (dv(*k) == DocV::Str(name@)),
{
    match k {
        Doc::Str(s) => {
            let a = chars_of(s);
            let b = chars_of(name);
            same(a.as_slice(), b.as_slice())
        },
        _ => false,
    }
}

/// The position of string key `k` among the entries.
pub fn key_index(es: &Vec<(Doc, Doc)>, k: &str) -> (r: Option<usize>)
    ensures
        match r {
            Some(i) => find_key(dvm(es@), k@) == Some(i as int),
            None => find_key(dvm(es@), k@) is None,
        },
{
    let mut i: usize = 0;
    proof {
        lemma_find_key(dvm(es@), k@);
    }
    while i < es.len()
        invariant
            i <= es@.len(),
            forall|j: int| 0 <= j < i ==> dv(#[trigger] es@[j].0) != DocV::Str(k@),
        decreases es@.len() - i,
    {
        if key_is(&es[i].0, k) {
            proof {
                lemma_find_first(dvm(es@), k@, i as int);
            }
            return Some(i);
        }
        i += 1;
    }
    proof {
        lemma_find_key(dvm(es@), k@);
        if find_key(dvm(es@), k@) is Some {
            let j = find_key(dvm(es@), k@)->0;
            assert(dvm(es@)[j].0 == dv(es@[j].0));
        }
    }
    None
}

/// The first entry with key `k` is what `find_key` finds.
proof fn lemma_find_first(es: Seq<(DocV, DocV)>, k: Seq<char>, i: int)
    requires
        0 <= i < es.len(),
        es[i].0 == DocV::Str(k),
        forall|j: int| 0 <= j < i ==> #[trigger] es[j].0 != DocV::Str(k),
    ensures
        find_key(es, k) == Some(i),
{
    lemma_find_key(es, k);
}

impl Doc {
    /// `Value::get` with a string key: the value under `k` when this is a map.
    pub fn get(&self, k: &str) -> (r: Option<&Doc>)
        ensures
            match r {
                Some(d) => get_v(dv(*self), k@) == Some(dv(*d)),
                None => get_v(dv(*self), k@) is None,
            },
    {
        match self {
            Doc::Table(es) => match key_index(es, k) {
                Some(i) => {
                    proof {
                        lemma_find_key(dvm(es@), k@);
                        lemma_dv_table(*es);
                        assert(dvm(es@)[i as int].1 == dv(es@[i as int].1));
                    }
                    Some(&es[i].1)
                },
                None => {
                    proof {
                        lemma_dv_table(*es);
                    }
                    None
                },
            },
            _ => None,
        }
    }

    /// `Value::as_str`: the text of a string value.
    pub fn as_str(&self) -> (r: Option<&String>)
        ensures
            match r {
                Some(s) => dv(*self) == DocV::Str(s@),
                None => !(dv(*self) is Str),
            },
    {
        match self {
            Doc::Str(s) => Some(s),
            _ => None,
        }
    }
}

/// The values of entries after one entry is replaced.
pub proof fn lemma_dvm_update(v: Seq<(Doc, Doc)>, i: int, e: (Doc, Doc))
    requires
        0 <= i < v.len(),
    ensures
        dvm(v.update(i, e)) == dvm(v).update(i, (dv(e.0), dv(e.1))),
{
    assert(dvm(v.update(i, e)) =~= dvm(v).update(i, (dv(e.0), dv(e.1))));
}

/// The values of entries after one entry is appended.
pub proof fn lemma_dvm_push(v: Seq<(Doc, Doc)>, e: (Doc, Doc))
    ensures
        dvm(v.push(e)) == dvm(v).push((dv(e.0), dv(e.1))),
{
    assert(dvm(v.push(e)) =~= dvm(v).push((dv(e.0), dv(e.1))));
}

/// The values of items after one item is appended.
pub proof fn lemma_dvs_push(v: Seq<Doc>, e: Doc)
    ensures
        dvs(v.push(e)) == dvs(v).push(dv(e)),
{
    assert(dvs(v.push(e)) =~= dvs(v).push(dv(e)));
}

/// `Mapping::insert` / `Map::insert` with a string key: the value of an
/// existing key is replaced where it stands, a new key goes at the end.
pub fn map_insert(es: &mut Vec<(Doc, Doc)>, k: String, v: Doc)
    ensures
        dvm(final(es)@) == map_insert_s(dvm(old(es)@), k@, dv(v)),
{
    match key_index(es, k.as_str()) {
        Some(i) => {
            proof {
                lemma_find_key(dvm(es@), k@);
                lemma_dvm_update(es@, i as int, (Doc::Str(k), v));
            }
            es.set(i, (Doc::Str(k), v));
        },
        None => {
            proof {
                lemma_dvm_push(es@, (Doc::Str(k), v));
            }
            es.push((Doc::Str(k), v));
        },
    }
}

/// Takes out the value under string key `k`, leaving the entries without it.
fn take_entry(es: &mut Vec<(Doc, Doc)>, i: usize) -> (e: (Doc, Doc))
    requires
        i < old(es)@.len(),
    ensures
        e == old(es)@[i as int],
        final(es)@ == old(es)@.remove(i as int),
{
    es.remove(i)
}

/// Setting the dotted path `parts` below `d` to `value`, walking down tables
/// and creating an empty table for each missing step. `Err(j)` when the value
/// reached after `j` steps is not a table.
pub open spec fn set_path_s(d: DocV, parts: Seq<Seq<char>>, value: DocV) -> Result<DocV, nat>
    decreases parts.len(),
{
    match d {
        DocV::Table(es) => if parts.len() <= 1 {
            Ok(DocV::Table(map_insert_s(es, parts[0], value)))
        } else {
            let child = match find_key(es, parts[0]) {
                Some(i) => es[i].1,
                None => DocV::Table(Seq::empty()),
            };
            match set_path_s(child, parts.drop_first(), value) {
                Ok(c) => Ok(DocV::Table(map_insert_s(es, parts[0], c))),
                Err(j) => Err(j + 1),
            }
        },
        _ => Err(0),
    }
}

/// Replacing entry `i` by taking it out and putting a new one back in its place.
proof fn lemma_reput(v: Seq<(Doc, Doc)>, i: int, e: (Doc, Doc))
    requires
        0 <= i < v.len(),
    ensures
        v.remove(i).insert(i, e) == v.update(i, e),
{
    assert(v.remove(i).insert(i, e) =~= v.update(i, e));
}

/// `set_path_s` on `parts[k..]`.
fn set_path_from(d: Doc, parts: &Vec<String>, k: usize, value: Doc) -> (r: Result<Doc, usize>)
    requires
        k < parts@.len(),
    ensures
        match r {
            Ok(x) => set_path_s(dv(d), crate::text::strs(parts@).skip(k as int), dv(value)) == Ok::<
                DocV,
                nat,
            >(dv(x)),
            Err(j) => set_path_s(dv(d), crate::text::strs(parts@).skip(k as int), dv(value))
                == Err::<DocV, nat>(j as nat) && j < parts@.len() - k,
        },
    decreases parts@.len() - k,
{
    let ghost ps = crate::text::strs(parts@).skip(k as int);
    proof {
        assert(ps[0] == parts@[k as int]@);
        assert(ps.drop_first() =~= crate::text::strs(parts@).skip(k + 1));
    }
    match d {
        Doc::Table(mut es) => {
            proof {
                lemma_dv_table(es);
            }
            let ghost es0 = es@;
            if k == parts.len() - 1 {
                map_insert(&mut es, parts[k].clone(), value);
                proof {
                    lemma_dv_table(es);
                }
                Ok(Doc::Table(es))
            } else {
                match key_index(&es, parts[k].as_str()) {
                    Some(i) => {
                        proof {
                            lemma_find_key(dvm(es@), parts@[k as int]@);
                        }
                        let (key, child) = take_entry(&mut es, i);
                        proof {
                            assert(dvm(es0)[i as int] == (dv(key), dv(child)));
                        }
                        match set_path_from(child, parts, k + 1, value) {
                            Ok(c) => {
                                es.insert(i, (key, c));
                                proof {
                                    lemma_reput(es0, i as int, (key, c));
                                    lemma_dvm_update(es0, i as int, (key, c));
                                    lemma_dv_table(es);
                                }
                                Ok(Doc::Table(es))
                            },
                            Err(j) => Err(j + 1),
                        }
                    },
                    None => {
                        let fresh: Vec<(Doc, Doc)> = Vec::new();
                        proof {
                            lemma_dv_table(fresh);
                            assert(dvm(fresh@) =~= Seq::<(DocV, DocV)>::empty());
                        }
                        match set_path_from(Doc::Table(fresh), parts, k + 1, value) {
                            Ok(c) => {
                                proof {
                                    lemma_dvm_push(es@, (Doc::Str(parts@[k as int]), c));
                                }
                                es.push((Doc::Str(parts[k].clone()), c));
                                proof {
                                    lemma_dv_table(es);
                                }
                                Ok(Doc::Table(es))
                            },
                            Err(j) => Err(j + 1),
                        }
                    },
                }
            }
        },
        _ => Err(0),
    }
}

impl Doc {
    /// A deep copy.
    pub fn dup(&self) -> (r: Doc)
        ensures
            dv(r) == dv(*self),
        decreases self,
    {
        match self {
            Doc::Null => Doc::Null,
            Doc::Bool(b) => Doc::Bool(*b),
            Doc::Int(i) => Doc::Int(*i),
            Doc::Num(t) => Doc::Num(t.clone()),
            Doc::Str(t) => Doc::Str(t.clone()),
            Doc::Datetime(t) => Doc::Datetime(t.clone()),
            Doc::List(v) => {
                let mut out: Vec<Doc> = Vec::new();
                let mut i: usize = 0;
                while i < v.len()
                    invariant
                        i <= v@.len(),
                        *self == Doc::List(*v),
                        dvs(out@) == dvs(v@).take(i as int),
                    decreases v@.len() - i,
                {
                    proof {
                        assert(decreases_to!(*self => (*self)->List_0));
                        assert(decreases_to!(*v => v@));
                        assert(decreases_to!(v@ => v@[i as int]));
                        assert(decreases_to!(*self => v@[i as int]));
                    }
                    let x = v[i].dup();
                    proof {
                        lemma_dvs_push(out@, x);
                        assert(dvs(v@).take(i + 1) =~= dvs(v@).take(i as int).push(dv(v@[i as int])));
                    }
                    out.push(x);
                    i += 1;
                }
                proof {
                    assert(dvs(v@).take(v@.len() as int) =~= dvs(v@));
                    lemma_dv_list(out);
                    lemma_dv_list(*v);
                }
                Doc::List(out)
            },
            Doc::Table(v) => {
                let mut out: Vec<(Doc, Doc)> = Vec::new();
                let mut i: usize = 0;
                while i < v.len()
                    invariant
                        i <= v@.len(),
                        *self == Doc::Table(*v),
                        dvm(out@) == dvm(v@).take(i as int),
                    decreases v@.len() - i,
                {
                    proof {
                        assert(decreases_to!(*self => (*self)->Table_0));
                        assert(decreases_to!(*v => v@));
                        assert(decreases_to!(v@ => v@[i as int]));
                        assert(decreases_to!(v@[i as int] => v@[i as int].0));
                        assert(decreases_to!(v@[i as int] => v@[i as int].1));
                        assert(decreases_to!(*self => v@[i as int].0));
                        assert(decreases_to!(*self => v@[i as int].1));
                    }
                    let a = v[i].0.dup();
                    let b = v[i].1.dup();
                    proof {
                        lemma_dvm_push(out@, (a, b));
                        assert(dvm(v@).take(i + 1) =~= dvm(v@).take(i as int).push(
                            (dv(v@[i as int].0), dv(v@[i as int].1)),
                        ));
                    }
                    out.push((a, b));
                    i += 1;
                }
                proof {
                    assert(dvm(v@).take(v@.len() as int) =~= dvm(v@));
                    lemma_dv_table(out);
                    lemma_dv_table(*v);
                }
                Doc::Table(out)
            },
        }
    }
}

/// The error of a JSON or YAML path update: the step whose parent is not a
/// table, with the noun the format uses for tables.
pub open spec fn parent_error(parts: Seq<Seq<char>>, j: nat, noun: Seq<char>) -> HkErrorV {
    HkErrorV::ConfigCorrupted(parts[j as int] + " parent is not "@ + noun)
}

/// Sets a dotted path in a JSON or YAML document, `noun` naming a table.
fn set_dotted(root: Doc, dotted: &str, value: Doc, noun: &str) -> (r: Result<Doc, HkError>)
    ensures
        match set_path_s(dv(root), split_s(dotted@, '.'), dv(value)) {
            Ok(x) => r matches Ok(d) && dv(d) == x,
            Err(j) => r matches Err(e) && e@ == parent_error(split_s(dotted@, '.'), j, noun@),
        },
{
    let parts = split(dotted, '.');
    proof {
        lemma_split_len(dotted@, '.');
        assert(strs(parts@).skip(0) =~= strs(parts@));
    }
    match set_path_from(root, &parts, 0, value) {
        Ok(d) => Ok(d),
        Err(j) => {
            let mut m = parts[j].clone();
            push_str(&mut m, " parent is not ");
            push_str(&mut m, noun);
            Err(HkError::ConfigCorrupted(m))
        },
    }
}

/// `set_json_path`: sets a dotted key in a JSON document, creating objects on the way.
pub fn set_json_path(root: Doc, dotted: &str, value: Doc) -> (r: Result<Doc, HkError>)
    ensures
        match set_path_s(dv(root), split_s(dotted@, '.'), dv(value)) {
            Ok(x) => r matches Ok(d) && dv(d) == x,
            Err(j) => r matches Err(e) && e@ == parent_error(split_s(dotted@, '.'), j, "an object"@),
        },
{
    set_dotted(root, dotted, value, "an object")
}

/// `set_yaml_path`: sets a dotted key in a YAML document, creating mappings on the way.
pub fn set_yaml_path(root: Doc, dotted: &str, value: Doc) -> (r: Result<Doc, HkError>)
    ensures
        match set_path_s(dv(root), split_s(dotted@, '.'), dv(value)) {
            Ok(x) => r matches Ok(d) && dv(d) == x,
            Err(j) => r matches Err(e) && e@ == parent_error(split_s(dotted@, '.'), j, "a mapping"@),
        },
{
    set_dotted(root, dotted, value, "a mapping")
}

/// `set_toml_path`: sets a dotted key in a TOML table, creating tables on the
/// way; a step that holds something other than a table is refused.
pub fn set_toml_path(root: Doc, dotted: &str, value: Doc) -> (r: Result<Doc, HkError>)
    requires
        dv(root) is Table,
    ensures
        match set_path_s(dv(root), split_s(dotted@, '.'), dv(value)) {
            Ok(x) => r matches Ok(d) && dv(d) == x,
            Err(j) => j >= 1 && (r matches Err(e) && e@ == HkErrorV::ConfigCorrupted(
                split_s(dotted@, '.')[j - 1] + " is not a table"@,
            )),
        },
{
    let parts = split(dotted, '.');
    proof {
        lemma_split_len(dotted@, '.');
        assert(strs(parts@).skip(0) =~= strs(parts@));
    }
    match set_path_from(root, &parts, 0, value) {
        Ok(d) => Ok(d),
        Err(j) => {
            if j == 0 {
                proof {
                    assert(false);
                }
                return Err(HkError::Internal(String::new()));
            }
            let mut m = parts[j - 1].clone();
            push_str(&mut m, " is not a table");
            Err(HkError::ConfigCorrupted(m))
        },
    }
}

/// `json_to_toml`: only strings, booleans and 64-bit integers carry over.
pub fn json_to_toml(value: &Doc) -> (r: Result<Doc, HkError>)
    ensures
        match dv(*value) {
            DocV::Str(_) | DocV::Bool(_) | DocV::Int(_) => r matches Ok(d) && dv(d) == dv(*value),
            _ => r matches Err(e) && e@ == HkErrorV::Validation(
                "Codex known config values must be strings, booleans, or integers"@,
            ),
        },
{
    match value {
        Doc::Str(_) | Doc::Bool(_) | Doc::Int(_) => Ok(value.dup()),
        _ => Err(
            HkError::Validation(
                "Codex known config values must be strings, booleans, or integers".to_owned(),
            ),
        ),
    }
}

/// Some item of `items` is the string `t`.
pub open spec fn has_text(items: Seq<DocV>, t: Seq<char>) -> bool {
    exists|i: int| 0 <= i < items.len() && items[i] == DocV::Str(t)
}

/// Makes sure that the list reached through the tables `keys` holds the
/// string `item`, creating the tables and the list when they are missing and
/// appending the item when it is absent. `Err(j)` when the value reached after
/// `j` steps is not a table (or, at the end, not a list).
pub open spec fn with_item_s(d: DocV, keys: Seq<Seq<char>>, item: Seq<char>) -> Result<DocV, nat>
    decreases keys.len(),
{
    if keys.len() == 0 {
        match d {
            DocV::List(items) => Ok(
                DocV::List(
                    if has_text(items, item) {
                        items
                    } else {
                        items.push(DocV::Str(item))
                    },
                ),
            ),
            _ => Err(0),
        }
    } else {
        match d {
            DocV::Table(es) => {
                let child = match find_key(es, keys[0]) {
                    Some(i) => es[i].1,
                    None => if keys.len() == 1 {
                        DocV::List(Seq::empty())
                    } else {
                        DocV::Table(Seq::empty())
                    },
                };
                match with_item_s(child, keys.drop_first(), item) {
                    Ok(c) => Ok(DocV::Table(map_insert_s(es, keys[0], c))),
                    Err(j) => Err(j + 1),
                }
            },
            _ => Err(0),
        }
    }
}

/// Whether some item is the string `t`.
fn has_text_item(items: &Vec<Doc>, t: &str) -> (b: bool)
    ensures
        b == has_text(dvs(items@), t@),
{
    let mut i: usize = 0;
    while i < items.len()
        invariant
            i <= items@.len(),
            forall|j: int| 0 <= j < i ==> dv(#[trigger] items@[j]) != DocV::Str(t@),
        decreases items@.len() - i,
    {
        if key_is(&items[i], t) {
            proof {
                assert(dvs(items@)[i as int] == DocV::Str(t@));
            }
            return true;
        }
        i += 1;
    }
    proof {
        if has_text(dvs(items@), t@) {
            let j = choose|j: int| 0 <= j < dvs(items@).len() && dvs(items@)[j] == DocV::Str(t@);
            assert(dv(items@[j]) == DocV::Str(t@));
        }
    }
    false
}

/// `with_item_s` on `keys[k..]`.
fn with_item_from(d: Doc, keys: &Vec<String>, k: usize, item: &str) -> (r: Result<Doc, usize>)
    requires
        k <= keys@.len(),
    ensures
        match r {
            Ok(x) => with_item_s(dv(d), strs(keys@).skip(k as int), item@) == Ok::<DocV, nat>(dv(x)),
            Err(j) => with_item_s(dv(d), strs(keys@).skip(k as int), item@) == Err::<DocV, nat>(
                j as nat,
            ) && j <= keys@.len() - k,
        },
    decreases keys@.len() - k,
{
    let ghost ks = strs(keys@).skip(k as int);
    if k == keys.len() {
        match d {
            Doc::List(mut items) => {
                proof {
                    lemma_dv_list(items);
                }
                if !has_text_item(&items, item) {
                    let s = item.to_owned();
                    proof {
                        lemma_dvs_push(items@, Doc::Str(s));
                    }
                    items.push(Doc::Str(s));
                }
                proof {
                    lemma_dv_list(items);
                }
                Ok(Doc::List(items))
            },
            _ => Err(0),
        }
    } else {
        proof {
            assert(ks[0] == keys@[k as int]@);
            assert(ks.drop_first() =~= strs(keys@).skip(k + 1));
        }
        match d {
            Doc::Table(mut es) => {
                proof {
                    lemma_dv_table(es);
                }
                let ghost es0 = es@;
                match key_index(&es, keys[k].as_str()) {
                    Some(i) => {
                        proof {
                            lemma_find_key(dvm(es@), keys@[k as int]@);
                        }
                        let (key, child) = take_entry(&mut es, i);
                        proof {
                            assert(dvm(es0)[i as int] == (dv(key), dv(child)));
                        }
                        match with_item_from(child, keys, k + 1, item) {
                            Ok(c) => {
                                es.insert(i, (key, c));
                                proof {
                                    lemma_reput(es0, i as int, (key, c));
                                    lemma_dvm_update(es0, i as int, (key, c));
                                    lemma_dv_table(es);
                                }
                                Ok(Doc::Table(es))
                            },
                            Err(j) => Err(j + 1),
                        }
                    },
                    None => {
                        let fresh = if k == keys.len() - 1 {
                            let v: Vec<Doc> = Vec::new();
                            proof {
                                lemma_dv_list(v);
                                assert(dvs(v@) =~= Seq::<DocV>::empty());
                            }
                            Doc::List(v)
                        } else {
                            let v: Vec<(Doc, Doc)> = Vec::new();
                            proof {
                                lemma_dv_table(v);
                                assert(dvm(v@) =~= Seq::<(DocV, DocV)>::empty());
                            }
                            Doc::Table(v)
                        };
                        match with_item_from(fresh, keys, k + 1, item) {
                            Ok(c) => {
                                proof {
                                    lemma_dvm_push(es@, (Doc::Str(keys@[k as int]), c));
                                }
                                es.push((Doc::Str(keys[k].clone()), c));
                                proof {
                                    lemma_dv_table(es);
                                }
                                Ok(Doc::Table(es))
                            },
                            Err(j) => Err(j + 1),
                        }
                    },
                }
            },
            _ => Err(0),
        }
    }
}

/// The tables and list where Hermes looks for extra Skill directories.
pub open spec fn hermes_dir_keys() -> Seq<Seq<char>> {
    seq!["skills"@, "external_dirs"@]
}

/// The tables and list where OpenClaw looks for extra Skill directories.
pub open spec fn openclaw_dir_keys() -> Seq<Seq<char>> {
    seq!["skills"@, "load"@, "extraDirs"@]
}

/// What is wrong with a Hermes config whose step `j` has the wrong shape.
pub open spec fn hermes_dir_error(j: nat) -> Seq<char> {
    if j == 0 {
        "Hermes root is not a mapping"@
    } else if j == 1 {
        "Hermes skills is not a mapping"@
    } else {
        "skills.external_dirs is not a list"@
    }
}

/// What is wrong with an OpenClaw config whose step `j` has the wrong shape.
pub open spec fn openclaw_dir_error(j: nat) -> Seq<char> {
    if j == 0 {
        "OpenClaw root is not an object"@
    } else if j == 1 {
        "OpenClaw skills is not an object"@
    } else if j == 2 {
        "OpenClaw skills.load is not an object"@
    } else {
        "skills.load.extraDirs is not a list"@
    }
}

/// Adds the shared Skills root to Hermes' `skills.external_dirs`, once.
pub fn add_hermes_skill_dir(doc: Doc, shared: &str) -> (r: Result<Doc, HkError>)
    ensures
        match with_item_s(dv(doc), hermes_dir_keys(), shared@) {
            Ok(x) => r matches Ok(d) && dv(d) == x,
            Err(j) => r matches Err(e) && e@ == HkErrorV::ConfigCorrupted(hermes_dir_error(j)),
        },
{
    let keys = vec!["skills".to_owned(), "external_dirs".to_owned()];
    proof {
        assert(strs(keys@).skip(0) =~= hermes_dir_keys());
    }
    match with_item_from(doc, &keys, 0, shared) {
        Ok(d) => Ok(d),
        Err(j) => Err(
            HkError::ConfigCorrupted(
                if j == 0 {
                    "Hermes root is not a mapping".to_owned()
                } else if j == 1 {
                    "Hermes skills is not a mapping".to_owned()
                } else {
                    "skills.external_dirs is not a list".to_owned()
                },
            ),
        ),
    }
}

/// Adds the shared Skills root to OpenClaw's `skills.load.extraDirs`, once.
pub fn add_openclaw_skill_dir(doc: Doc, shared: &str) -> (r: Result<Doc, HkError>)
    ensures
        match with_item_s(dv(doc), openclaw_dir_keys(), shared@) {
            Ok(x) => r matches Ok(d) && dv(d) == x,
            Err(j) => r matches Err(e) && e@ == HkErrorV::ConfigCorrupted(openclaw_dir_error(j)),
        },
{
    let keys = vec!["skills".to_owned(), "load".to_owned(), "extraDirs".to_owned()];
    proof {
        assert(strs(keys@).skip(0) =~= openclaw_dir_keys());
    }
    match with_item_from(doc, &keys, 0, shared) {
        Ok(d) => Ok(d),
        Err(j) => Err(
            HkError::ConfigCorrupted(
                if j == 0 {
                    "OpenClaw root is not an object".to_owned()
                } else if j == 1 {
                    "OpenClaw skills is not an object".to_owned()
                } else if j == 2 {
                    "OpenClaw skills.load is not an object".to_owned()
                } else {
                    "skills.load.extraDirs is not a list".to_owned()
                },
            ),
        ),
    }
}

/// After inserting `v` under `k`, the key is found, holding `v`.
pub proof fn lemma_insert_found(es: Seq<(DocV, DocV)>, k: Seq<char>, v: DocV)
    ensures
        find_key(map_insert_s(es, k, v), k) matches Some(p) && 0 <= p < map_insert_s(es, k, v).len()
            && map_insert_s(es, k, v)[p] == (DocV::Str(k), v),
{
    lemma_find_key(es, k);
    let t = map_insert_s(es, k, v);
    match find_key(es, k) {
        Some(i) => {
            assert forall|j: int| 0 <= j < i implies #[trigger] t[j].0 != DocV::Str(k) by {
                assert(t[j] == es[j]);
            }
            lemma_find_first(t, k, i);
        },
        None => {
            assert forall|j: int| 0 <= j < es.len() implies #[trigger] t[j].0 != DocV::Str(k) by {
                assert(t[j] == es[j]);
            }
            lemma_find_first(t, k, es.len() as int);
        },
    }
}

/// Inserting the value a key already holds changes nothing.
pub proof fn lemma_insert_same(es: Seq<(DocV, DocV)>, k: Seq<char>, i: int)
    requires
        find_key(es, k) == Some(i),
    ensures
        map_insert_s(es, k, es[i].1) == es,
{
    lemma_find_key(es, k);
    assert(map_insert_s(es, k, es[i].1) =~= es);
}

/// Adding a Skill directory twice leaves the document as adding it once does.
pub proof fn law_skill_dir_idempotent(d: DocV, keys: Seq<Seq<char>>, item: Seq<char>)
    requires
        with_item_s(d, keys, item) is Ok,
    ensures
        with_item_s(with_item_s(d, keys, item)->Ok_0, keys, item) == with_item_s(d, keys, item),
    decreases keys.len(),
{
    if keys.len() == 0 {
        if let DocV::List(items) = d {
            if !has_text(items, item) {
                let grown = items.push(DocV::Str(item));
                assert(grown[items.len() as int] == DocV::Str(item));
                assert(has_text(grown, item));
            }
        }
    } else {
        if let DocV::Table(es) = d {
            let child = match find_key(es, keys[0]) {
                Some(i) => es[i].1,
                None => if keys.len() == 1 {
                    DocV::List(Seq::empty())
                } else {
                    DocV::Table(Seq::empty())
                },
            };
            let c = with_item_s(child, keys.drop_first(), item)->Ok_0;
            law_skill_dir_idempotent(child, keys.drop_first(), item);
            lemma_insert_found(es, keys[0], c);
            let t = map_insert_s(es, keys[0], c);
            let p = find_key(t, keys[0])->0;
            lemma_insert_same(t, keys[0], p);
        }
    }
}

/// The lower-case hexadecimal digit for `d < 16`.
pub open spec fn hex_digit(d: nat) -> char {
    if d < 10 {
        ((d + 48) as u32) as char
    } else {
        ((d + 87) as u32) as char
    }
}

/// How JSON writes one character inside a string: quote and backslash
/// escaped, the usual short escapes, other control characters as `\u00XX`.
pub open spec fn esc_c(c: char) -> Seq<char> {
    let n = c as u32;
    if c == '"' {
        seq!['\\', '"']
    } else if c == '\\' {
        seq!['\\', '\\']
    } else if n == 0x08 {
        seq!['\\', 'b']
    } else if n == 0x09 {
        seq!['\\', 't']
    } else if n == 0x0a {
        seq!['\\', 'n']
    } else if n == 0x0c {
        seq!['\\', 'f']
    } else if n == 0x0d {
        seq!['\\', 'r']
    } else if n < 0x20 {
        seq!['\\', 'u', '0', '0', hex_digit((n / 16) as nat), hex_digit((n % 16) as nat)]
    } else {
        seq![c]
    }
}

/// `s` escaped for a JSON string.
pub open spec fn esc_s(s: Seq<char>) -> Seq<char>
    decreases s.len(),
{
    if s.len() == 0 {
        Seq::empty()
    } else {
        esc_s(s.drop_last()) + esc_c(s.last())
    }
}

/// `s` as a JSON string literal.
pub open spec fn quoted_s(s: Seq<char>) -> Seq<char> {
    seq!['"'] + esc_s(s) + seq!['"']
}

/// The compact JSON text of a value, as `serde_json` writes it: no spaces,
/// members and items separated by commas.
pub open spec fn json_text_s(d: DocV) -> Seq<char>
    decreases d,
{
    match d {
        DocV::Null => "null"@,
        DocV::Bool(b) => if b {
            "true"@
        } else {
            "false"@
        },
        DocV::Int(i) => crate::text::idec_s(i),
        DocV::Num(t) => t,
        DocV::Str(s) => quoted_s(s),
        DocV::Datetime(t) => quoted_s(t),
        DocV::List(items) => seq!['['] + crate::text::join_s(json_items_s(items), seq![',']) + seq![
            ']',
        ],
        DocV::Table(es) => seq!['{'] + crate::text::join_s(json_members_s(es), seq![','])
            + seq!['}'],
    }
}

/// The JSON text of each item.
pub open spec fn json_items_s(items: Seq<DocV>) -> Seq<Seq<char>>
    decreases items,
{
    Seq::new(
        items.len(),
        |i: int|
            if 0 <= i < items.len() {
                json_text_s(items[i])
            } else {
                Seq::empty()
            },
    )
}

/// The JSON text of each member: the key as a string, a colon, the value.
pub open spec fn json_members_s(es: Seq<(DocV, DocV)>) -> Seq<Seq<char>>
    decreases es,
{
    Seq::new(
        es.len(),
        |i: int|
            if 0 <= i < es.len() {
                quoted_s(
                    match es[i].0 {
                        DocV::Str(k) => k,
                        _ => json_text_s(es[i].0),
                    },
                ) + seq![':'] + json_text_s(es[i].1)
            } else {
                Seq::empty()
            },
    )
}

/// `serde_json::to_string(s)`: `s` as a JSON string literal, as `quoted_s`
/// says. serde_json escapes the quote, the backslash and the characters
/// below U+0020 (`\b \t \n \f \r` in short, the others as `\u00XX` with
/// lower-case hex digits) and writes every other character as it is.
/// Serialising a `str` into memory does not fail.
#[verifier::external_body]
fn quoted(s: &str) -> (r: String)
    ensures
        r@ == quoted_s(s@),
{
    match serde_json::to_string(s) {
        Ok(t) => t,
        Err(_) => String::new(),
    }
}

/// The compact JSON text of a value.
pub fn json_text(d: &Doc) -> (r: String)
    ensures
        r@ == json_text_s(dv(*d)),
    decreases d,
{
    match d {
        Doc::Null => "null".to_owned(),
        Doc::Bool(b) => if *b {
            "true".to_owned()
        } else {
            "false".to_owned()
        },
        Doc::Int(i) => crate::text::idec(*i),
        Doc::Num(t) => t.clone(),
        Doc::Str(t) => quoted(t.as_str()),
        Doc::Datetime(t) => quoted(t.as_str()),
        Doc::List(items) => {
            let ghost want = json_items_s(dvs(items@));
            let mut parts: Vec<String> = Vec::new();
            let mut i: usize = 0;
            proof {
                lemma_dv_list(*items);
            }
            while i < items.len()
                invariant
                    i <= items@.len(),
                    *d == Doc::List(*items),
                    want.len() == items@.len(),
                    want == json_items_s(dvs(items@)),
                    strs(parts@) == want.take(i as int),
                decreases items@.len() - i,
            {
                proof {
                    assert(decreases_to!(*d => (*d)->List_0));
                    assert(decreases_to!(*items => items@));
                    assert(decreases_to!(items@ => items@[i as int]));
                }
                let t = json_text(&items[i]);
                proof {
                    assert(dvs(items@)[i as int] == dv(items@[i as int]));
                    assert(want.take(i + 1) =~= want.take(i as int).push(t@));
                }
                let ghost before = parts@;
                parts.push(t);
                proof {
                    assert(strs(parts@) =~= strs(before).push(t@));
                }
                i += 1;
            }
            proof {
                assert(want.take(i as int) =~= want);
            }
            let mut out = "[".to_owned();
            let body = crate::text::join(&parts, ",");
            push_str(&mut out, body.as_str());
            push_str(&mut out, "]");
            proof {
                reveal_strlit("[");
                reveal_strlit("]");
                reveal_strlit(",");
                assert(","@ =~= seq![',']);
                assert(dv(*d) == DocV::List(dvs(items@)));
                assert(json_text_s(DocV::List(dvs(items@))) == seq!['['] + crate::text::join_s(
                    want,
                    seq![','],
                ) + seq![']']);
                assert(out@ =~= json_text_s(dv(*d)));
            }
            out
        },
        Doc::Table(es) => {
            let ghost want = json_members_s(dvm(es@));
            let mut parts: Vec<String> = Vec::new();
            let mut i: usize = 0;
            proof {
                lemma_dv_table(*es);
            }
            while i < es.len()
                invariant
                    i <= es@.len(),
                    *d == Doc::Table(*es),
                    want.len() == es@.len(),
                    want == json_members_s(dvm(es@)),
                    strs(parts@) == want.take(i as int),
                decreases es@.len() - i,
            {
                proof {
                    assert(decreases_to!(*d => (*d)->Table_0));
                    assert(decreases_to!(*es => es@));
                    assert(decreases_to!(es@ => es@[i as int]));
                    assert(decreases_to!(es@[i as int] => es@[i as int].0));
                    assert(decreases_to!(es@[i as int] => es@[i as int].1));
                    assert(dvm(es@)[i as int] == (dv(es@[i as int].0), dv(es@[i as int].1)));
                }
                let key = match &es[i].0 {
                    Doc::Str(k) => quoted(k.as_str()),
                    other => {
                        let t = json_text(other);
                        quoted(t.as_str())
                    },
                };
                let mut t = key;
                push_char(&mut t, ':');
                let v = json_text(&es[i].1);
                push_str(&mut t, v.as_str());
                proof {
                    assert(t@ =~= want[i as int]);
                    assert(want.take(i + 1) =~= want.take(i as int).push(t@));
                }
                let ghost before = parts@;
                parts.push(t);
                proof {
                    assert(strs(parts@) =~= strs(before).push(t@));
                }
                i += 1;
            }
            proof {
                assert(want.take(i as int) =~= want);
            }
            let mut out = "{".to_owned();
            let body = crate::text::join(&parts, ",");
            push_str(&mut out, body.as_str());
            push_str(&mut out, "}");
            proof {
                reveal_strlit("{");
                reveal_strlit("}");
                reveal_strlit(",");
                assert(","@ =~= seq![',']);
                assert(dv(*d) == DocV::Table(dvm(es@)));
                assert(json_text_s(DocV::Table(dvm(es@))) == seq!['{'] + crate::text::join_s(
                    want,
                    seq![','],
                ) + seq!['}']);
                assert(out@ =~= json_text_s(dv(*d)));
            }
            out
        },
    }
}

} // verus!
