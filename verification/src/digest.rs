//! Content hashes: SHA-256 over the bytes of a file, of a tree of files, or
//! of a Skill directory, each tree framed as the library lays it out.
use vstd::prelude::*;
use crate::order::{lemma_comps_order, path_lt, path_lt_s};
use crate::paths::comps;

verus! {

/// The lower-case hexadecimal SHA-256 digest of `b`.
pub uninterp spec fn sha256_hex_s(b: Seq<u8>) -> Seq<char>;

/// `format!("{:x}", sha2::Sha256::digest(bytes))`. The digest is named, not
/// spelled out: SHA-256 is left to the crate.
#[verifier::external_body]
fn sha256_hex(bytes: &Vec<u8>) -> (r: String)
    ensures
        r@ == sha256_hex_s(bytes@),
{
    format!("{:x}", <sha2::Sha256 as sha2::Digest>::digest(bytes.as_slice()))
}

/// The UTF-8 bytes of a text.
pub open spec fn utf8_s(s: Seq<char>) -> Seq<u8> {
    vstd::utf8::encode_utf8(s)
}

/// `n` as `k` little-endian bytes.
pub open spec fn le_s(n: nat, k: nat) -> Seq<u8>
    decreases k,
{
    if k == 0 {
        Seq::empty()
    } else {
        seq![(n % 256) as u8] + le_s(n / 256, (k - 1) as nat)
    }
}

/// `u64::to_le_bytes`.
fn le8(n: u64) -> (v: Vec<u8>)
    ensures
        v@ == le_s(n as nat, 8),
{
    let mut v: Vec<u8> = Vec::new();
    let mut m: u64 = n;
    let mut k: u64 = 0;
    proof {
        assert(v@ + le_s(m as nat, 8) =~= le_s(n as nat, 8));
    }
    while k < 8
        invariant
            k <= 8,
            v@ + le_s(m as nat, (8 - k) as nat) == le_s(n as nat, 8),
        decreases 8 - k,
    {
        let ghost before = v@;
        v.push((m % 256) as u8);
        proof {
            assert(le_s(m as nat, (8 - k) as nat) == seq![(m % 256) as u8] + le_s(
                (m / 256) as nat,
                (8 - k - 1) as nat,
            ));
            assert(v@ + le_s((m / 256) as nat, (8 - k - 1) as nat) =~= before + le_s(
                m as nat,
                (8 - k) as nat,
            ));
        }
        m = m / 256;
        k += 1;
    }
    proof {
        assert(v@ =~= v@ + le_s(m as nat, 0));
    }
    v
}

/// Appends the bytes of `b` to `v`.
fn append_bytes(v: &mut Vec<u8>, b: &[u8])
    ensures
        final(v)@ == old(v)@ + b@,
{
    let ghost start = v@;
    let mut i: usize = 0;
    while i < b.len()
        invariant
            i <= b@.len(),
            v@ == start + b@.take(i as int),
        decreases b@.len() - i,
    {
        v.push(b[i]);
        proof {
            assert(b@.take(i + 1) =~= b@.take(i as int).push(b@[i as int]));
        }
        i += 1;
    }
    proof {
        assert(b@.take(i as int) =~= b@);
    }
}

/// Files in path order.
pub open spec fn files_sorted(s: Seq<(String, Vec<u8>)>) -> bool {
    forall|i: int, j: int| 0 <= i < j < s.len() ==> !path_lt_s(#[trigger] s[j].0@, #[trigger] s[i].0@)
}

/// The files sorted by path; files of equal paths keep their order.
fn sort_files(v: Vec<(String, Vec<u8>)>) -> (r: Vec<(String, Vec<u8>)>)
    ensures
        files_sorted(r@),
        r@.to_multiset() == v@.to_multiset(),
{
    let mut out: Vec<(String, Vec<u8>)> = Vec::new();
    let mut rest = v;
    let ghost all = rest@;
    let ghost mut taken: int = 0;
    proof {
        assert(all.take(0) =~= Seq::<(String, Vec<u8>)>::empty());
        assert(all.skip(0) =~= all);
    }
    while rest.len() > 0
        invariant
            0 <= taken <= all.len(),
            taken + rest@.len() == all.len(),
            rest@ == all.skip(taken),
            files_sorted(out@),
            out@.to_multiset() == all.take(taken).to_multiset(),
        decreases rest@.len(),
    {
        let x = rest.remove(0);
        proof {
            assert(x == all[taken]);
            assert(rest@ =~= all.skip(taken + 1));
        }
        let mut p: usize = 0;
        while p < out.len() && !path_lt(x.0.as_str(), out[p].0.as_str())
            invariant
                p <= out@.len(),
                forall|k: int| 0 <= k < p ==> !path_lt_s(x.0@, #[trigger] out@[k].0@),
            decreases out@.len() - p,
        {
            p += 1;
        }
        let ghost before = out@;
        let ghost xv = x;
        out.insert(p, x);
        proof {
            assert forall|i: int, j: int| 0 <= i < j < out@.len() implies !path_lt_s(
                #[trigger] out@[j].0@,
                #[trigger] out@[i].0@,
            ) by {
                if i < p && j > p {
                    assert(out@[i] == before[i] && out@[j] == before[j - 1]);
                } else if i < p && j == p {
                    assert(out@[i] == before[i]);
                } else if i == p && j > p {
                    assert(out@[j] == before[j - 1]);
                    lemma_comps_order(comps(before[j - 1].0@), comps(xv.0@), comps(before[p as int].0@));
                    lemma_comps_order(comps(xv.0@), comps(before[p as int].0@), comps(xv.0@));
                    if j - 1 > p {
                        assert(!path_lt_s(before[j - 1].0@, before[p as int].0@));
                    }
                } else if i > p {
                    assert(out@[i] == before[i - 1] && out@[j] == before[j - 1]);
                } else {
                    assert(out@[i] == before[i] && out@[j] == before[j]);
                }
            }
            vstd::seq_lib::to_multiset_insert(before, p as int, xv);
            assert(all.take(taken + 1) =~= all.take(taken).push(xv));
            vstd::seq_lib::to_multiset_build(all.take(taken), xv);
            taken = taken + 1;
        }
    }
    proof {
        assert(all.take(taken) =~= all);
    }
    out
}

/// The bytes a Skill's hash covers: for each file, its relative path and
/// its content, each after its length as eight little-endian bytes.
pub open spec fn skill_frame_s(files: Seq<(String, Vec<u8>)>) -> Seq<u8>
    decreases files.len(),
{
    if files.len() == 0 {
        Seq::empty()
    } else {
        let f = files.last();
        skill_frame_s(files.drop_last()) + le_s(utf8_s(f.0@).len(), 8) + utf8_s(f.0@) + le_s(
            f.1@.len(),
            8,
        ) + f.1@
    }
}

/// The bytes a tree's hash covers: each relative path, then the file's content.
pub open spec fn tree_frame_s(files: Seq<(String, Vec<u8>)>) -> Seq<u8>
    decreases files.len(),
{
    if files.len() == 0 {
        Seq::empty()
    } else {
        let f = files.last();
        tree_frame_s(files.drop_last()) + utf8_s(f.0@) + f.1@
    }
}

/// Whether `sorted` is `files` in path order.
pub open spec fn sorted_from(sorted: Seq<(String, Vec<u8>)>, files: Seq<(String, Vec<u8>)>) -> bool {
    files_sorted(sorted) && sorted.to_multiset() == files.to_multiset()
}

/// `hash_skill_directory`, given each file below the Skill directory as its
/// relative path and its bytes (a link's target text for a symbolic link):
/// the files in path order, framed, hashed.
pub fn skill_digest(files: Vec<(String, Vec<u8>)>) -> (h: String)
    ensures
        exists|s: Seq<(String, Vec<u8>)>| sorted_from(s, files@) && h@ == sha256_hex_s(skill_frame_s(s)),
{
    let ghost input = files@;
    let sorted = sort_files(files);
    let mut bytes: Vec<u8> = Vec::new();
    let mut i: usize = 0;
    while i < sorted.len()
        invariant
            i <= sorted@.len(),
            bytes@ == skill_frame_s(sorted@.take(i as int)),
        decreases sorted@.len() - i,
    {
        let name = sorted[i].0.as_str().as_bytes();
        let n = le8(name.len() as u64);
        append_bytes(&mut bytes, n.as_slice());
        append_bytes(&mut bytes, name);
        let m = le8(sorted[i].1.len() as u64);
        append_bytes(&mut bytes, m.as_slice());
        append_bytes(&mut bytes, sorted[i].1.as_slice());
        proof {
            assert(sorted@.take(i + 1).drop_last() =~= sorted@.take(i as int));
            assert(sorted@.take(i + 1).last() == sorted@[i as int]);
            assert(bytes@ =~= skill_frame_s(sorted@.take(i + 1)));
        }
        i += 1;
    }
    proof {
        assert(sorted@.take(i as int) =~= sorted@);
    }
    let h = sha256_hex(&bytes);
    proof {
        assert(sorted_from(sorted@, input) && h@ == sha256_hex_s(skill_frame_s(sorted@)));
    }
    h
}

/// `hash_path` for a directory, given each regular file below it as its
/// relative path and its bytes.
pub fn tree_digest(files: Vec<(String, Vec<u8>)>) -> (h: String)
    ensures
        exists|s: Seq<(String, Vec<u8>)>| sorted_from(s, files@) && h@ == sha256_hex_s(tree_frame_s(s)),
{
    let ghost input = files@;
    let sorted = sort_files(files);
    let mut bytes: Vec<u8> = Vec::new();
    let mut i: usize = 0;
    while i < sorted.len()
        invariant
            i <= sorted@.len(),
            bytes@ == tree_frame_s(sorted@.take(i as int)),
        decreases sorted@.len() - i,
    {
        append_bytes(&mut bytes, sorted[i].0.as_str().as_bytes());
        append_bytes(&mut bytes, sorted[i].1.as_slice());
        proof {
            assert(sorted@.take(i + 1).drop_last() =~= sorted@.take(i as int));
            assert(sorted@.take(i + 1).last() == sorted@[i as int]);
            assert(bytes@ =~= tree_frame_s(sorted@.take(i + 1)));
        }
        i += 1;
    }
    proof {
        assert(sorted@.take(i as int) =~= sorted@);
    }
    let h = sha256_hex(&bytes);
    proof {
        assert(sorted_from(sorted@, input) && h@ == sha256_hex_s(tree_frame_s(sorted@)));
    }
    h
}

/// `hash_path` for a file: the digest of its bytes.
pub fn file_digest(bytes: &Vec<u8>) -> (h: String)
    ensures
        h@ == sha256_hex_s(bytes@),
{
    sha256_hex(bytes)
}

/// What is at a path whose hash a proposal records.
pub enum PathContent {
    /// Nothing.
    Missing,
    /// A directory: each file below it, by its path relative to it, with
    /// its bytes.
    Dir(Vec<(String, Vec<u8>)>),
    /// A file, with its bytes.
    File(Vec<u8>),
}

/// The hash recorded for a path: `missing` where there is nothing, the
/// tree digest of a directory, the SHA-256 of a file.
pub fn content_hash(c: PathContent) -> (h: String)
    ensures
        match c {
            PathContent::Missing => h@ == "missing"@,
            PathContent::Dir(files) => exists|s: Seq<(String, Vec<u8>)>|
                sorted_from(s, files@) && h@ == sha256_hex_s(tree_frame_s(s)),
            PathContent::File(b) => h@ == sha256_hex_s(b@),
        },
{
    match c {
        PathContent::Missing => "missing".to_owned(),
        PathContent::Dir(files) => tree_digest(files),
        PathContent::File(b) => file_digest(&b),
    }
}

} // verus!
