//! The files of an archive in memory: their hash, path and bytes.

use vstd::prelude::*;
use vstd::string::*;
use crate::hashing::{path_hash, wad_path_hash};
use crate::repath::{bin_magic, looks_like_bin};
use crate::text::{ends, ends_with, lowered, same, texts, to_lower};

verus! {

/// A file of an archive: path hash, path and bytes.
pub type WadEntry = (u64, String, Vec<u8>);

/// What a file of an archive is.
#[verifier::ext_equal]
pub struct Entry {
    pub hash: u64,
    pub path: Seq<char>,
    pub bytes: Seq<u8>,
}

/// The model of a file.
pub open spec fn entry(e: WadEntry) -> Entry {
    Entry { hash: e.0, path: e.1@, bytes: e.2@ }
}

/// The models of a list of files.
pub open spec fn entries(v: Seq<WadEntry>) -> Seq<Entry> {
    v.map_values(|e: WadEntry| entry(e))
}

/// The paths of files, in order.
pub open spec fn paths_of(es: Seq<Entry>) -> Seq<Seq<char>> {
    es.map_values(|e: Entry| e.path)
}

/// The file is a BIN: by its name, or by its first bytes where the name is not known.
pub open spec fn is_bin(e: Entry) -> bool {
    ends(lowered(e.path), ".bin"@) || bin_magic(e.bytes)
}

/// `i` is the first file with this path.
pub open spec fn path_at(es: Seq<Entry>, path: Seq<char>, i: int) -> bool {
    0 <= i < es.len() && es[i].path == path && forall|j: int| 0 <= j < i ==> (#[trigger] es[j]).path != path
}

/// The first file with this path.
pub open spec fn path_slot(es: Seq<Entry>, path: Seq<char>) -> Option<int> {
    if exists|i: int| path_at(es, path, i) {
        Some(choose|i: int| path_at(es, path, i))
    } else {
        None
    }
}

/// `i` is the first file with this hash.
pub open spec fn hash_at(es: Seq<Entry>, hash: u64, i: int) -> bool {
    0 <= i < es.len() && es[i].hash == hash && forall|j: int| 0 <= j < i ==> (#[trigger] es[j]).hash != hash
}

/// The first file with this hash.
pub open spec fn hash_slot(es: Seq<Entry>, hash: u64) -> Option<int> {
    if exists|i: int| hash_at(es, hash, i) {
        Some(choose|i: int| hash_at(es, hash, i))
    } else {
        None
    }
}

/// The files with other bytes in one of them.
pub open spec fn with_bytes(es: Seq<Entry>, i: int, bytes: Seq<u8>) -> Seq<Entry> {
    es.update(i, Entry { hash: es[i].hash, path: es[i].path, bytes })
}

/// A new file at a path, under the hash of the path.
pub open spec fn new_entry(path: Seq<char>, bytes: Seq<u8>) -> Entry {
    Entry { hash: path_hash(path), path, bytes }
}

/// Whether a file is a BIN.
pub fn is_bin_entry(e: &WadEntry) -> (r: bool)
    ensures
        r == is_bin(entry(*e)),
{
    let lower = to_lower(e.1.as_str());
    ends_with(lower.as_str(), ".bin") || looks_like_bin(e.2.as_slice())
}

/// The first file with this path.
pub fn find_path(files: &Vec<WadEntry>, path: &str) -> (r: Option<usize>)
    ensures
        r matches Some(i) ==> i < files@.len() && path_slot(entries(files@), path@) == Some(i as int),
        r is None <==> path_slot(entries(files@), path@) is None,
{
    let ghost es = entries(files@);
    let mut i: usize = 0;
    while i < files.len()
        invariant
            es == entries(files@),
            i <= files@.len(),
            forall|j: int| 0 <= j < i ==> (#[trigger] es[j]).path != path@,
        decreases files@.len() - i,
    {
        if same(files[i].1.as_str(), path) {
            proof {
                assert(path_at(es, path@, i as int));
                let k = choose|k: int| path_at(es, path@, k);
                assert(path_at(es, path@, k));
                if k < i {
                    assert(es[k].path != path@);
                }
                if i < k {
                    assert(es[i as int].path != path@);
                }
            }
            return Some(i);
        }
        i = i + 1;
    }
    assert(forall|k: int| !path_at(es, path@, k));
    None
}

/// The first file with this hash.
pub fn find_hash(files: &Vec<WadEntry>, hash: u64) -> (r: Option<usize>)
    ensures
        r matches Some(i) ==> i < files@.len() && hash_slot(entries(files@), hash) == Some(i as int),
        r is None <==> hash_slot(entries(files@), hash) is None,
{
    let ghost es = entries(files@);
    let mut i: usize = 0;
    while i < files.len()
        invariant
            es == entries(files@),
            i <= files@.len(),
            forall|j: int| 0 <= j < i ==> (#[trigger] es[j]).hash != hash,
        decreases files@.len() - i,
    {
        if files[i].0 == hash {
            proof {
                assert(hash_at(es, hash, i as int));
                let k = choose|k: int| hash_at(es, hash, k);
                assert(hash_at(es, hash, k));
                if k < i {
                    assert(es[k].hash != hash);
                }
                if i < k {
                    assert(es[i as int].hash != hash);
                }
            }
            return Some(i);
        }
        i = i + 1;
    }
    assert(forall|k: int| !hash_at(es, hash, k));
    None
}

/// A copy of some bytes.
pub fn copy_bytes(v: &Vec<u8>) -> (r: Vec<u8>)
    ensures
        r@ == v@,
{
    let mut out: Vec<u8> = Vec::new();
    let mut i: usize = 0;
    while i < v.len()
        invariant
            i <= v@.len(),
            out@ == v@.take(i as int),
        decreases v@.len() - i,
    {
        out.push(v[i]);
        assert(out@ =~= v@.take(i + 1));
        i = i + 1;
    }
    assert(v@.take(i as int) =~= v@);
    out
}

/// Whether two runs of bytes are the same.
pub fn same_bytes(a: &Vec<u8>, b: &Vec<u8>) -> (r: bool)
    ensures
        r == (a@ == b@),
{
    if a.len() != b.len() {
        return false;
    }
    let mut i: usize = 0;
    while i < a.len()
        invariant
            a@.len() == b@.len(),
            i <= a@.len(),
            forall|j: int| 0 <= j < i ==> a@[j] == b@[j],
        decreases a@.len() - i,
    {
        if a[i] != b[i] {
            return false;
        }
        i = i + 1;
    }
    assert(a@ =~= b@);
    true
}

/// Put other bytes into a file.
pub fn set_bytes(files: &mut Vec<WadEntry>, i: usize, bytes: Vec<u8>)
    requires
        i < old(files)@.len(),
    ensures
        entries(final(files)@) == with_bytes(entries(old(files)@), i as int, bytes@),
{
    let ghost before = entries(files@);
    let ghost new = bytes@;
    files[i].2 = bytes;
    assert(entries(files@) =~= with_bytes(before, i as int, new));
}

/// Add a file at a path, under the hash of the path.
pub fn push_file(files: &mut Vec<WadEntry>, path: &str, bytes: Vec<u8>)
    ensures
        entries(final(files)@) == entries(old(files)@).push(new_entry(path@, bytes@)),
{
    let ghost before = entries(files@);
    let ghost new = bytes@;
    files.push((wad_path_hash(path), path.to_owned(), bytes));
    assert(entries(files@) =~= before.push(new_entry(path@, new)));
}

/// The paths of files, in order.
pub fn list_paths(files: &Vec<WadEntry>) -> (r: Vec<String>)
    ensures
        texts(r@) == paths_of(entries(files@)),
{
    let mut out: Vec<String> = Vec::new();
    let mut i: usize = 0;
    while i < files.len()
        invariant
            i <= files@.len(),
            out@.len() == i,
            forall|j: int| 0 <= j < i ==> (#[trigger] out@[j])@ == files@[j].1@,
        decreases files@.len() - i,
    {
        out.push(files[i].1.clone());
        i = i + 1;
    }
    assert(texts(out@) =~= paths_of(entries(files@)));
    out
}

/// A copy of a file.
pub fn copy_entry(e: &WadEntry) -> (r: WadEntry)
    ensures
        entry(r) == entry(*e),
{
    (e.0, e.1.clone(), copy_bytes(&e.2))
}

/// The BIN files among some files, in order.
pub open spec fn bins_of(es: Seq<Entry>) -> Seq<Entry>
    decreases es.len(),
{
    if es.len() == 0 {
        Seq::empty()
    } else {
        let before = bins_of(es.drop_last());
        if is_bin(es.last()) {
            before.push(es.last())
        } else {
            before
        }
    }
}

/// Copies of the BIN files among some files, in order.
pub fn copy_bins(files: &Vec<WadEntry>) -> (r: Vec<WadEntry>)
    ensures
        entries(r@) == bins_of(entries(files@)),
{
    let ghost es = entries(files@);
    let mut out: Vec<WadEntry> = Vec::new();
    let mut i: usize = 0;
    assert(entries(out@) =~= bins_of(es.take(0)));
    while i < files.len()
        invariant
            es == entries(files@),
            i <= files@.len(),
            entries(out@) == bins_of(es.take(i as int)),
        decreases files@.len() - i,
    {
        proof {
            crate::text::lemma_take_next(es, i as int);
            assert(es[i as int] == entry(files@[i as int]));
        }
        if is_bin_entry(&files[i]) {
            let ghost before = out@;
            let e = copy_entry(&files[i]);
            out.push(e);
            assert(entries(out@) =~= entries(before).push(entry(e)));
        }
        i = i + 1;
    }
    assert(es.take(i as int) =~= es);
    out
}

} // verus!
