//! Carrying out a plan for an archive's files: conversions, changes in place, renames and
//! additions.

use vstd::prelude::*;
use vstd::string::*;
use crate::archive::{
    copy_bytes, entries, entry, find_path, new_entry, path_at, path_slot, push_file, same_bytes, set_bytes, with_bytes, Entry, WadEntry,
};
use crate::assets::{asset_bytes, AssetRegistry};
use crate::hashing::{path_hash, wad_path_hash};
use crate::text::{is_listed, lemma_listed, lemma_take_next, lowered, same, texts, to_lower};
use crate::traits::BinFault;
use crate::wad_pipeline::{FileAddition, FileConversion, InPlaceTransform};
use crate::walk::{add_count, capped};

verus! {

/// The converters of file formats, by name.
pub trait Converters {
    /// What a converter makes of some bytes, where it is known and does not fail.
    open spec fn converted(&self, name: Seq<char>, bytes: Seq<u8>) -> Option<Seq<u8>> {
        None
    }

    /// Convert some bytes.
    fn convert(&self, name: &str, bytes: &[u8]) -> (r: Result<Vec<u8>, BinFault>)
        ensures
            r is Ok <==> self.converted(name@, bytes@) is Some,
            r matches Ok(v) ==> self.converted(name@, bytes@) == Some(v@),
    ;
}

/// No converters at all: every conversion fails.
#[derive(Clone, Copy, Debug)]
pub struct NoConverters;

impl Converters for NoConverters {
    open spec fn converted(&self, name: Seq<char>, bytes: Seq<u8>) -> Option<Seq<u8>> {
        None
    }

    fn convert(&self, name: &str, bytes: &[u8]) -> (r: Result<Vec<u8>, BinFault>) {
        Err(BinFault { message: name.to_owned() })
    }
}

/// The files after one conversion, and the number of files converted. With `quiet`, a
/// conversion that leaves the bytes as they are does not count.
pub open spec fn converted_one<C: Converters>(
    state: (Seq<Entry>, nat),
    path: Seq<char>,
    converter: Seq<char>,
    converters: C,
    quiet: bool,
) -> (Seq<Entry>, nat) {
    let (es, n) = state;
    match path_slot(es, path) {
        None => state,
        Some(i) => match converters.converted(converter, es[i].bytes) {
            None => state,
            Some(b) => if quiet && b == es[i].bytes {
                state
            } else {
                (with_bytes(es, i, b), n + 1)
            },
        },
    }
}

/// The files after conversions of `list`, by path and converter, in order.
pub open spec fn converted_all<C: Converters>(
    es: Seq<Entry>,
    list: Seq<(Seq<char>, Seq<char>)>,
    converters: C,
    quiet: bool,
) -> (Seq<Entry>, nat)
    decreases list.len(),
{
    if list.len() == 0 {
        (es, 0)
    } else {
        converted_one(
            converted_all(es, list.drop_last(), converters, quiet),
            list.last().0,
            list.last().1,
            converters,
            quiet,
        )
    }
}

/// The conversions of a plan, by path and converter.
pub open spec fn conversions(v: Seq<FileConversion>) -> Seq<(Seq<char>, Seq<char>)> {
    v.map_values(|c: FileConversion| (c.path@, c.converter@))
}

/// The changes in place of a plan, by path and converter.
pub open spec fn in_place(v: Seq<InPlaceTransform>) -> Seq<(Seq<char>, Seq<char>)> {
    v.map_values(|t: InPlaceTransform| (t.path@, t.converter@))
}

fn convert_one<C: Converters>(
    files: &mut Vec<WadEntry>,
    path: &str,
    converter: &str,
    converters: &C,
    quiet: bool,
) -> (r: bool)
    ensures
        forall|n: nat| #[trigger]
            converted_one((entries(old(files)@), n), path@, converter@, *converters, quiet) == (
                entries(final(files)@),
                if r { n + 1 } else { n },
            ),
{
    match find_path(files, path) {
        None => false,
        Some(i) => {
            assert(entries(files@)[i as int] == entry(files@[i as int]));
            match converters.convert(converter, files[i].2.as_slice()) {
                Err(_) => false,
                Ok(bytes) => {
                    if quiet && same_bytes(&bytes, &files[i].2) {
                        false
                    } else {
                        set_bytes(files, i, bytes);
                        true
                    }
                },
            }
        },
    }
}

/// Carry out the format conversions of a plan. Returns the number of files converted.
pub fn apply_conversions<C: Converters>(files: &mut Vec<WadEntry>, list: &Vec<FileConversion>, converters: &C) -> (r: u32)
    ensures
        ({
            let w = converted_all(entries(old(files)@), conversions(list@), *converters, false);
            entries(final(files)@) == w.0 && r == capped(w.1)
        }),
{
    let ghost start = entries(files@);
    let ghost all = conversions(list@);
    let mut n: u32 = 0;
    let mut i: usize = 0;
    while i < list.len()
        invariant
            all == conversions(list@),
            i <= list@.len(),
            ({
                let w = converted_all(start, all.take(i as int), *converters, false);
                entries(files@) == w.0 && n == capped(w.1)
            }),
        decreases list@.len() - i,
    {
        proof {
            lemma_take_next(all, i as int);
        }
        let ghost w = converted_all(start, all.take(i as int), *converters, false);
        let hit = convert_one(files, list[i].path.as_str(), list[i].converter.as_str(), converters, false);
        assert(converted_one(w, all[i as int].0, all[i as int].1, *converters, false) == (
            entries(files@),
            if hit { w.1 + 1 } else { w.1 },
        ));
        if hit {
            assert(capped(1) == 1u32);
            n = add_count(n, 1);
        }
        i = i + 1;
    }
    assert(all.take(i as int) =~= all);
    n
}

/// Carry out the changes in place of a plan. Returns the number of files changed.
pub fn apply_in_place<C: Converters>(files: &mut Vec<WadEntry>, list: &Vec<InPlaceTransform>, converters: &C) -> (r: u32)
    ensures
        ({
            let w = converted_all(entries(old(files)@), in_place(list@), *converters, true);
            entries(final(files)@) == w.0 && r == capped(w.1)
        }),
{
    let ghost start = entries(files@);
    let ghost all = in_place(list@);
    let mut n: u32 = 0;
    let mut i: usize = 0;
    while i < list.len()
        invariant
            all == in_place(list@),
            i <= list@.len(),
            ({
                let w = converted_all(start, all.take(i as int), *converters, true);
                entries(files@) == w.0 && n == capped(w.1)
            }),
        decreases list@.len() - i,
    {
        proof {
            lemma_take_next(all, i as int);
        }
        let ghost w = converted_all(start, all.take(i as int), *converters, true);
        let hit = convert_one(files, list[i].path.as_str(), list[i].converter.as_str(), converters, true);
        assert(converted_one(w, all[i as int].0, all[i as int].1, *converters, true) == (
            entries(files@),
            if hit { w.1 + 1 } else { w.1 },
        ));
        if hit {
            assert(capped(1) == 1u32);
            n = add_count(n, 1);
        }
        i = i + 1;
    }
    assert(all.take(i as int) =~= all);
    n
}

/// `i` is the first rename of this path.
pub open spec fn rename_at(list: Seq<(Seq<char>, Seq<char>)>, path: Seq<char>, i: int) -> bool {
    0 <= i < list.len() && list[i].0 == path && forall|j: int| 0 <= j < i ==> (#[trigger] list[j]).0 != path
}

/// The new path of a file that is to be renamed: what the first rename of its path says.
pub open spec fn new_path(list: Seq<(Seq<char>, Seq<char>)>, path: Seq<char>) -> Option<Seq<char>> {
    if exists|i: int| rename_at(list, path, i) {
        Some(list[choose|i: int| rename_at(list, path, i)].1)
    } else {
        None
    }
}

/// A file under its new path and the hash of that, where it has one. A file that is to go
/// is not renamed, so that it is found under the path by which it goes.
pub open spec fn renamed_one(e: Entry, list: Seq<(Seq<char>, Seq<char>)>, gone: Seq<Seq<char>>) -> Entry {
    match new_path(list, e.path) {
        Some(p) => if gone.contains(e.path) {
            e
        } else {
            new_entry(p, e.bytes)
        },
        None => e,
    }
}

/// The files after the renames of `list`, by old and new path, all at once.
pub open spec fn renamed_all(es: Seq<Entry>, list: Seq<(Seq<char>, Seq<char>)>, gone: Seq<Seq<char>>) -> Seq<Entry> {
    es.map_values(|e: Entry| renamed_one(e, list, gone))
}

/// The renames of a plan.
pub open spec fn renames_of(v: Seq<(String, String)>) -> Seq<(Seq<char>, Seq<char>)> {
    v.map_values(|p: (String, String)| (p.0@, p.1@))
}

fn find_rename(list: &Vec<(String, String)>, path: &str) -> (r: Option<usize>)
    ensures
        r matches Some(i) ==> i < list@.len() && new_path(renames_of(list@), path@) == Some(list@[i as int].1@),
        r is None <==> new_path(renames_of(list@), path@) is None,
{
    let ghost all = renames_of(list@);
    let mut i: usize = 0;
    while i < list.len()
        invariant
            all == renames_of(list@),
            i <= list@.len(),
            forall|j: int| 0 <= j < i ==> (#[trigger] all[j]).0 != path@,
        decreases list@.len() - i,
    {
        assert(all[i as int].0 == list@[i as int].0@);
        if same(list[i].0.as_str(), path) {
            proof {
                assert(rename_at(all, path@, i as int));
                let k = choose|k: int| rename_at(all, path@, k);
                assert(rename_at(all, path@, k));
                if k < i {
                    assert(all[k].0 != path@);
                }
                if i < k {
                    assert(all[i as int].0 != path@);
                }
            }
            return Some(i);
        }
        i = i + 1;
    }
    assert(forall|k: int| !rename_at(all, path@, k));
    None
}

/// Carry out the renames of a plan, all at once. The files in `gone` keep their paths.
pub fn apply_renames(files: &mut Vec<WadEntry>, list: &Vec<(String, String)>, gone: &Vec<String>)
    ensures
        entries(final(files)@) == renamed_all(entries(old(files)@), renames_of(list@), texts(gone@)),
{
    let ghost start = entries(files@);
    let ghost goal = renamed_all(start, renames_of(list@), texts(gone@));
    let n = files.len();
    let mut i: usize = 0;
    while i < n
        invariant
            n == files@.len(),
            n == start.len(),
            goal == renamed_all(start, renames_of(list@), texts(gone@)),
            i <= n,
            forall|j: int| 0 <= j < i ==> #[trigger] entries(files@)[j] == goal[j],
            forall|j: int| i <= j < n ==> #[trigger] entries(files@)[j] == start[j],
        decreases n - i,
    {
        let ghost before = entries(files@);
        let ghost e = start[i as int];
        proof {
            assert(entries(files@)[i as int] == e);
            assert(entry(files@[i as int]) == e);
            lemma_listed(gone@, e.path);
        }
        if let Some(k) = find_rename(list, files[i].1.as_str()) {
            if !is_listed(gone, files[i].1.as_str()) {
                let path = list[k].1.clone();
                let ghost p = path@;
                files[i].0 = wad_path_hash(path.as_str());
                files[i].1 = path;
                assert(entries(files@)[i as int] =~= new_entry(p, e.bytes));
            }
        }
        proof {
            assert forall|j: int| 0 <= j < i + 1 implies #[trigger] entries(files@)[j] == goal[j] by {
                if j < i {
                    assert(before[j] == goal[j]);
                }
            }
            assert forall|j: int| i + 1 <= j < n implies #[trigger] entries(files@)[j] == start[j] by {
                assert(before[j] == start[j]);
            }
        }
        i = i + 1;
    }
    assert(entries(files@) =~= goal);
}

/// A file has this path, in any case.
pub open spec fn any_path(es: Seq<Entry>, path: Seq<char>) -> bool {
    exists|i: int| 0 <= i < es.len() && lowered((#[trigger] es[i]).path) == lowered(path)
}

fn is_any_path(files: &Vec<WadEntry>, path: &str) -> (r: bool)
    ensures
        r == any_path(entries(files@), path@),
{
    let ghost es = entries(files@);
    let lower = to_lower(path);
    let mut i: usize = 0;
    while i < files.len()
        invariant
            es == entries(files@),
            lower@ == lowered(path@),
            i <= files@.len(),
            forall|j: int| 0 <= j < i ==> lowered((#[trigger] es[j]).path) != lowered(path@),
        decreases files@.len() - i,
    {
        let other = to_lower(files[i].1.as_str());
        assert(es[i as int].path == files@[i as int].1@);
        if same(other.as_str(), lower.as_str()) {
            return true;
        }
        i = i + 1;
    }
    false
}

/// The files after one addition. An asset that is not registered is left out, and so is
/// one for a path that is taken where the addition asks for that.
pub open spec fn added_one(
    state: (Seq<Entry>, nat),
    asset: Seq<char>,
    path: Seq<char>,
    only_if_missing: bool,
    assets: Seq<(Seq<char>, Seq<u8>)>,
) -> (Seq<Entry>, nat) {
    let (es, n) = state;
    if only_if_missing && any_path(es, path) {
        state
    } else {
        match asset_bytes(assets, asset) {
            Some(b) => (es.push(new_entry(path, b)), n + 1),
            None => state,
        }
    }
}

/// The files after additions, by asset, path and whether only a missing file is added, in
/// order, and the number of files added.
pub open spec fn added_all(
    es: Seq<Entry>,
    list: Seq<(Seq<char>, Seq<char>, bool)>,
    assets: Seq<(Seq<char>, Seq<u8>)>,
) -> (Seq<Entry>, nat)
    decreases list.len(),
{
    if list.len() == 0 {
        (es, 0)
    } else {
        let a = list.last();
        added_one(added_all(es, list.drop_last(), assets), a.0, a.1, a.2, assets)
    }
}

/// The additions of a plan.
pub open spec fn additions_of(v: Seq<FileAddition>) -> Seq<(Seq<char>, Seq<char>, bool)> {
    v.map_values(|a: FileAddition| (a.asset@, a.path@, a.only_if_missing))
}

/// Carry out the additions of a plan. Returns the number of files added.
pub fn apply_additions(files: &mut Vec<WadEntry>, list: &Vec<FileAddition>, assets: &AssetRegistry) -> (r: u32)
    ensures
        ({
            let w = added_all(entries(old(files)@), additions_of(list@), assets@);
            entries(final(files)@) == w.0 && r == capped(w.1)
        }),
{
    let ghost start = entries(files@);
    let ghost all = additions_of(list@);
    let mut n: u32 = 0;
    let mut i: usize = 0;
    while i < list.len()
        invariant
            all == additions_of(list@),
            i <= list@.len(),
            ({
                let w = added_all(start, all.take(i as int), assets@);
                entries(files@) == w.0 && n == capped(w.1)
            }),
        decreases list@.len() - i,
    {
        proof {
            lemma_take_next(all, i as int);
        }
        let a = &list[i];
        if !(a.only_if_missing && is_any_path(files, a.path.as_str())) {
            if let Some(bytes) = assets.get(a.asset.as_str()) {
                push_file(files, a.path.as_str(), copy_bytes(bytes));
                assert(capped(1) == 1u32);
                n = add_count(n, 1);
            }
        }
        i = i + 1;
    }
    assert(all.take(i as int) =~= all);
    n
}

/// Conversions change bytes only: no file is added, removed, moved or renamed.
pub proof fn law_conversions_keep_paths<C: Converters>(
    es: Seq<Entry>,
    list: Seq<(Seq<char>, Seq<char>)>,
    converters: C,
    quiet: bool,
)
    ensures
        converted_all(es, list, converters, quiet).0.len() == es.len(),
        forall|i: int|
            0 <= i < es.len() ==> (#[trigger] converted_all(es, list, converters, quiet).0[i]).path == es[i].path
                && converted_all(es, list, converters, quiet).0[i].hash == es[i].hash,
    decreases list.len(),
{
    if list.len() > 0 {
        law_conversions_keep_paths(es, list.drop_last(), converters, quiet);
    }
}

/// Renames change paths only: no file is added or removed, and all bytes stay. Every file
/// that a rename is planned for, and that is not to go, is filed under the hash of its
/// new path.
pub proof fn law_renames_keep_bytes(es: Seq<Entry>, list: Seq<(Seq<char>, Seq<char>)>, gone: Seq<Seq<char>>)
    ensures
        renamed_all(es, list, gone).len() == es.len(),
        forall|i: int| 0 <= i < es.len() ==> (#[trigger] renamed_all(es, list, gone)[i]).bytes == es[i].bytes,
        forall|i: int, k: int|
            0 <= i < es.len() && !gone.contains(es[i].path) && rename_at(list, es[i].path, k) ==> {
                &&& (#[trigger] renamed_all(es, list, gone)[i]).path == (#[trigger] list[k]).1
                &&& renamed_all(es, list, gone)[i].hash == path_hash(list[k].1)
            },
{
    assert forall|i: int, k: int|
        0 <= i < es.len() && !gone.contains(es[i].path) && rename_at(list, es[i].path, k) implies {
        &&& (#[trigger] renamed_all(es, list, gone)[i]).path == (#[trigger] list[k]).1
        &&& renamed_all(es, list, gone)[i].hash == path_hash(list[k].1)
    } by {
        let m = choose|m: int| rename_at(list, es[i].path, m);
        assert(rename_at(list, es[i].path, m));
        if m < k {
            assert(list[m].0 != es[i].path);
        }
        if k < m {
            assert(list[k].0 != es[i].path);
        }
    }
}

/// Additions leave the files that are there in place.
pub proof fn law_additions_keep_files(
    es: Seq<Entry>,
    list: Seq<(Seq<char>, Seq<char>, bool)>,
    assets: Seq<(Seq<char>, Seq<u8>)>,
)
    ensures
        added_all(es, list, assets).0.len() == es.len() + added_all(es, list, assets).1,
        added_all(es, list, assets).0.take(es.len() as int) == es,
    decreases list.len(),
{
    if list.len() > 0 {
        law_additions_keep_files(es, list.drop_last(), assets);
        let before = added_all(es, list.drop_last(), assets).0;
        let now = added_all(es, list, assets).0;
        assert(now.take(es.len() as int) =~= before.take(es.len() as int));
    } else {
        assert(es.take(es.len() as int) =~= es);
    }
}

proof fn lemma_path_at(es: Seq<Entry>, path: Seq<char>, i: int)
    requires
        path_at(es, path, i),
    ensures
        path_slot(es, path) == Some(i),
{
    let k = choose|k: int| path_at(es, path, k);
    assert(es[k].path == path && es[i].path == path);
    assert(k == i);
}

/// A file that no conversion names keeps its bytes. One that a single conversion names has
/// what the converter makes of them afterwards, where it makes anything.
pub proof fn law_named_files_are_converted<C: Converters>(
    es: Seq<Entry>,
    list: Seq<(Seq<char>, Seq<char>)>,
    converters: C,
    quiet: bool,
    i: int,
    k: int,
)
    requires
        0 <= i < es.len(),
    ensures
        (forall|j: int| 0 <= j < list.len() ==> (#[trigger] list[j]).0 != es[i].path) ==> converted_all(
            es,
            list,
            converters,
            quiet,
        ).0[i] == es[i],
        path_at(es, es[i].path, i) && 0 <= k < list.len() && list[k].0 == es[i].path && (forall|j: int|
            0 <= j < list.len() && j != k ==> (#[trigger] list[j]).0 != es[i].path) ==> converted_all(
            es,
            list,
            converters,
            quiet,
        ).0[i].bytes == (match converters.converted(list[k].1, es[i].bytes) {
            Some(b) => b,
            None => es[i].bytes,
        }),
    decreases list.len(),
{
    if list.len() > 0 {
        let head = list.drop_last();
        let last = list.len() - 1;
        law_named_files_are_converted(es, head, converters, quiet, i, k);
        law_conversions_keep_paths(es, head, converters, quiet);
        let before = converted_all(es, head, converters, quiet).0;
        assert(forall|j: int| 0 <= j < head.len() ==> #[trigger] head[j] == list[j]);
        if path_at(es, es[i].path, i) {
            assert(path_at(before, es[i].path, i)) by {
                assert forall|j: int| 0 <= j < i implies (#[trigger] before[j]).path != es[i].path by {
                    assert(before[j].path == es[j].path);
                }
            }
            lemma_path_at(before, es[i].path, i);
        }
        if list[last].0 != es[i].path {
            if let Some(s) = path_slot(before, list[last].0) {
                assert(path_at(before, list[last].0, s));
                assert(before[s].path != before[i].path);
            }
        } else if k == last && (forall|j: int| 0 <= j < list.len() && j != k ==> (#[trigger] list[j]).0 != es[i].path) {
            assert forall|j: int| 0 <= j < head.len() implies (#[trigger] head[j]).0 != es[i].path by {
                assert(head[j] == list[j]);
            }
            assert(before[i] == es[i]);
        }
    }
}

proof fn lemma_additions_keep<A>(a: Seq<A>, b: Seq<A>, x: A)
    requires
        b.len() >= a.len(),
        b.take(a.len() as int) == a,
        a.contains(x),
    ensures
        b.contains(x),
{
    let i = choose|i: int| 0 <= i < a.len() && a[i] == x;
    assert(b.take(a.len() as int)[i] == b[i]);
}

/// A file that is to be added stands in the archive afterwards, at its path and with the
/// bytes of its asset, where there is such an asset; one that is only for archives that
/// lack it is added where no file has its path in any case.
pub proof fn law_wanted_files_are_added(
    es: Seq<Entry>,
    list: Seq<(Seq<char>, Seq<char>, bool)>,
    assets: Seq<(Seq<char>, Seq<u8>)>,
    k: int,
)
    requires
        0 <= k < list.len(),
        asset_bytes(assets, list[k].0) is Some,
        list[k].2 ==> (forall|i: int| 0 <= i < es.len() ==> lowered((#[trigger] es[i]).path) != lowered(list[k].1)) && (forall|j: int|
            0 <= j < k ==> lowered((#[trigger] list[j]).1) != lowered(list[k].1)),
    ensures
        added_all(es, list, assets).0.contains(
            (Entry { hash: path_hash(list[k].1), path: list[k].1, bytes: asset_bytes(assets, list[k].0)->0 }),
        ),
    decreases list.len(),
{
    let head = list.drop_last();
    let before = added_all(es, head, assets);
    let after = added_all(es, list, assets);
    let x = Entry { hash: path_hash(list[k].1), path: list[k].1, bytes: asset_bytes(assets, list[k].0)->0 };
    if k < head.len() {
        assert(head[k] == list[k]);
        assert(forall|j: int| 0 <= j < head.len() ==> #[trigger] head[j] == list[j]);
        law_wanted_files_are_added(es, head, assets, k);
        assert(after.0.take(before.0.len() as int) =~= before.0);
        lemma_additions_keep(before.0, after.0, x);
    } else {
        if list[k].2 {
            assert forall|j: int| 0 <= j < head.len() implies lowered((#[trigger] head[j]).1) != lowered(list[k].1) by {
                assert(head[j] == list[j]);
            }
            lemma_added_paths(es, head, assets, list[k].1);
        }
        assert(after.0[before.0.len() as int] == x);
    }
}

proof fn lemma_added_paths(
    es: Seq<Entry>,
    list: Seq<(Seq<char>, Seq<char>, bool)>,
    assets: Seq<(Seq<char>, Seq<u8>)>,
    path: Seq<char>,
)
    requires
        forall|i: int| 0 <= i < es.len() ==> lowered((#[trigger] es[i]).path) != lowered(path),
        forall|j: int| 0 <= j < list.len() ==> lowered((#[trigger] list[j]).1) != lowered(path),
    ensures
        !any_path(added_all(es, list, assets).0, path),
    decreases list.len(),
{
    if list.len() > 0 {
        let head = list.drop_last();
        assert(forall|j: int| 0 <= j < head.len() ==> #[trigger] head[j] == list[j]);
        lemma_added_paths(es, head, assets, path);
        let before = added_all(es, head, assets).0;
        let after = added_all(es, list, assets).0;
        assert(lowered(list[list.len() - 1].1) != lowered(path));
        assert forall|i: int| 0 <= i < after.len() implies lowered((#[trigger] after[i]).path) != lowered(path) by {
            if i < before.len() {
                assert(after[i] == before[i]);
            }
        }
    }
}

/// Files that are only for archives that lack them are not added to one that has them.
pub proof fn law_present_files_are_not_added(
    es: Seq<Entry>,
    list: Seq<(Seq<char>, Seq<char>, bool)>,
    assets: Seq<(Seq<char>, Seq<u8>)>,
)
    requires
        forall|k: int|
            0 <= k < list.len() ==> (#[trigger] list[k]).2 && exists|i: int|
                0 <= i < es.len() && lowered((#[trigger] es[i]).path) == lowered(list[k].1),
    ensures
        added_all(es, list, assets) == (es, 0nat),
    decreases list.len(),
{
    if list.len() > 0 {
        let head = list.drop_last();
        assert(forall|j: int| 0 <= j < head.len() ==> #[trigger] head[j] == list[j]);
        law_present_files_are_not_added(es, head, assets);
        assert(list[list.len() - 1].2);
    }
}

} // verus!
