//! The repath stage of an archive: BIN references are rewritten, and the files they
//! refer to are moved along.

use vstd::prelude::*;
use vstd::string::*;
use crate::archive::{entries, entry, is_bin, is_bin_entry, new_entry, push_file, set_bytes, with_bytes, Entry, WadEntry};
use crate::bin::{bin, objects, tree, Bin, Tree};
use crate::hashing::{path_hash, wad_path_hash, WadHasher};
use crate::deep_repair::{bin_file, lemma_bin_file};
use crate::repath::{
    asset_path, entry_hashes, invis_tex, is_entry, law_asset_files_are_moved, law_modder_files_are_moved, link_moves,
    missing_invis_placeholders, modder_root, new_link, new_links, new_path_of, new_reference, normal_paths, not_among, noted,
    placeholder_paths, prefixed_form, relinked, repath_bin_strings, repath_wad_path, root_skin_bin, string_moves, texture_path,
    texture_paths, wad_path_moved, well_written, written_path, PathMapping, RepathLayout, RepathOptions, RepathScope, WadIndex,
};
use crate::text::{
    ascii_lowered, begins, decimal, decimal_text, ends, last_at, last_position, lemma_last_position, lemma_take_next, lemma_texts_push,
    lowered, normal, rfind_char, same, slice, texts, to_lower,
};
use crate::traits::BinProvider;
use crate::walk::{add_count, capped, hits, law_rewriting_maps_strings, rewritten_objects, strings_in_objects};

verus! {

/// The index is that of some files: their paths, normalized, and their hashes.
pub open spec fn indexes(index: WadIndex, es: Seq<Entry>) -> bool {
    &&& texts(index.paths@) == es.map_values(|e: Entry| normal(e.path))
    &&& index.hashes@ == es.map_values(|e: Entry| e.hash).to_set()
}

/// The index of some files.
pub fn index_files(files: &Vec<WadEntry>) -> (r: WadIndex)
    ensures
        indexes(r, entries(files@)),
{
    let mut pairs: Vec<(u64, String)> = Vec::new();
    let mut i: usize = 0;
    while i < files.len()
        invariant
            i <= files@.len(),
            pairs@.len() == i,
            forall|j: int| 0 <= j < i ==> (#[trigger] pairs@[j]).0 == files@[j].0 && pairs@[j].1@ == files@[j].1@,
        decreases files@.len() - i,
    {
        pairs.push((files[i].0, files[i].1.clone()));
        i = i + 1;
    }
    let r = WadIndex::from_entries(&pairs);
    proof {
        let es = entries(files@);
        assert(normal_paths(pairs@) =~= es.map_values(|e: Entry| normal(e.path)));
        assert(entry_hashes(pairs@) =~= es.map_values(|e: Entry| e.hash));
    }
    r
}

/// What repathing makes of one BIN file: its new bytes, the moves that it gives rise to,
/// and the number of references rewritten.
pub struct RepathedBin {
    pub bytes: Seq<u8>,
    pub moves: Seq<(Seq<char>, Seq<char>)>,
    pub count: nat,
}

/// The number of references of a BIN file that are rewritten.
pub open spec fn references_moved(scope: RepathScope<WadHasher>, t: Tree) -> nat {
    hits(strings_in_objects(t.objects), |s: Seq<char>| new_reference(scope, s)) + relinked(scope, t.linked)
}

/// A BIN file with its references rewritten.
pub open spec fn moved_bin(scope: RepathScope<WadHasher>, b: Bin) -> Bin {
    Bin {
        tree: Tree {
            objects: rewritten_objects(b.tree.objects, |s: Seq<char>| new_reference(scope, s)),
            linked: new_links(scope, b.tree.linked),
        },
        files: b.files,
        trailing: b.trailing,
    }
}

/// What repathing makes of a file; `None` where it is no BIN that can be read, has no
/// reference to rewrite, or cannot be written.
pub open spec fn repathed_bin<P: BinProvider>(scope: RepathScope<WadHasher>, e: Entry, provider: P) -> Option<RepathedBin> {
    if !is_bin(e) {
        None
    } else {
        match provider.parsed(e.bytes) {
            None => None,
            Some(b) => if references_moved(scope, b.tree) == 0 {
                None
            } else {
                match provider.written(moved_bin(scope, b)) {
                    None => None,
                    Some(bytes) => Some(
                        RepathedBin {
                            bytes,
                            moves: link_moves(
                                scope,
                                string_moves(scope, strings_in_objects(b.tree.objects)),
                                b.tree.linked,
                            ),
                            count: references_moved(scope, b.tree),
                        },
                    ),
                }
            },
        }
    }
}

/// The moves `m` with those of `more` added, where the old path has no move yet.
pub open spec fn with_moves(m: Seq<(Seq<char>, Seq<char>)>, more: Seq<(Seq<char>, Seq<char>)>) -> Seq<(Seq<char>, Seq<char>)>
    decreases more.len(),
{
    if more.len() == 0 {
        m
    } else {
        noted(with_moves(m, more.drop_last()), more.last().0, more.last().1)
    }
}

/// What repathing makes of the BIN files of an archive.
#[verifier::ext_equal]
pub struct RepathedFiles {
    pub files: Seq<Entry>,
    pub moves: Seq<(Seq<char>, Seq<char>)>,
    /// References rewritten.
    pub strings: nat,
    /// BIN files rewritten.
    pub touched: nat,
}

/// What repathing makes of the BIN files among some files, in order.
pub open spec fn repathed_bins<P: BinProvider>(scope: RepathScope<WadHasher>, es: Seq<Entry>, provider: P) -> RepathedFiles
    decreases es.len(),
{
    if es.len() == 0 {
        RepathedFiles { files: Seq::empty(), moves: Seq::empty(), strings: 0, touched: 0 }
    } else {
        let before = repathed_bins(scope, es.drop_last(), provider);
        let e = es.last();
        match repathed_bin(scope, e, provider) {
            None => RepathedFiles { files: before.files.push(e), ..before },
            Some(r) => RepathedFiles {
                files: before.files.push(Entry { bytes: r.bytes, ..e }),
                moves: with_moves(before.moves, r.moves),
                strings: before.strings + r.count,
                touched: before.touched + 1,
            },
        }
    }
}

/// The moves and counts of a repath run over BIN files.
pub struct BinMoves {
    pub mapping: PathMapping,
    pub strings: u32,
    pub touched: u32,
}

fn add_moves(mapping: &mut PathMapping, more: &PathMapping)
    ensures
        final(mapping)@ == with_moves(old(mapping)@, more@),
{
    let ghost base = mapping@;
    let ghost all = more@;
    let mut i: usize = 0;
    while i < more.pairs.len()
        invariant
            all == more@,
            i <= more.pairs@.len(),
            mapping@ == with_moves(base, all.take(i as int)),
        decreases more.pairs@.len() - i,
    {
        proof {
            lemma_take_next(all, i as int);
        }
        mapping.note(more.pairs[i].0.as_str(), more.pairs[i].1.as_str());
        i = i + 1;
    }
    assert(all.take(i as int) =~= all);
}

/// Rewrite the references in every BIN file of an archive.
pub fn repath_bins<P: BinProvider>(files: &mut Vec<WadEntry>, opts: &RepathOptions, index: &WadIndex, provider: &P) -> (r: BinMoves)
    ensures
        ({
            let w = repathed_bins(scope_of(*opts, *index), entries(old(files)@), *provider);
            &&& entries(final(files)@) == w.files
            &&& r.mapping@ == w.moves
            &&& r.strings == capped(w.strings)
            &&& r.touched == capped(w.touched)
        }),
{
    let ghost scope = scope_of(*opts, *index);
    let ghost es = entries(files@);
    let mut mapping = PathMapping::new();
    let mut strings: u32 = 0;
    let mut touched: u32 = 0;
    let n = files.len();
    let mut i: usize = 0;
    while i < n
        invariant
            scope == scope_of(*opts, *index),
            n == files@.len(),
            n == es.len(),
            i <= n,
            ({
                let w = repathed_bins(scope, es.take(i as int), *provider);
                &&& w.files.len() == i
                &&& forall|j: int| 0 <= j < i ==> #[trigger] entries(files@)[j] == w.files[j]
                &&& mapping@ == w.moves
                &&& strings == capped(w.strings)
                &&& touched == capped(w.touched)
            }),
            forall|j: int| i <= j < n ==> #[trigger] entries(files@)[j] == es[j],
        decreases n - i,
    {
        let ghost w = repathed_bins(scope, es.take(i as int), *provider);
        let ghost before = entries(files@);
        let ghost e = es[i as int];
        proof {
            lemma_take_next(es, i as int);
            assert(entries(files@)[i as int] == e);
            assert(entry(files@[i as int]) == e);
        }
        if is_bin_entry(&files[i]) {
            if let Ok(t) = provider.parse_bytes(files[i].2.as_slice()) {
                let mut t = t;
                let ghost b = bin(t);
                let moved = repath_bin_strings(&mut t, opts, index, &WadHasher);
                assert(bin(t) =~= moved_bin(scope, b));
                assert(moved.strings_repathed == capped(references_moved(scope, b.tree)));
                if moved.strings_repathed != 0 {
                    if let Ok(bytes) = provider.write_bytes(&t) {
                        strings = add_count(strings, moved.strings_repathed);
                        assert(strings == capped((w.strings + references_moved(scope, b.tree)) as nat));
                        assert(capped(1) == 1u32);
                        touched = add_count(touched, 1);
                        add_moves(&mut mapping, &moved.mapping);
                        let ghost new = bytes@;
                        set_bytes(files, i, bytes);
                        proof {
                            assert(entries(files@) == with_bytes(before, i as int, new));
                            assert(repathed_bin(scope, e, *provider) is Some);
                            assert(entries(files@)[i as int] =~= (Entry { bytes: new, ..e }));
                        }
                    }
                }
            }
        }
        proof {
            let now = repathed_bins(scope, es.take(i + 1), *provider);
            assert forall|j: int| 0 <= j < i + 1 implies #[trigger] entries(files@)[j] == now.files[j] by {
                if j < i {
                    assert(before[j] == w.files[j]);
                    assert(entries(files@)[j] == before[j]);
                }
            }
            assert forall|j: int| i + 1 <= j < n implies #[trigger] entries(files@)[j] == es[j] by {
                assert(before[j] == es[j]);
            }
        }
        i = i + 1;
    }
    proof {
        assert(es.take(i as int) =~= es);
        assert(entries(files@) =~= repathed_bins(scope, es, *provider).files);
    }
    BinMoves { mapping, strings, touched }
}

/// The scope of a repath run.
pub open spec fn scope_of(opts: RepathOptions, index: WadIndex) -> RepathScope<WadHasher> {
    RepathScope { prefix: opts.prefix@, layout: opts.layout, skip_vo: opts.skip_vo, index, hasher: WadHasher }
}

/// `i` is the first move of a path with this hash.
pub open spec fn is_hash_entry(m: Seq<(Seq<char>, Seq<char>)>, hash: u64, i: int) -> bool {
    0 <= i < m.len() && path_hash(m[i].0) == hash && forall|j: int| 0 <= j < i ==> path_hash((#[trigger] m[j]).0) != hash
}

/// The new path of what has this hash.
pub open spec fn new_path_of_hash(m: Seq<(Seq<char>, Seq<char>)>, hash: u64) -> Option<Seq<char>> {
    if exists|i: int| is_hash_entry(m, hash, i) {
        Some(m[choose|i: int| is_hash_entry(m, hash, i)].1)
    } else {
        None
    }
}

/// Where a file goes: by the move of its path, or else by that of its hash, or else by
/// its own path; `None` where it stays.
pub open spec fn destination(m: Seq<(Seq<char>, Seq<char>)>, e: Entry, prefix: Seq<char>, layout: RepathLayout) -> Option<Seq<char>> {
    match new_path_of(m, lowered(e.path)) {
        Some(p) => Some(p),
        None => match new_path_of_hash(m, e.hash) {
            Some(p) => Some(p),
            None => wad_path_moved(e.path, prefix, layout),
        },
    }
}

/// How often `x` stands in `s`.
pub open spec fn times(s: Seq<Seq<char>>, x: Seq<char>) -> nat
    decreases s.len(),
{
    if s.len() == 0 {
        0
    } else {
        times(s.drop_last(), x) + (if s.last() == x { 1nat } else { 0nat })
    }
}

/// A path with a number before its extension, for the second and later files that go to
/// it.
pub open spec fn numbered(path: Seq<char>, k: nat) -> Seq<char> {
    if k == 0 {
        path
    } else {
        match last_position(path, '.') {
            Some(dot) => path.subrange(0, dot) + "_"@ + decimal(k) + path.skip(dot),
            None => path + "_"@ + decimal(k),
        }
    }
}

/// What moving files has done so far.
#[verifier::ext_equal]
pub struct MovedFiles {
    pub files: Seq<Entry>,
    /// The places that were asked for, in lower case.
    pub asked: Seq<Seq<char>>,
    /// The new paths, in lower case.
    pub new_paths: Seq<Seq<char>>,
}

/// The files once each is moved to where it goes, in order.
pub open spec fn moved_files(
    m: Seq<(Seq<char>, Seq<char>)>,
    es: Seq<Entry>,
    prefix: Seq<char>,
    layout: RepathLayout,
) -> MovedFiles
    decreases es.len(),
{
    if es.len() == 0 {
        MovedFiles { files: Seq::empty(), asked: Seq::empty(), new_paths: Seq::empty() }
    } else {
        let before = moved_files(m, es.drop_last(), prefix, layout);
        let e = es.last();
        match destination(m, e, prefix, layout) {
            None => MovedFiles { files: before.files.push(e), ..before },
            Some(to) => {
                let path = numbered(to, times(before.asked, lowered(to)));
                let asked = before.asked.push(lowered(to));
                if path == e.path {
                    MovedFiles { files: before.files.push(e), asked, new_paths: before.new_paths }
                } else {
                    MovedFiles {
                        files: before.files.push(Entry { hash: path_hash(path), path, bytes: e.bytes }),
                        asked,
                        new_paths: before.new_paths.push(lowered(path)),
                    }
                }
            },
        }
    }
}

fn hash_move(mapping: &PathMapping, hash: u64) -> (r: Option<String>)
    ensures
        r is Some <==> new_path_of_hash(mapping@, hash) is Some,
        r matches Some(p) ==> new_path_of_hash(mapping@, hash) == Some(p@),
{
    let ghost m = mapping@;
    let mut i: usize = 0;
    while i < mapping.pairs.len()
        invariant
            m == mapping@,
            i <= mapping.pairs@.len(),
            forall|j: int| 0 <= j < i ==> path_hash((#[trigger] m[j]).0) != hash,
        decreases mapping.pairs@.len() - i,
    {
        assert(m[i as int].0 == mapping.pairs@[i as int].0@);
        if wad_path_hash(mapping.pairs[i].0.as_str()) == hash {
            proof {
                assert(is_hash_entry(m, hash, i as int));
                let k = choose|k: int| is_hash_entry(m, hash, k);
                assert(is_hash_entry(m, hash, k));
                if k < i {
                    assert(path_hash(m[k].0) != hash);
                }
                if i < k {
                    assert(path_hash(m[i as int].0) != hash);
                }
            }
            return Some(mapping.pairs[i].1.clone());
        }
        i = i + 1;
    }
    assert(forall|k: int| !is_hash_entry(m, hash, k));
    None
}

fn destination_of(mapping: &PathMapping, e: &WadEntry, prefix: &str, layout: RepathLayout) -> (r: Option<String>)
    ensures
        r is Some <==> destination(mapping@, entry(*e), prefix@, layout) is Some,
        r matches Some(p) ==> destination(mapping@, entry(*e), prefix@, layout) == Some(p@),
{
    let lower = to_lower(e.1.as_str());
    if let Some(p) = mapping.get(lower.as_str()) {
        return Some(p.clone());
    }
    if let Some(p) = hash_move(mapping, e.0) {
        return Some(p);
    }
    repath_wad_path(e.1.as_str(), prefix, layout)
}

fn count_times(v: &Vec<String>, x: &str) -> (r: u64)
    ensures
        r == times(texts(v@), x@),
{
    let ghost all = texts(v@);
    let mut n: u64 = 0;
    let mut i: usize = 0;
    assert(times(all.take(0), x@) == 0);
    while i < v.len()
        invariant
            all == texts(v@),
            i <= v@.len(),
            n <= i,
            n == times(all.take(i as int), x@),
        decreases v@.len() - i,
    {
        proof {
            lemma_take_next(all, i as int);
        }
        if same(v[i].as_str(), x) {
            n = n + 1;
        }
        i = i + 1;
    }
    assert(all.take(i as int) =~= all);
    n
}

fn number_path(path: &str, k: u64) -> (r: String)
    ensures
        r@ == numbered(path@, k as nat),
{
    if k == 0 {
        return path.to_owned();
    }
    let n = path.unicode_len();
    match rfind_char(path, '.') {
        Some(dot) => {
            let mut s = slice(path, 0, dot);
            s.append("_");
            s.append(decimal_text(k).as_str());
            let end = slice(path, dot, n);
            assert(end@ =~= path@.skip(dot as int));
            s.append(end.as_str());
            s
        },
        None => {
            let mut s = path.to_owned();
            s.append("_");
            s.append(decimal_text(k).as_str());
            s
        },
    }
}

/// Move every file of an archive to where it goes. Returns the new paths, in lower case.
pub fn move_files(files: &mut Vec<WadEntry>, mapping: &PathMapping, prefix: &str, layout: RepathLayout) -> (r: Vec<String>)
    ensures
        ({
            let w = moved_files(mapping@, entries(old(files)@), prefix@, layout);
            entries(final(files)@) == w.files && texts(r@) == w.new_paths
        }),
{
    let ghost m = mapping@;
    let ghost es = entries(files@);
    let mut asked: Vec<String> = Vec::new();
    let mut new_paths: Vec<String> = Vec::new();
    let n = files.len();
    let mut i: usize = 0;
    assert(texts(asked@) =~= Seq::empty());
    assert(texts(new_paths@) =~= Seq::empty());
    while i < n
        invariant
            m == mapping@,
            n == files@.len(),
            n == es.len(),
            i <= n,
            ({
                let w = moved_files(m, es.take(i as int), prefix@, layout);
                &&& w.files.len() == i
                &&& forall|j: int| 0 <= j < i ==> #[trigger] entries(files@)[j] == w.files[j]
                &&& texts(asked@) == w.asked
                &&& texts(new_paths@) == w.new_paths
            }),
            forall|j: int| i <= j < n ==> #[trigger] entries(files@)[j] == es[j],
        decreases n - i,
    {
        let ghost w = moved_files(m, es.take(i as int), prefix@, layout);
        let ghost before = entries(files@);
        let ghost e = es[i as int];
        proof {
            lemma_take_next(es, i as int);
            assert(entries(files@)[i as int] == e);
            assert(entry(files@[i as int]) == e);
        }
        if let Some(to) = destination_of(mapping, &files[i], prefix, layout) {
            let lower = to_lower(to.as_str());
            let k = count_times(&asked, lower.as_str());
            let path = number_path(to.as_str(), k);
            let ghost asked0 = asked@;
            asked.push(lower);
            proof {
                lemma_texts_push(asked0, lower);
            }
            if !same(path.as_str(), files[i].1.as_str()) {
                let new_lower = to_lower(path.as_str());
                let ghost paths0 = new_paths@;
                new_paths.push(new_lower);
                proof {
                    lemma_texts_push(paths0, new_lower);
                }
                let ghost p = path@;
                files[i].0 = wad_path_hash(path.as_str());
                files[i].1 = path;
                assert(entries(files@)[i as int] =~= (Entry { hash: path_hash(p), path: p, bytes: e.bytes }));
            }
        }
        proof {
            let now = moved_files(m, es.take(i + 1), prefix@, layout);
            assert forall|j: int| 0 <= j < i + 1 implies #[trigger] entries(files@)[j] == now.files[j] by {
                if j < i {
                    assert(before[j] == w.files[j]);
                    assert(entries(files@)[j] == before[j]);
                }
            }
            assert forall|j: int| i + 1 <= j < n implies #[trigger] entries(files@)[j] == es[j] by {
                assert(before[j] == es[j]);
            }
        }
        i = i + 1;
    }
    proof {
        assert(es.take(i as int) =~= es);
        assert(entries(files@) =~= moved_files(m, es, prefix@, layout).files);
    }
    new_paths
}

/// The paths of files, in lower case.
pub open spec fn lower_paths(es: Seq<Entry>) -> Seq<Seq<char>> {
    es.map_values(|e: Entry| lowered(e.path))
}

/// The paths of `ts` that are not among `existing`.
pub open spec fn absent(ts: Seq<Seq<char>>, existing: Seq<Seq<char>>) -> Seq<Seq<char>>
    decreases ts.len(),
{
    if ts.len() == 0 {
        Seq::empty()
    } else {
        let before = absent(ts.drop_last(), existing);
        if existing.contains(ts.last()) {
            before
        } else {
            before.push(ts.last())
        }
    }
}

/// The files with an invisible placeholder for every new texture path that no file has.
pub open spec fn with_placeholders(es: Seq<Entry>, new_paths: Seq<Seq<char>>) -> Seq<Entry> {
    es + absent(texture_paths(new_paths), lower_paths(es)).map_values(|p: Seq<char>| new_entry(p, invis_tex()))
}

proof fn lemma_absent(ts: Seq<Seq<char>>, existing: Seq<String>)
    ensures
        not_among(ts, existing) == absent(ts, texts(existing)),
    decreases ts.len(),
{
    if ts.len() > 0 {
        lemma_absent(ts.drop_last(), existing);
        crate::text::lemma_listed(existing, ts.last());
    }
}

/// Add an invisible placeholder for every new texture path that no file has.
pub fn add_placeholders(files: &mut Vec<WadEntry>, new_paths: &Vec<String>)
    ensures
        entries(final(files)@) == with_placeholders(entries(old(files)@), texts(new_paths@)),
{
    let ghost es = entries(files@);
    let mut existing: Vec<String> = Vec::new();
    let mut i: usize = 0;
    while i < files.len()
        invariant
            i <= files@.len(),
            existing@.len() == i,
            forall|j: int| 0 <= j < i ==> (#[trigger] existing@[j])@ == lowered(files@[j].1@),
        decreases files@.len() - i,
    {
        existing.push(to_lower(files[i].1.as_str()));
        i = i + 1;
    }
    assert(texts(existing@) =~= lower_paths(es));
    let list = missing_invis_placeholders(&existing, new_paths);
    let ghost add = absent(texture_paths(texts(new_paths@)), lower_paths(es));
    proof {
        lemma_absent(texture_paths(texts(new_paths@)), existing@);
        assert(placeholder_paths(list@) == add);
    }
    let ghost made = add.map_values(|p: Seq<char>| new_entry(p, invis_tex()));
    let mut k: usize = 0;
    assert(es + made.take(0) =~= es);
    while k < list.len()
        invariant
            add == placeholder_paths(list@),
            made == add.map_values(|p: Seq<char>| new_entry(p, invis_tex())),
            forall|j: int| 0 <= j < list@.len() ==> (#[trigger] list@[j]).1@ == invis_tex(),
            k <= list@.len(),
            entries(files@) == es + made.take(k as int),
        decreases list@.len() - k,
    {
        proof {
            lemma_take_next(made, k as int);
            assert(add[k as int] == list@[k as int].0@);
            assert(list@[k as int].1@ == invis_tex());
        }
        let bytes = crate::archive::copy_bytes(&list[k].1);
        push_file(files, list[k].0.as_str(), bytes);
        assert(entries(files@) =~= es + made.take(k + 1));
        k = k + 1;
    }
    assert(made.take(k as int) =~= made);
}

/// What a repath stage did.
#[derive(Clone, Copy, Debug, PartialEq, Eq, Structural)]
pub struct RepathOutcome {
    /// References rewritten.
    pub strings: u32,
    /// BIN files rewritten.
    pub touched: u32,
    /// Files renamed.
    pub renamed: u32,
}

/// A repath stage: references are rewritten, files are moved along, and placeholders are
/// added where they are asked for.
pub open spec fn repath_done<P: BinProvider>(
    opts: RepathOptions,
    index: WadIndex,
    es: Seq<Entry>,
    out: Seq<Entry>,
    provider: P,
    r: RepathOutcome,
) -> bool {
    let a = repathed_bins(scope_of(opts, index), es, provider);
    let b = moved_files(a.moves, a.files, opts.prefix@, opts.layout);
    &&& out == (if opts.invis_texture && b.new_paths.len() > 0 {
        with_placeholders(b.files, b.new_paths)
    } else {
        b.files
    })
    &&& r.strings == capped(a.strings)
    &&& r.touched == capped(a.touched)
    &&& r.renamed == capped(b.new_paths.len())
}

/// Repath an archive.
pub fn repath_archive<P: BinProvider>(files: &mut Vec<WadEntry>, opts: &RepathOptions, provider: &P) -> (r: RepathOutcome)
    ensures
        exists|index: WadIndex| #[trigger]
            indexes(index, entries(old(files)@)) && repath_done(
                *opts,
                index,
                entries(old(files)@),
                entries(final(files)@),
                *provider,
                r,
            ),
{
    let ghost es = entries(files@);
    let index = index_files(files);
    let moves = repath_bins(files, opts, &index, provider);
    let new_paths = move_files(files, &moves.mapping, opts.prefix.as_str(), opts.layout);
    assert(texts(new_paths@).len() == new_paths@.len());
    let n = new_paths.len();
    let renamed: u32 = if n >= u32::MAX as usize { u32::MAX } else { n as u32 };
    if opts.invis_texture && n > 0 {
        add_placeholders(files, &new_paths);
    }
    let r = RepathOutcome { strings: moves.strings, touched: moves.touched, renamed };
    assert(indexes(index, es));
    assert(repath_done(*opts, index, es, entries(files@), *provider, r));
    r
}

/// Moving files neither adds nor loses any, and leaves their bytes alone.
pub proof fn law_moving_keeps_bytes(
    m: Seq<(Seq<char>, Seq<char>)>,
    es: Seq<Entry>,
    prefix: Seq<char>,
    layout: RepathLayout,
)
    ensures
        moved_files(m, es, prefix, layout).files.len() == es.len(),
        forall|i: int|
            0 <= i < es.len() ==> (#[trigger] moved_files(m, es, prefix, layout).files[i]).bytes == es[i].bytes,
    decreases es.len(),
{
    if es.len() > 0 {
        law_moving_keeps_bytes(m, es.drop_last(), prefix, layout);
    }
}

/// A file that gets a new path is filed under the hash of that path.
pub proof fn law_moved_files_are_findable(
    m: Seq<(Seq<char>, Seq<char>)>,
    es: Seq<Entry>,
    prefix: Seq<char>,
    layout: RepathLayout,
    i: int,
)
    requires
        0 <= i < es.len(),
    ensures
        ({
            let e = moved_files(m, es, prefix, layout).files[i];
            e == es[i] || (e.path != es[i].path && e.hash == path_hash(e.path))
        }),
    decreases es.len(),
{
    law_moving_keeps_bytes(m, es.drop_last(), prefix, layout);
    if i < es.len() - 1 {
        law_moved_files_are_findable(m, es.drop_last(), prefix, layout, i);
    }
}

proof fn lemma_destination_none(m: Seq<(Seq<char>, Seq<char>)>, key: Seq<char>, hash: u64)
    requires
        forall|k: int| 0 <= k < m.len() ==> (#[trigger] m[k]).0 != key && path_hash(m[k].0) != hash,
    ensures
        new_path_of(m, key) is None,
        new_path_of_hash(m, hash) is None,
{
    assert(forall|k: int| !is_entry(m, key, k));
    assert(forall|k: int| !is_hash_entry(m, hash, k));
}

proof fn lemma_numbered_longer(path: Seq<char>, k: nat)
    ensures
        numbered(path, k).len() >= path.len(),
{
    if exists|i: int| last_at(path, '.', i) {
        let i = choose|i: int| last_at(path, '.', i);
        assert(last_at(path, '.', i));
    }
}

/// What moving makes of one file: it goes to its destination, numbered where earlier
/// files asked for the same place.
proof fn lemma_moved_file(m: Seq<(Seq<char>, Seq<char>)>, es: Seq<Entry>, prefix: Seq<char>, layout: RepathLayout, i: int)
    requires
        0 <= i < es.len(),
    ensures
        ({
            let w = moved_files(m, es, prefix, layout);
            let before = moved_files(m, es.take(i), prefix, layout);
            &&& w.files.len() == es.len()
            &&& destination(m, es[i], prefix, layout) matches Some(to) ==> {
                let path = numbered(to, times(before.asked, lowered(to)));
                &&& w.files[i].path == path
                &&& path != es[i].path ==> w.files[i] == new_entry(path, es[i].bytes)
                &&& path == es[i].path ==> w.files[i] == es[i]
            }
            &&& destination(m, es[i], prefix, layout) is None ==> w.files[i] == es[i]
        }),
    decreases es.len(),
{
    law_moving_keeps_bytes(m, es, prefix, layout);
    law_moving_keeps_bytes(m, es.drop_last(), prefix, layout);
    if i < es.len() - 1 {
        lemma_moved_file(m, es.drop_last(), prefix, layout, i);
        assert(es.drop_last().take(i) =~= es.take(i));
    } else {
        assert(es.take(i) =~= es.drop_last());
    }
}

proof fn lemma_nobody_asked(
    m: Seq<(Seq<char>, Seq<char>)>,
    es: Seq<Entry>,
    prefix: Seq<char>,
    layout: RepathLayout,
    place: Seq<char>,
)
    requires
        forall|j: int|
            0 <= j < es.len() ==> (destination(m, #[trigger] es[j], prefix, layout) matches Some(to) ==> lowered(to) != place),
    ensures
        times(moved_files(m, es, prefix, layout).asked, place) == 0,
    decreases es.len(),
{
    if es.len() > 0 {
        let head = es.drop_last();
        assert forall|j: int| 0 <= j < head.len() implies (destination(m, #[trigger] head[j], prefix, layout) matches Some(to)
            ==> lowered(to) != place) by {
            assert(head[j] == es[j]);
        }
        lemma_nobody_asked(m, head, prefix, layout, place);
        let before = moved_files(m, head, prefix, layout).asked;
        assert(es[es.len() - 1] == es.last());
        if let Some(to) = destination(m, es.last(), prefix, layout) {
            assert(before.push(lowered(to)).drop_last() =~= before);
        }
    }
}

/// A file at a well-written path under an asset root that no reference names moves to the
/// prefixed form of its path all the same, unless it is a BIN of a character: it has a new
/// path, and is filed under the hash of that. Where no earlier file goes to the same place
/// its new path is that form exactly.
pub proof fn law_unnamed_files_are_moved(
    m: Seq<(Seq<char>, Seq<char>)>,
    es: Seq<Entry>,
    prefix: Seq<char>,
    layout: RepathLayout,
    i: int,
    root: Seq<char>,
    segs: Seq<Seq<char>>,
)
    requires
        0 <= i < es.len(),
        es[i].path == written_path(root, segs),
        well_written(root, segs),
        prefix.len() > 0,
        begins(normal(es[i].path), "assets/"@) || begins(normal(es[i].path), "data/"@),
        !(ends(normal(es[i].path), ".bin"@) && begins(normal(es[i].path), "data/characters/"@)),
        forall|k: int| 0 <= k < m.len() ==> (#[trigger] m[k]).0 != lowered(es[i].path) && path_hash(m[k].0) != es[i].hash,
    ensures
        ({
            let out = moved_files(m, es, prefix, layout).files[i];
            let form = prefixed_form(root, segs, prefix, layout);
            &&& out.path != es[i].path
            &&& out.hash == path_hash(out.path)
            &&& out.bytes == es[i].bytes
            &&& exists|k: nat| out.path == #[trigger] numbered(form, k)
            &&& (forall|j: int|
                0 <= j < i ==> (destination(m, #[trigger] es[j], prefix, layout) matches Some(to) ==> lowered(to) != lowered(form)))
                ==> out.path == form
        }),
{
    let form = prefixed_form(root, segs, prefix, layout);
    lemma_destination_none(m, lowered(es[i].path), es[i].hash);
    law_asset_files_are_moved(root, segs, prefix, layout);
    lemma_moved_file(m, es, prefix, layout, i);
    let before = moved_files(m, es.take(i), prefix, layout);
    let k = times(before.asked, lowered(form));
    let out = moved_files(m, es, prefix, layout).files[i];
    assert(out.path == numbered(form, k));
    lemma_numbered_longer(form, k);
    reveal_strlit("/");
    reveal_strlit("ASSETS/");
    reveal_strlit("DATA/");
    reveal_strlit("assets");
    reveal_strlit("data");
    assert(ascii_lowered(root).len() == root.len());
    assert(form.len() > es[i].path.len());
    if (forall|j: int|
        0 <= j < i ==> (destination(m, #[trigger] es[j], prefix, layout) matches Some(to) ==> lowered(to) != lowered(form))) {
        assert forall|j: int| 0 <= j < es.take(i).len() implies (destination(m, #[trigger] es.take(i)[j], prefix, layout) matches Some(
            to,
        ) ==> lowered(to) != lowered(form)) by {
            assert(es.take(i)[j] == es[j]);
        }
        lemma_nobody_asked(m, es.take(i), prefix, layout, lowered(form));
    }
}

/// A file under a modder's own root that no reference names moves into a top folder with
/// the prefix all the same.
pub proof fn law_unnamed_modder_files_are_moved(
    m: Seq<(Seq<char>, Seq<char>)>,
    es: Seq<Entry>,
    prefix: Seq<char>,
    layout: RepathLayout,
    i: int,
)
    requires
        0 <= i < es.len(),
        modder_root(lowered(es[i].path)),
        modder_root(normal(es[i].path)),
        asset_path(es[i].path) is None,
        !es[i].path.contains('\\'),
        forall|k: int| 0 <= k < m.len() ==> (#[trigger] m[k]).0 != lowered(es[i].path) && path_hash(m[k].0) != es[i].hash,
    ensures
        ({
            let out = moved_files(m, es, prefix, layout).files[i];
            &&& out.path != es[i].path
            &&& out.hash == path_hash(out.path)
            &&& exists|k: nat| out.path == #[trigger] numbered(prefix + "/"@ + es[i].path, k)
        }),
{
    let form = prefix + "/"@ + es[i].path;
    lemma_destination_none(m, lowered(es[i].path), es[i].hash);
    law_modder_files_are_moved(es[i].path, prefix, layout);
    lemma_moved_file(m, es, prefix, layout, i);
    let before = moved_files(m, es.take(i), prefix, layout);
    let k = times(before.asked, lowered(form));
    assert(moved_files(m, es, prefix, layout).files[i].path == numbered(form, k));
    lemma_numbered_longer(form, k);
    reveal_strlit("/");
    assert(form.len() > es[i].path.len());
}

/// A file follows the references to it: where one is on record under its lower-case path,
/// it goes to where the first of those leads, and else, where one is on record under its
/// hash, to where the first of these leads. It is filed under the hash of its new path.
pub proof fn law_files_follow_their_references(
    m: Seq<(Seq<char>, Seq<char>)>,
    es: Seq<Entry>,
    prefix: Seq<char>,
    layout: RepathLayout,
    i: int,
    k: int,
)
    requires
        0 <= i < es.len(),
        0 <= k < m.len(),
        ({
            ||| m[k].0 == lowered(es[i].path) && forall|j: int| 0 <= j < k ==> (#[trigger] m[j]).0 != lowered(es[i].path)
            ||| (forall|j: int| 0 <= j < m.len() ==> (#[trigger] m[j]).0 != lowered(es[i].path)) && path_hash(m[k].0) == es[i].hash
                && forall|j: int| 0 <= j < k ==> path_hash((#[trigger] m[j]).0) != es[i].hash
        }),
    ensures
        exists|n: nat| moved_files(m, es, prefix, layout).files[i].path == #[trigger] numbered(m[k].1, n),
        (forall|j: int|
            0 <= j < i ==> (destination(m, #[trigger] es[j], prefix, layout) matches Some(to) ==> lowered(to) != lowered(m[k].1)))
            ==> moved_files(m, es, prefix, layout).files[i].path == m[k].1,
{
    let key = lowered(es[i].path);
    if m[k].0 == key && forall|j: int| 0 <= j < k ==> (#[trigger] m[j]).0 != key {
        assert(is_entry(m, key, k));
        let c = choose|c: int| is_entry(m, key, c);
        assert(is_entry(m, key, c));
        if c < k {
            assert(m[c].0 != key);
        }
        if k < c {
            assert(m[k].0 != key);
        }
    } else {
        assert(forall|j: int| !is_entry(m, key, j));
        let hash = es[i].hash;
        assert(is_hash_entry(m, hash, k));
        let c = choose|c: int| is_hash_entry(m, hash, c);
        assert(is_hash_entry(m, hash, c));
        if c < k {
            assert(path_hash(m[c].0) != hash);
        }
        if k < c {
            assert(path_hash(m[k].0) != hash);
        }
    }
    lemma_moved_file(m, es, prefix, layout, i);
    let before = moved_files(m, es.take(i), prefix, layout);
    let n = times(before.asked, lowered(m[k].1));
    assert(moved_files(m, es, prefix, layout).files[i].path == numbered(m[k].1, n));
    if (forall|j: int|
        0 <= j < i ==> (destination(m, #[trigger] es[j], prefix, layout) matches Some(to) ==> lowered(to) != lowered(m[k].1))) {
        assert forall|j: int| 0 <= j < es.take(i).len() implies (destination(m, #[trigger] es.take(i)[j], prefix, layout) matches Some(
            to,
        ) ==> lowered(to) != lowered(m[k].1)) by {
            assert(es.take(i)[j] == es[j]);
        }
        lemma_nobody_asked(m, es.take(i), prefix, layout, lowered(m[k].1));
    }
}

/// A number goes before the extension.
pub proof fn law_numbers_go_before_the_extension(stem: Seq<char>, ext: Seq<char>, k: nat)
    requires
        k > 0,
        !ext.contains('.'),
    ensures
        numbered(stem + "."@ + ext, 0) == stem + "."@ + ext,
        numbered(stem + "."@ + ext, k) == stem + "_"@ + decimal(k) + "."@ + ext,
{
    reveal_strlit(".");
    let path = stem + "."@ + ext;
    let n = stem.len() as int;
    assert(last_at(path, '.', n)) by {
        assert forall|j: int| n < j < path.len() implies path[j] != '.' by {
            assert(path[j] == ext[j - n - 1]);
        }
    }
    lemma_last_position(path, '.', n);
    assert(path.subrange(0, n) =~= stem);
    assert(path.skip(n) =~= "."@ + ext);
    assert(numbered(path, k) =~= stem + "_"@ + decimal(k) + "."@ + ext);
}

proof fn lemma_unread_bins<P: BinProvider>(scope: RepathScope<WadHasher>, es: Seq<Entry>, provider: P)
    requires
        forall|f: int| 0 <= f < es.len() ==> provider.parsed((#[trigger] es[f]).bytes) is None,
    ensures
        repathed_bins(scope, es, provider).files == es,
        repathed_bins(scope, es, provider).moves.len() == 0,
        repathed_bins(scope, es, provider).strings == 0,
    decreases es.len(),
{
    if es.len() > 0 {
        let head = es.drop_last();
        assert forall|f: int| 0 <= f < head.len() implies provider.parsed((#[trigger] head[f]).bytes) is None by {
            assert(head[f] == es[f]);
        }
        lemma_unread_bins(scope, head, provider);
        assert(es[es.len() - 1] == es.last());
        assert(head.push(es.last()) =~= es);
    } else {
        assert(repathed_bins(scope, es, provider).files =~= es);
    }
}

/// In a mod without a BIN that can be read every file at a well-written path under an
/// asset root is moved under the prefix, BINs of characters excepted.
pub proof fn law_mods_without_bins_are_repathed<P: BinProvider>(
    opts: RepathOptions,
    index: WadIndex,
    es: Seq<Entry>,
    out: Seq<Entry>,
    provider: P,
    r: RepathOutcome,
    i: int,
    root: Seq<char>,
    segs: Seq<Seq<char>>,
)
    requires
        repath_done(opts, index, es, out, provider, r),
        forall|f: int| 0 <= f < es.len() ==> provider.parsed((#[trigger] es[f]).bytes) is None,
        0 <= i < es.len(),
        es[i].path == written_path(root, segs),
        well_written(root, segs),
        opts.prefix@.len() > 0,
        begins(normal(es[i].path), "assets/"@) || begins(normal(es[i].path), "data/"@),
        !(ends(normal(es[i].path), ".bin"@) && begins(normal(es[i].path), "data/characters/"@)),
    ensures
        out.len() >= es.len(),
        out[i].path != es[i].path,
        out[i].hash == path_hash(out[i].path),
        out[i].bytes == es[i].bytes,
        exists|k: nat| out[i].path == #[trigger] numbered(prefixed_form(root, segs, opts.prefix@, opts.layout), k),
        i == 0 ==> out[i].path == prefixed_form(root, segs, opts.prefix@, opts.layout),
{
    let a = repathed_bins(scope_of(opts, index), es, provider);
    lemma_unread_bins(scope_of(opts, index), es, provider);
    law_unnamed_files_are_moved(a.moves, es, opts.prefix@, opts.layout, i, root, segs);
    law_moving_keeps_bytes(a.moves, es, opts.prefix@, opts.layout);
}

/// A reference of a BIN among the files leads to `to` and is on record under `key`.
pub open spec fn reference_leads<P: BinProvider>(
    scope: RepathScope<WadHasher>,
    es: Seq<Entry>,
    provider: P,
    key: Seq<char>,
    to: Seq<char>,
) -> bool {
    exists|f: int, v: Seq<char>|
        {
            &&& 0 <= f < es.len()
            &&& provider.parsed((#[trigger] es[f]).bytes) matches Some(b) && (strings_in_objects(b.tree.objects).contains(v)
                || b.tree.linked.contains(v))
            &&& #[trigger] new_reference(scope, v) == Some(to)
            &&& key == normal(v) || scope.index.actual_path(scope.hasher, v) == Some(key)
        }
}

/// Every move of a list is one of `from`.
spec fn moves_lead(m: Seq<(Seq<char>, Seq<char>)>, from: spec_fn(Seq<char>, Seq<char>) -> bool) -> bool {
    forall|k: int| 0 <= k < m.len() ==> from((#[trigger] m[k]).0, m[k].1)
}

proof fn lemma_noted_lead(
    m: Seq<(Seq<char>, Seq<char>)>,
    key: Seq<char>,
    to: Seq<char>,
    from: spec_fn(Seq<char>, Seq<char>) -> bool,
)
    requires
        moves_lead(m, from),
        from(key, to),
    ensures
        moves_lead(noted(m, key, to), from),
{
    let n = noted(m, key, to);
    assert forall|k: int| 0 <= k < n.len() implies from((#[trigger] n[k]).0, n[k].1) by {
        if k < m.len() {
            assert(n[k] == m[k]);
        }
    }
}

proof fn lemma_string_moves_lead(
    scope: RepathScope<WadHasher>,
    ss: Seq<Seq<char>>,
    from: spec_fn(Seq<char>, Seq<char>) -> bool,
)
    requires
        forall|v: Seq<char>, key: Seq<char>|
            ss.contains(v) && new_reference(scope, v) is Some && (key == normal(v) || scope.index.actual_path(scope.hasher, v) == Some(
                key,
            )) ==> #[trigger] from(key, (#[trigger] new_reference(scope, v))->0),
    ensures
        moves_lead(string_moves(scope, ss), from),
    decreases ss.len(),
{
    if ss.len() > 0 {
        let head = ss.drop_last();
        let v = ss.last();
        assert forall|w: Seq<char>| head.contains(w) implies ss.contains(w) by {
            let k = choose|k: int| 0 <= k < head.len() && head[k] == w;
            assert(ss[k] == w);
        }
        lemma_string_moves_lead(scope, head, from);
        assert(ss[ss.len() - 1] == v);
        if let Some(n) = new_reference(scope, v) {
            let before = string_moves(scope, head);
            let actual = scope.index.actual_path(scope.hasher, v)->0;
            lemma_noted_lead(before, normal(v), n, from);
            lemma_noted_lead(noted(before, normal(v), n), actual, n, from);
        }
    }
}

proof fn lemma_link_moves_lead(
    scope: RepathScope<WadHasher>,
    m: Seq<(Seq<char>, Seq<char>)>,
    ls: Seq<Seq<char>>,
    from: spec_fn(Seq<char>, Seq<char>) -> bool,
)
    requires
        moves_lead(m, from),
        forall|v: Seq<char>, key: Seq<char>|
            ls.contains(v) && new_reference(scope, v) is Some && (key == normal(v) || scope.index.actual_path(scope.hasher, v) == Some(
                key,
            )) ==> #[trigger] from(key, (#[trigger] new_reference(scope, v))->0),
    ensures
        moves_lead(link_moves(scope, m, ls), from),
    decreases ls.len(),
{
    if ls.len() > 0 {
        let head = ls.drop_last();
        let v = ls.last();
        assert forall|w: Seq<char>| head.contains(w) implies ls.contains(w) by {
            let k = choose|k: int| 0 <= k < head.len() && head[k] == w;
            assert(ls[k] == w);
        }
        lemma_link_moves_lead(scope, m, head, from);
        assert(ls[ls.len() - 1] == v);
        if let Some(n) = new_link(scope, v) {
            let before = link_moves(scope, m, head);
            let actual = scope.index.actual_path(scope.hasher, v)->0;
            assert(new_reference(scope, v) == Some(n));
            lemma_noted_lead(before, normal(v), n, from);
            lemma_noted_lead(noted(before, normal(v), n), actual, n, from);
        }
    }
}

proof fn lemma_with_moves_lead(
    m: Seq<(Seq<char>, Seq<char>)>,
    more: Seq<(Seq<char>, Seq<char>)>,
    from: spec_fn(Seq<char>, Seq<char>) -> bool,
)
    requires
        moves_lead(m, from),
        moves_lead(more, from),
    ensures
        moves_lead(with_moves(m, more), from),
    decreases more.len(),
{
    if more.len() > 0 {
        let head = more.drop_last();
        assert forall|k: int| 0 <= k < head.len() implies from((#[trigger] head[k]).0, head[k].1) by {
            assert(head[k] == more[k]);
        }
        lemma_with_moves_lead(m, head, from);
        assert(from(more[more.len() - 1].0, more[more.len() - 1].1));
        lemma_noted_lead(with_moves(m, head), more.last().0, more.last().1, from);
    }
}

/// Every move on record comes from a reference of some BIN of the archive, and leads to
/// where that reference leads.
pub proof fn law_moves_come_from_references<P: BinProvider>(
    scope: RepathScope<WadHasher>,
    es: Seq<Entry>,
    provider: P,
    k: int,
)
    requires
        0 <= k < repathed_bins(scope, es, provider).moves.len(),
    ensures
        reference_leads(
            scope,
            es,
            provider,
            repathed_bins(scope, es, provider).moves[k].0,
            repathed_bins(scope, es, provider).moves[k].1,
        ),
{
    let from = |key: Seq<char>, to: Seq<char>| reference_leads(scope, es, provider, key, to);
    lemma_bins_lead(scope, es, es.len() as int, provider, from);
    assert(es.take(es.len() as int) =~= es);
    let m = repathed_bins(scope, es, provider).moves;
    assert(from(m[k].0, m[k].1));
}

proof fn lemma_bins_lead<P: BinProvider>(
    scope: RepathScope<WadHasher>,
    es: Seq<Entry>,
    n: int,
    provider: P,
    from: spec_fn(Seq<char>, Seq<char>) -> bool,
)
    requires
        0 <= n <= es.len(),
        from == (|key: Seq<char>, to: Seq<char>| reference_leads(scope, es, provider, key, to)),
    ensures
        moves_lead(repathed_bins(scope, es.take(n), provider).moves, from),
    decreases n,
{
    if n > 0 {
        lemma_bins_lead(scope, es, n - 1, provider, from);
        lemma_take_next(es, n - 1);
        let e = es[n - 1];
        if let Some(r) = repathed_bin(scope, e, provider) {
            let b = provider.parsed(e.bytes)->0;
            let ss = strings_in_objects(b.tree.objects);
            assert forall|v: Seq<char>, key: Seq<char>|
                (ss.contains(v) || b.tree.linked.contains(v)) && new_reference(scope, v) is Some && (key == normal(v)
                    || scope.index.actual_path(scope.hasher, v) == Some(key)) implies #[trigger] from(
                key,
                (#[trigger] new_reference(scope, v))->0,
            ) by {
                assert(provider.parsed(es[n - 1].bytes) == Some(b));
            }
            lemma_string_moves_lead(scope, ss, from);
            lemma_link_moves_lead(scope, string_moves(scope, ss), b.tree.linked, from);
            lemma_with_moves_lead(repathed_bins(scope, es.take(n - 1), provider).moves, r.moves, from);
        }
    }
}

/// A BIN that can be read, has a reference to move and can be written again is written
/// with each of its strings and links as the move leaves it, in its place and order. What
/// it holds besides stays, and so does every other file.
pub proof fn law_bins_are_rewritten<P: BinProvider>(scope: RepathScope<WadHasher>, es: Seq<Entry>, provider: P, i: int)
    requires
        0 <= i < es.len(),
    ensures
        ({
            let out = repathed_bins(scope, es, provider).files;
            &&& out.len() == es.len()
            &&& out[i].path == es[i].path && out[i].hash == es[i].hash
            &&& provider.parsed(es[i].bytes) is None ==> out[i] == es[i]
            &&& out[i].bytes != es[i].bytes ==> provider.parsed(es[i].bytes) is Some && exists|c: Bin| #[trigger]
                provider.written(c) == Some(out[i].bytes) && references_follow(scope, provider.parsed(es[i].bytes)->0, c)
            &&& bin_file(es[i]) && (provider.parsed(es[i].bytes) matches Some(b) && exists|v: Seq<char>|
                strings_in_objects(b.tree.objects).contains(v) && #[trigger] new_reference(scope, v) is Some) ==> exists|c: Bin| #[trigger]
                references_follow(scope, provider.parsed(es[i].bytes)->0, c) && (provider.written(c) is Some ==> Some(out[i].bytes)
                    == provider.written(c))
        }),
    decreases es.len(),
{
    let out = repathed_bins(scope, es, provider).files;
    lemma_bins_count(scope, es, provider);
    lemma_bins_count(scope, es.drop_last(), provider);
    if i < es.len() - 1 {
        law_bins_are_rewritten(scope, es.drop_last(), provider, i);
        assert(es.drop_last()[i] == es[i]);
        assert(out[i] == repathed_bins(scope, es.drop_last(), provider).files[i]);
    } else {
        let e = es[i];
        assert(es.last() == e);
        lemma_bin_file(e);
        if let Some(b) = provider.parsed(e.bytes) {
            let f = |s: Seq<char>| new_reference(scope, s);
            let c = moved_bin(scope, b);
            let ss = strings_in_objects(b.tree.objects);
            law_rewriting_maps_strings(b.tree.objects, f);
            assert(references_follow(scope, b, c)) by {
                assert forall|j: int| 0 <= j < ss.len() implies #[trigger] strings_in_objects(c.tree.objects)[j] == match new_reference(
                    scope,
                    ss[j],
                ) {
                    Some(t) => t,
                    None => ss[j],
                } by {
                    assert(f(ss[j]) == new_reference(scope, ss[j]));
                }
            }
            if exists|v: Seq<char>| ss.contains(v) && #[trigger] new_reference(scope, v) is Some {
                let v = choose|v: Seq<char>| ss.contains(v) && #[trigger] new_reference(scope, v) is Some;
                let k = choose|k: int| 0 <= k < ss.len() && ss[k] == v;
                lemma_hit(ss, f, k);
            }
        }
    }
}

/// The BIN `c` is the BIN `b` with each string and link as the move leaves it.
pub open spec fn references_follow(scope: RepathScope<WadHasher>, b: Bin, c: Bin) -> bool {
    let before = strings_in_objects(b.tree.objects);
    let after = strings_in_objects(c.tree.objects);
    &&& after.len() == before.len()
    &&& forall|j: int|
        0 <= j < before.len() ==> #[trigger] after[j] == match new_reference(scope, before[j]) {
            Some(t) => t,
            None => before[j],
        }
    &&& c.tree.linked.len() == b.tree.linked.len()
    &&& forall|j: int|
        0 <= j < b.tree.linked.len() ==> #[trigger] c.tree.linked[j] == match new_reference(scope, b.tree.linked[j]) {
            Some(t) => if root_skin_bin(b.tree.linked[j]) { b.tree.linked[j] } else { t },
            None => b.tree.linked[j],
        }
    &&& c.files == b.files
    &&& c.trailing == b.trailing
}

proof fn lemma_hit(ss: Seq<Seq<char>>, f: spec_fn(Seq<char>) -> Option<Seq<char>>, k: int)
    requires
        0 <= k < ss.len(),
        f(ss[k]) is Some,
    ensures
        hits(ss, f) > 0,
    decreases ss.len(),
{
    if k < ss.len() - 1 {
        lemma_hit(ss.drop_last(), f, k);
    }
}

proof fn lemma_bins_count<P: BinProvider>(scope: RepathScope<WadHasher>, es: Seq<Entry>, provider: P)
    ensures
        repathed_bins(scope, es, provider).files.len() == es.len(),
    decreases es.len(),
{
    if es.len() > 0 {
        lemma_bins_count(scope, es.drop_last(), provider);
    }
}

proof fn lemma_texture_paths(refs: Seq<Seq<char>>, i: int)
    requires
        0 <= i < refs.len(),
        texture_path(refs[i]) is Some,
    ensures
        texture_paths(refs).contains(texture_path(refs[i])->0),
    decreases refs.len(),
{
    let before = texture_paths(refs.drop_last());
    let now = texture_paths(refs);
    let t = texture_path(refs[i])->0;
    if i < refs.len() - 1 {
        lemma_texture_paths(refs.drop_last(), i);
        let k = choose|k: int| 0 <= k < before.len() && before[k] == t;
        assert(now[k] == t);
    } else if !before.contains(t) {
        assert(now[now.len() - 1] == t);
    }
}

proof fn lemma_absent_contains(ts: Seq<Seq<char>>, existing: Seq<Seq<char>>, t: Seq<char>)
    ensures
        absent(ts, existing).contains(t) <==> ts.contains(t) && !existing.contains(t),
    decreases ts.len(),
{
    if ts.len() > 0 {
        let head = ts.drop_last();
        let before = absent(head, existing);
        let now = absent(ts, existing);
        lemma_absent_contains(head, existing, t);
        if now.contains(t) {
            let k = choose|k: int| 0 <= k < now.len() && now[k] == t;
            if k < before.len() {
                assert(before[k] == t);
                let j = choose|j: int| 0 <= j < head.len() && head[j] == t;
                assert(ts[j] == t);
            } else {
                assert(ts[ts.len() - 1] == t);
            }
        }
        if ts.contains(t) && !existing.contains(t) {
            let j = choose|j: int| 0 <= j < ts.len() && ts[j] == t;
            if j < head.len() {
                assert(head[j] == t);
                let k = choose|k: int| 0 <= k < before.len() && before[k] == t;
                assert(now[k] == t);
            } else {
                assert(now[now.len() - 1] == t);
            }
        }
    }
}

/// With placeholders, every texture among the new paths is there as a `.tex` afterwards,
/// also one that is called `.dds`; whatever is added holds the invisible texture, and the
/// files that were there stay.
pub proof fn law_moved_textures_have_a_file(es: Seq<Entry>, new_paths: Seq<Seq<char>>, i: int, stem: Seq<char>)
    requires
        0 <= i < new_paths.len(),
        lowered(new_paths[i]) == stem + ".dds"@ || lowered(new_paths[i]) == stem + ".tex"@,
    ensures
        ({
            let out = with_placeholders(es, new_paths);
            &&& out.len() >= es.len() && out.take(es.len() as int) == es
            &&& exists|k: int| 0 <= k < out.len() && (lowered((#[trigger] out[k]).path) == stem + ".tex"@ || out[k] == new_entry(
                stem + ".tex"@,
                invis_tex(),
            ))
            &&& forall|k: int| es.len() <= k < out.len() ==> (#[trigger] out[k]).bytes == invis_tex()
        }),
{
    reveal_strlit(".dds");
    reveal_strlit(".tex");
    let p = lowered(new_paths[i]);
    let t = stem + ".tex"@;
    let d = stem + ".dds"@;
    assert(d.subrange(d.len() - 4, d.len() as int) =~= ".dds"@);
    assert(d.subrange(0, d.len() - 4) =~= stem);
    assert(t.subrange(t.len() - 4, t.len() as int) =~= ".tex"@);
    assert(".dds"@[1] == 'd' && ".tex"@[1] == 't');
    assert(texture_path(new_paths[i]) == Some(t));
    lemma_texture_paths(new_paths, i);
    let ts = texture_paths(new_paths);
    let existing = lower_paths(es);
    lemma_absent_contains(ts, existing, t);
    let add = absent(ts, existing);
    let made = add.map_values(|p: Seq<char>| new_entry(p, invis_tex()));
    let out = with_placeholders(es, new_paths);
    assert(out =~= es + made);
    assert(out.take(es.len() as int) =~= es);
    if existing.contains(t) {
        let k = choose|k: int| 0 <= k < existing.len() && existing[k] == t;
        assert(lowered(out[k].path) == t);
    } else {
        let k = choose|k: int| 0 <= k < add.len() && add[k] == t;
        assert(out[es.len() + k] == new_entry(t, invis_tex()));
    }
}

} // verus!
