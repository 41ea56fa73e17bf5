//! The fix rules on the BIN files of an archive, one after the other.

use std::collections::{HashMap, HashSet};
use vstd::prelude::*;
use vstd::string::*;
use crate::archive::{
    entries, entry, find_hash, find_path, hash_at, hash_slot, new_entry, path_at, path_slot, push_file, set_bytes, with_bytes, Entry, WadEntry,
};
use crate::bin::{bin, Bin, BinTree};
use crate::config::{FixConfig, FixPhase};
use crate::context::{BinScope, CharacterRelations, FixContext};
use crate::hashing::{path_hash, wad_path_hash};
use crate::pipeline::{apply_fixes_in_phase, phase_done};
use crate::process::linked::{bin_at, bin_slot, bins, copy_table, find_bin};
use crate::reachability::Reachability;
use crate::result::{merged, ProcessResult};
use crate::skinlite::copy_tree;
use crate::text::{lemma_push_contains, lemma_take_next, same, texts};
use crate::traits::{BinProvider, GameProvider, HashProvider, WadProvider};

verus! {

/// What all files of a run share.
pub struct Session<'a, H: HashProvider, W: WadProvider, G: GameProvider, P: BinProvider> {
    pub config: &'a FixConfig,
    pub selected_fixes: &'a Vec<String>,
    pub champions: &'a CharacterRelations,
    pub hashes: &'a H,
    /// What the archive held when it was opened.
    pub wad: &'a W,
    pub game: Option<&'a G>,
    /// The valid shaders, where a list of them is available.
    pub valid_shaders: Option<&'a HashSet<u32>>,
    pub provider: &'a P,
    /// What the mod loads, where that is known.
    pub reachable: Option<&'a Reachability>,
    pub animation_bins: Option<&'a HashMap<u64, u32>>,
    pub dry_run: bool,
}

/// A session on one BIN file, before any rule has run.
pub open spec fn fresh<H: HashProvider, W: WadProvider, G: GameProvider, P: BinProvider>(
    s: Session<H, W, G, P>,
    ctx: FixContext<H, W, G>,
    path: Seq<char>,
    hash: u64,
    b: Bin,
    shelf: Seq<(Seq<char>, Bin)>,
) -> bool {
    &&& bin(ctx.tree) == b
    &&& ctx.hashes == s.hashes
    &&& ctx.wad == s.wad
    &&& ctx.champions == s.champions
    &&& ctx.file_path@ == path
    &&& ctx.files_to_remove@.len() == 0
    &&& bins(ctx.linked_trees@) == shelf
    &&& ctx.valid_shaders == s.valid_shaders
    &&& ctx.game == s.game
    &&& ctx.additional_bins@.len() == 0
    &&& ctx.scope == (BinScope { chunk_hash: hash, reachable: s.reachable, animation_bins: s.animation_bins })
    &&& ctx.renames@.len() == 0
}

/// The files with a BIN file written in the place of the one at its path. One that cannot
/// be written leaves the file as it is.
pub open spec fn rewritten<P: BinProvider>(es: Seq<Entry>, path: Seq<char>, b: Bin, provider: P) -> Seq<Entry> {
    match (provider.written(b), path_slot(es, path)) {
        (Some(bytes), Some(i)) => with_bytes(es, i, bytes),
        _ => es,
    }
}

/// The files with BIN files that were split off: each takes the place of a file under
/// the same hash, or is new.
pub open spec fn with_split<P: BinProvider>(es: Seq<Entry>, split: Seq<(Seq<char>, Bin)>, provider: P) -> Seq<Entry>
    decreases split.len(),
{
    if split.len() == 0 {
        es
    } else {
        let before = with_split(es, split.drop_last(), provider);
        let (path, b) = split.last();
        match provider.written(b) {
            Some(bytes) => match hash_slot(before, path_hash(path)) {
                Some(i) => with_bytes(before, i, bytes),
                None => before.push(new_entry(path, bytes)),
            },
            None => before,
        }
    }
}

/// The files after the rules have run on one BIN file.
pub open spec fn kept<H: HashProvider, W: WadProvider, G: GameProvider, P: BinProvider>(
    es: Seq<Entry>,
    after: FixContext<H, W, G>,
    fixes_applied: u32,
    dry_run: bool,
    provider: P,
) -> Seq<Entry> {
    if dry_run {
        es
    } else {
        with_split(
            if fixes_applied > 0 {
                rewritten(es, after.file_path@, bin(after.tree), provider)
            } else {
                es
            },
            bins(after.additional_bins@),
            provider,
        )
    }
}

/// The rules of a phase have run on the BIN file at a path: `r` tells what they did,
/// `removed` which files they want gone, and the files are kept accordingly.
pub open spec fn bin_done<H: HashProvider, W: WadProvider, G: GameProvider, P: BinProvider>(
    s: Session<H, W, G, P>,
    phase: FixPhase,
    item: BinItem,
    shelf: Seq<(Seq<char>, Bin)>,
    es: Seq<Entry>,
    out: Seq<Entry>,
    removed: Seq<Seq<char>>,
    r: ProcessResult,
) -> bool {
    exists|before: FixContext<H, W, G>, after: FixContext<H, W, G>|
        {
            &&& #[trigger] fresh(s, before, item.path, item.hash, item.bin, shelf)
            &&& #[trigger] phase_done(*s.config, texts(s.selected_fixes@), phase, s.dry_run, before, after, r)
            &&& after.file_path == before.file_path
            &&& out == kept(es, after, r.fixes_applied, s.dry_run, *s.provider)
            &&& removed == texts(after.files_to_remove@)
        }
}

/// A BIN file to run the rules on.
#[verifier::ext_equal]
pub struct BinItem {
    pub path: Seq<char>,
    pub hash: u64,
    pub bin: Bin,
}

fn store_split<P: BinProvider>(files: &mut Vec<WadEntry>, split: &Vec<(String, BinTree)>, provider: &P)
    ensures
        entries(final(files)@) == with_split(entries(old(files)@), bins(split@), *provider),
{
    let ghost start = entries(files@);
    let ghost all = bins(split@);
    let mut i: usize = 0;
    while i < split.len()
        invariant
            all == bins(split@),
            i <= split@.len(),
            entries(files@) == with_split(start, all.take(i as int), *provider),
        decreases split@.len() - i,
    {
        proof {
            lemma_take_next(all, i as int);
            assert(all[i as int] == (split@[i as int].0@, bin(split@[i as int].1)));
        }
        let path = split[i].0.as_str();
        if let Ok(bytes) = provider.write_bytes(&split[i].1) {
            match find_hash(files, wad_path_hash(path)) {
                Some(k) => set_bytes(files, k, bytes),
                None => push_file(files, path, bytes),
            }
        }
        i = i + 1;
    }
    assert(all.take(i as int) =~= all);
}

/// Run the rules of a phase on one BIN file of the archive, and keep what they did.
pub fn fix_bin<H: HashProvider, W: WadProvider, G: GameProvider, P: BinProvider>(
    s: &Session<H, W, G, P>,
    phase: FixPhase,
    path: &str,
    hash: u64,
    tree: BinTree,
    linked: &Vec<(String, BinTree)>,
    files: &mut Vec<WadEntry>,
    removals: &mut Vec<String>,
) -> (r: ProcessResult)
    ensures
        exists|removed: Seq<Seq<char>>|
            {
                &&& #[trigger] bin_done(
                    *s,
                    phase,
                    BinItem { path: path@, hash, bin: bin(tree) },
                    bins(linked@),
                    entries(old(files)@),
                    entries(final(files)@),
                    removed,
                    r,
                )
                &&& texts(final(removals)@) == texts(old(removals)@) + removed
            },
        s.dry_run ==> entries(final(files)@) == entries(old(files)@),
{
    let ghost start = entries(files@);
    let ghost removals0 = removals@;
    let ghost item = BinItem { path: path@, hash, bin: bin(tree) };
    let mut ctx: FixContext<H, W, G> = FixContext {
        tree,
        hashes: s.hashes,
        wad: s.wad,
        champions: s.champions,
        file_path: path.to_owned(),
        files_to_remove: Vec::new(),
        linked_trees: copy_table(linked),
        valid_shaders: s.valid_shaders,
        game: s.game,
        additional_bins: Vec::new(),
        scope: BinScope { chunk_hash: hash, reachable: s.reachable, animation_bins: s.animation_bins },
        renames: Vec::new(),
    };
    let ghost before = ctx;
    assert(fresh(*s, before, path@, hash, item.bin, bins(linked@)));
    let r = apply_fixes_in_phase(&mut ctx, s.config, s.selected_fixes, s.dry_run, phase);
    let ghost after = ctx;
    proof {
        crate::pipeline::lemma_phase_keeps_path(
            *s.config,
            texts(s.selected_fixes@),
            phase,
            s.dry_run,
            before,
            after,
            r,
        );
    }
    if !s.dry_run {
        if r.fixes_applied > 0 {
            if let Ok(bytes) = s.provider.write_bytes(&ctx.tree) {
                if let Some(i) = find_path(files, path) {
                    set_bytes(files, i, bytes);
                }
            }
        }
        store_split(files, &ctx.additional_bins, s.provider);
    }
    let ghost gone = texts(ctx.files_to_remove@);
    removals.append(&mut ctx.files_to_remove);
    proof {
        assert(texts(removals@) =~= texts(removals0) + gone);
        assert(entries(files@) == kept(start, after, r.fixes_applied, s.dry_run, *s.provider));
        assert(fresh(*s, before, item.path, item.hash, item.bin, bins(linked@)));
        assert(phase_done(*s.config, texts(s.selected_fixes@), phase, s.dry_run, before, after, r));
        assert(after.file_path == before.file_path);
        assert(gone == texts(after.files_to_remove@));
        assert(bin_done(*s, phase, item, bins(linked@), start, entries(files@), gone, r));
    }
    r
}

/// The BIN files to run the rules on: those that the mod ships under their own path and
/// that could be read, each path once, in order.
pub open spec fn bin_items(chunks: Seq<Entry>, table: Seq<(Seq<char>, Bin)>) -> Seq<BinItem>
    decreases chunks.len(),
{
    if chunks.len() == 0 {
        Seq::empty()
    } else {
        let before = bin_items(chunks.drop_last(), table);
        let c = chunks.last();
        if has_item(before, c.path) {
            before
        } else {
            match bin_slot(table, c.path) {
                Some(k) => before.push(BinItem { path: c.path, hash: c.hash, bin: table[k].1 }),
                None => before,
            }
        }
    }
}

/// One of the items has this path.
pub open spec fn has_item(items: Seq<BinItem>, path: Seq<char>) -> bool {
    exists|i: int| 0 <= i < items.len() && (#[trigger] items[i]).path == path
}

/// The files, the paths to remove, and what was done so far.
pub struct Progress {
    pub files: Seq<Entry>,
    pub removed: Seq<Seq<char>>,
    pub result: ProcessResult,
}

/// One BIN file more.
pub open spec fn progressed<H: HashProvider, W: WadProvider, G: GameProvider, P: BinProvider>(
    s: Session<H, W, G, P>,
    phase: FixPhase,
    item: BinItem,
    shelf: Seq<(Seq<char>, Bin)>,
    a: Progress,
    b: Progress,
) -> bool {
    exists|removed: Seq<Seq<char>>, r: ProcessResult|
        {
            &&& #[trigger] bin_done(s, phase, item, shelf, a.files, b.files, removed, r)
            &&& b.removed == a.removed + removed
            &&& merged(a.result, r, b.result)
        }
}

/// The rules of a phase have run on the items in order, through the states `trail`.
pub open spec fn trailed<H: HashProvider, W: WadProvider, G: GameProvider, P: BinProvider>(
    s: Session<H, W, G, P>,
    phase: FixPhase,
    items: Seq<BinItem>,
    shelf: Seq<(Seq<char>, Bin)>,
    trail: Seq<Progress>,
) -> bool {
    &&& trail.len() == items.len() + 1
    &&& forall|i: int|
        0 <= i < items.len() ==> #[trigger] progressed(s, phase, items[i], shelf, trail[i], trail[i + 1])
}

/// The rules of a phase have run on the items in order.
pub open spec fn bins_done<H: HashProvider, W: WadProvider, G: GameProvider, P: BinProvider>(
    s: Session<H, W, G, P>,
    phase: FixPhase,
    items: Seq<BinItem>,
    shelf: Seq<(Seq<char>, Bin)>,
    a: Progress,
    b: Progress,
) -> bool {
    exists|trail: Seq<Progress>|
        #[trigger] trailed(s, phase, items, shelf, trail) && trail[0] == a && trail[items.len() as int] == b
}

fn is_done(done: &Vec<String>, path: &str, Ghost(items): Ghost<Seq<BinItem>>) -> (r: bool)
    requires
        done@.len() == items.len(),
        forall|i: int| 0 <= i < items.len() ==> (#[trigger] done@[i])@ == items[i].path,
    ensures
        r == has_item(items, path@),
{
    let mut i: usize = 0;
    while i < done.len()
        invariant
            done@.len() == items.len(),
            forall|j: int| 0 <= j < items.len() ==> (#[trigger] done@[j])@ == items[j].path,
            i <= done@.len(),
            forall|j: int| 0 <= j < i ==> (#[trigger] items[j]).path != path@,
        decreases done@.len() - i,
    {
        assert(done@[i as int]@ == items[i as int].path);
        if same(done[i].as_str(), path) {
            return true;
        }
        i = i + 1;
    }
    false
}

/// Run the rules of a phase on the BIN files that the mod ships.
pub fn fix_bins<H: HashProvider, W: WadProvider, G: GameProvider, P: BinProvider>(
    s: &Session<H, W, G, P>,
    phase: FixPhase,
    chunks: &Vec<WadEntry>,
    table: &Vec<(String, BinTree)>,
    linked: &Vec<(String, BinTree)>,
    files: &mut Vec<WadEntry>,
    removals: &mut Vec<String>,
    result: &mut ProcessResult,
)
    ensures
        bins_done(
            *s,
            phase,
            bin_items(entries(chunks@), bins(table@)),
            bins(linked@),
            (Progress { files: entries(old(files)@), removed: texts(old(removals)@), result: *old(result) }),
            (Progress { files: entries(final(files)@), removed: texts(final(removals)@), result: *final(result) }),
        ),
        s.dry_run ==> entries(final(files)@) == entries(old(files)@),
{
    let ghost cs = entries(chunks@);
    let ghost t = bins(table@);
    let ghost shelf = bins(linked@);
    let ghost mut trail: Seq<Progress> = seq![
        Progress { files: entries(files@), removed: texts(removals@), result: *result },
    ];
    let mut done: Vec<String> = Vec::new();
    let mut i: usize = 0;
    assert(cs.take(0) =~= Seq::empty());
    while i < chunks.len()
        invariant
            cs == entries(chunks@),
            t == bins(table@),
            shelf == bins(linked@),
            i <= chunks@.len(),
            done@.len() == bin_items(cs.take(i as int), t).len(),
            forall|j: int|
                0 <= j < done@.len() ==> (#[trigger] done@[j])@ == bin_items(cs.take(i as int), t)[j].path,
            trailed(*s, phase, bin_items(cs.take(i as int), t), shelf, trail),
            trail[0] == (Progress {
                files: entries(old(files)@),
                removed: texts(old(removals)@),
                result: *old(result),
            }),
            trail[bin_items(cs.take(i as int), t).len() as int] == (Progress {
                files: entries(files@),
                removed: texts(removals@),
                result: *result,
            }),
            s.dry_run ==> entries(files@) == entries(old(files)@),
        decreases chunks@.len() - i,
    {
        let ghost items = bin_items(cs.take(i as int), t);
        proof {
            lemma_take_next(cs, i as int);
            assert(cs[i as int] == entry(chunks@[i as int]));
        }
        let path = chunks[i].1.as_str();
        if !is_done(&done, path, Ghost(items)) {
            if let Some(k) = find_bin(table, path) {
                let ghost a = trail[items.len() as int];
                let tree = copy_tree(&table[k].1);
                let ghost item = BinItem { path: path@, hash: chunks@[i as int].0, bin: t[k as int].1 };
                assert(bin(tree) == t[k as int].1);
                let r = fix_bin(s, phase, path, chunks[i].0, tree, linked, files, removals);
                let ghost before = *result;
                result.merge(r);
                done.push(path.to_owned());
                proof {
                    let b = Progress { files: entries(files@), removed: texts(removals@), result: *result };
                    assert(merged(a.result, r, b.result));
                    let removed = choose|removed: Seq<Seq<char>>|
                        {
                            &&& #[trigger] bin_done(*s, phase, item, shelf, a.files, b.files, removed, r)
                            &&& b.removed == a.removed + removed
                        };
                    assert(bin_done(*s, phase, item, shelf, a.files, b.files, removed, r));
                    assert(progressed(*s, phase, item, shelf, a, b));
                    let longer = trail.push(b);
                    let now = items.push(item);
                    assert forall|j: int| 0 <= j < now.len() implies #[trigger] progressed(
                        *s,
                        phase,
                        now[j],
                        shelf,
                        longer[j],
                        longer[j + 1],
                    ) by {
                        if j < items.len() {
                            assert(progressed(*s, phase, items[j], shelf, trail[j], trail[j + 1]));
                        }
                    }
                    assert(bin_items(cs.take(i + 1), t) == now);
                    trail = longer;
                }
            }
        }
        i = i + 1;
    }
    assert(cs.take(i as int) =~= cs);
}

/// Every chunk whose BIN was read is repaired, as the table has it and under its hash, and
/// each path once.
pub proof fn law_every_read_bin_is_repaired(chunks: Seq<Entry>, table: Seq<(Seq<char>, Bin)>, c: int, k: int)
    requires
        0 <= c < chunks.len(),
        bin_at(table, chunks[c].path, k),
        forall|j: int| 0 <= j < c ==> (#[trigger] chunks[j]).path != chunks[c].path,
    ensures
        bin_items(chunks, table).contains((BinItem { path: chunks[c].path, hash: chunks[c].hash, bin: table[k].1 })),
    decreases chunks.len(),
{
    let head = chunks.drop_last();
    let item = BinItem { path: chunks[c].path, hash: chunks[c].hash, bin: table[k].1 };
    lemma_push_contains(
        bin_items(head, table),
        BinItem { path: chunks.last().path, hash: chunks.last().hash, bin: table[k].1 },
        item,
    );
    if c < head.len() {
        assert(head[c] == chunks[c]);
        assert(forall|j: int| 0 <= j < head.len() ==> #[trigger] head[j] == chunks[j]);
        law_every_read_bin_is_repaired(head, table, c, k);
        if let Some(m) = bin_slot(table, chunks.last().path) {
            lemma_push_contains(
                bin_items(head, table),
                BinItem { path: chunks.last().path, hash: chunks.last().hash, bin: table[m].1 },
                item,
            );
        }
    } else {
        let m = choose|m: int| bin_at(table, chunks[c].path, m);
        assert(table[m].0 == table[k].0);
        assert(m == k);
        assert(!has_item(bin_items(head, table), chunks[c].path)) by {
            if has_item(bin_items(head, table), chunks[c].path) {
                let n = choose|n: int| 0 <= n < bin_items(head, table).len() && (#[trigger] bin_items(head, table)[n]).path == chunks[c].path;
                lemma_items_from_chunks(head, table, n);
                let j = choose|j: int| 0 <= j < head.len() && (#[trigger] head[j]).path == chunks[c].path;
                assert(head[j] == chunks[j]);
            }
        }
    }
}

proof fn lemma_items_from_chunks(chunks: Seq<Entry>, table: Seq<(Seq<char>, Bin)>, n: int)
    requires
        0 <= n < bin_items(chunks, table).len(),
    ensures
        exists|j: int| 0 <= j < chunks.len() && (#[trigger] chunks[j]).path == bin_items(chunks, table)[n].path,
    decreases chunks.len(),
{
    if chunks.len() > 0 {
        let head = chunks.drop_last();
        let before = bin_items(head, table);
        if n < before.len() {
            lemma_items_from_chunks(head, table, n);
            let j = choose|j: int| 0 <= j < head.len() && (#[trigger] head[j]).path == before[n].path;
            assert(chunks[j].path == before[n].path);
        } else {
            assert(chunks[chunks.len() - 1].path == bin_items(chunks, table)[n].path);
        }
    }
}

/// A BIN that was split off stands in the archive under the hash of its path, with the bytes
/// that it is written as, where none after it has the same hash.
pub proof fn law_split_bins_are_stored<P: BinProvider>(es: Seq<Entry>, split: Seq<(Seq<char>, Bin)>, provider: P, k: int)
    requires
        0 <= k < split.len(),
        provider.written(split[k].1) is Some,
        forall|j: int| k < j < split.len() ==> path_hash((#[trigger] split[j]).0) != path_hash(split[k].0),
    ensures
        holds_bytes(with_split(es, split, provider), path_hash(split[k].0), provider.written(split[k].1)->0),
    decreases split.len(),
{
    let head = split.drop_last();
    let before = with_split(es, head, provider);
    let now = with_split(es, split, provider);
    let h = path_hash(split.last().0);
    if k < head.len() {
        assert(head[k] == split[k]);
        assert(forall|j: int| 0 <= j < head.len() ==> #[trigger] head[j] == split[j]);
        law_split_bins_are_stored(es, head, provider, k);
        assert(split.last() == split[split.len() - 1]);
        let n = choose|n: int|
            0 <= n < before.len() && (#[trigger] before[n]).hash == path_hash(split[k].0) && before[n].bytes == provider.written(
                split[k].1,
            )->0;
        if provider.written(split.last().1) is Some {
            if let Some(i) = hash_slot(before, h) {
                assert(hash_at(before, h, i));
            }
        }
        assert(now[n] == before[n]);
    } else {
        match hash_slot(before, h) {
            Some(i) => {
                assert(hash_at(before, h, i));
                assert(now[i].hash == h);
            },
            None => {
                assert(now[before.len() as int].hash == h);
            },
        }
    }
}

/// An archive has a file with these bytes under a hash.
pub open spec fn holds_bytes(es: Seq<Entry>, hash: u64, bytes: Seq<u8>) -> bool {
    exists|n: int| 0 <= n < es.len() && (#[trigger] es[n]).hash == hash && es[n].bytes == bytes
}

/// The bytes of a repaired BIN replace those of its file, and no other file changes; a BIN
/// that cannot be written changes nothing.
pub proof fn law_repaired_bins_are_written<P: BinProvider>(es: Seq<Entry>, path: Seq<char>, b: Bin, provider: P, i: int, j: int)
    requires
        path_at(es, path, i),
    ensures
        rewritten(es, path, b, provider).len() == es.len(),
        0 <= j < es.len() && j != i ==> rewritten(es, path, b, provider)[j] == es[j],
        rewritten(es, path, b, provider)[i] == (match provider.written(b) {
            Some(bytes) => Entry { hash: es[i].hash, path: es[i].path, bytes },
            None => es[i],
        }),
{
    let k = choose|k: int| path_at(es, path, k);
    assert(es[k].path == path && es[i].path == path);
    assert(k == i);
}

/// What a repair leaves of an archive: all of it in a dry run, and all of it where nothing
/// was repaired and nothing split off.
pub proof fn law_archives_stay_without_repairs<H: HashProvider, W: WadProvider, G: GameProvider, P: BinProvider>(
    es: Seq<Entry>,
    after: FixContext<H, W, G>,
    fixes_applied: u32,
    dry_run: bool,
    provider: P,
)
    requires
        dry_run || (fixes_applied == 0 && after.additional_bins@.len() == 0),
    ensures
        kept(es, after, fixes_applied, dry_run, provider) == es,
{
}

/// A repaired file has the bytes that its tree is written as, where nothing was split off.
pub proof fn law_repairs_reach_the_archive<H: HashProvider, W: WadProvider, G: GameProvider, P: BinProvider>(
    es: Seq<Entry>,
    after: FixContext<H, W, G>,
    fixes_applied: u32,
    provider: P,
    i: int,
    bytes: Seq<u8>,
)
    requires
        fixes_applied > 0,
        after.additional_bins@.len() == 0,
        path_at(es, after.file_path@, i),
        provider.written(bin(after.tree)) == Some(bytes),
    ensures
        kept(es, after, fixes_applied, false, provider).len() == es.len(),
        kept(es, after, fixes_applied, false, provider)[i] == (Entry { hash: es[i].hash, path: es[i].path, bytes }),
{
    law_repaired_bins_are_written(es, after.file_path@, bin(after.tree), provider, i, i);
}

} // verus!
