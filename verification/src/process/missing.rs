//! Files that a mod's BINs refer to and the mod does not ship, taken from the game.

use vstd::prelude::*;
use vstd::string::*;
use crate::archive::{copy_entry, entries, entry, is_bin, is_bin_entry, Entry, WadEntry};
use crate::bin::tree;
use crate::deep_repair::{bin_file, lemma_asset_refs, lemma_bin_file, lemma_not_shipped, nothing_stands_for};
use crate::hashing::{path_hash, WadHasher};
use crate::process::moving::{index_files, indexes};
use crate::repath::{
    asset_refs, bin_asset_paths, collect_bin_asset_paths, modder_root, repath_candidate, twin, twin_of, twin_path, WadIndex,
};
use crate::text::{
    ascii_lowered, begins, distinct, ends, ends_with, holds, lemma_push_contains, lemma_sum_contains, lemma_take_next, lemma_texts_push, lowered,
    normal, push_distinct, same, texts, to_lower,
};
use crate::traits::BinProvider;
use crate::walk::{add_count, capped, strings_in_objects};

verus! {

/// The asset paths that a file refers to, where it is a BIN that can be read.
pub open spec fn refs_of<P: BinProvider>(e: Entry, provider: P, skip_vo: bool) -> Seq<Seq<char>> {
    if !is_bin(e) {
        Seq::empty()
    } else {
        match provider.parsed(e.bytes) {
            Some(b) => bin_asset_paths(b.tree, skip_vo),
            None => Seq::empty(),
        }
    }
}

/// The asset paths that the BIN files among some files refer to, in order.
pub open spec fn all_refs<P: BinProvider>(es: Seq<Entry>, provider: P, skip_vo: bool) -> Seq<Seq<char>>
    decreases es.len(),
{
    if es.len() == 0 {
        Seq::empty()
    } else {
        all_refs(es.drop_last(), provider, skip_vo) + refs_of(es.last(), provider, skip_vo)
    }
}

/// Add paths to a list, each unless it is there.
pub(crate) fn push_all_distinct(v: &mut Vec<String>, more: &Vec<String>, Ghost(seen): Ghost<Seq<Seq<char>>>)
    requires
        texts(old(v)@) == distinct(seen),
    ensures
        texts(final(v)@) == distinct(seen + texts(more@)),
{
    let ghost all = texts(more@);
    let mut i: usize = 0;
    assert(seen + all.take(0) =~= seen);
    while i < more.len()
        invariant
            all == texts(more@),
            i <= more@.len(),
            texts(v@) == distinct(seen + all.take(i as int)),
        decreases more@.len() - i,
    {
        proof {
            lemma_take_next(all, i as int);
            assert((seen + all.take(i + 1)).drop_last() =~= seen + all.take(i as int));
            assert((seen + all.take(i + 1)).last() == all[i as int]);
        }
        push_distinct(v, more[i].clone());
        i = i + 1;
    }
    assert(all.take(i as int) =~= all);
}

/// The asset paths that the BIN files among some files refer to, each once.
pub fn collect_refs<P: BinProvider>(files: &Vec<WadEntry>, provider: &P, skip_vo: bool) -> (r: Vec<String>)
    ensures
        texts(r@) == distinct(all_refs(entries(files@), *provider, skip_vo)),
{
    let ghost es = entries(files@);
    let mut out: Vec<String> = Vec::new();
    let mut i: usize = 0;
    assert(texts(out@) =~= distinct(all_refs(es.take(0), *provider, skip_vo)));
    while i < files.len()
        invariant
            es == entries(files@),
            i <= files@.len(),
            texts(out@) == distinct(all_refs(es.take(i as int), *provider, skip_vo)),
        decreases files@.len() - i,
    {
        let ghost seen = all_refs(es.take(i as int), *provider, skip_vo);
        proof {
            lemma_take_next(es, i as int);
            assert(es[i as int] == entry(files@[i as int]));
            assert(seen + Seq::<Seq<char>>::empty() =~= seen);
        }
        if is_bin_entry(&files[i]) {
            if let Ok(t) = provider.parse_bytes(files[i].2.as_slice()) {
                let more = collect_bin_asset_paths(&t, skip_vo);
                push_all_distinct(&mut out, &more, Ghost(seen));
            }
        }
        i = i + 1;
    }
    assert(es.take(i as int) =~= es);
    out
}

/// Some file has this normalized path, or is filed under its hash.
pub open spec fn carries(es: Seq<Entry>, path: Seq<char>) -> bool {
    exists|i: int| 0 <= i < es.len() && (normal((#[trigger] es[i]).path) == path || es[i].hash == path_hash(path))
}

/// The files ship an asset, under its own name or that of its twin.
pub open spec fn ships(es: Seq<Entry>, path: Seq<char>) -> bool {
    carries(es, normal(path)) || (twin_path(path) is Some && carries(es, normal(twin_path(path)->0)))
}

proof fn lemma_index_carries(index: WadIndex, es: Seq<Entry>, path: Seq<char>)
    requires
        indexes(index, es),
    ensures
        index.ships(WadHasher, path) == carries(es, path),
{
    let ps = es.map_values(|e: Entry| normal(e.path));
    let hs = es.map_values(|e: Entry| e.hash);
    crate::text::lemma_listed(index.paths@, path);
    if carries(es, path) {
        let i = choose|i: int|
            0 <= i < es.len() && (normal((#[trigger] es[i]).path) == path || es[i].hash == path_hash(path));
        assert(ps[i] == normal(es[i].path));
        assert(hs[i] == es[i].hash);
        assert(hs.contains(hs[i]));
    }
    if index.ships(WadHasher, path) {
        if ps.contains(path) {
            let i = choose|i: int| 0 <= i < ps.len() && ps[i] == path;
            assert(normal(es[i].path) == path);
        } else {
            assert(hs.contains(path_hash(path)));
            let i = choose|i: int| 0 <= i < hs.len() && hs[i] == path_hash(path);
            assert(es[i].hash == path_hash(path));
        }
    }
}

/// An index answers for its files.
pub proof fn lemma_index_ships(index: WadIndex, es: Seq<Entry>, path: Seq<char>)
    requires
        indexes(index, es),
    ensures
        index.actual_path(WadHasher, path) is Some <==> ships(es, path),
{
    lemma_index_carries(index, es, normal(path));
    if let Some(t) = twin_path(path) {
        lemma_index_carries(index, es, normal(t));
    }
}

/// Those of the paths that the files do not ship.
pub open spec fn unshipped(paths: Seq<Seq<char>>, es: Seq<Entry>) -> Seq<Seq<char>>
    decreases paths.len(),
{
    if paths.len() == 0 {
        Seq::empty()
    } else {
        let before = unshipped(paths.drop_last(), es);
        if ships(es, paths.last()) {
            before
        } else {
            before.push(paths.last())
        }
    }
}

/// `i` is the last file whose lower-case path is this.
pub open spec fn last_with_path(es: Seq<Entry>, path: Seq<char>, i: int) -> bool {
    0 <= i < es.len() && lowered(es[i].path) == path && forall|j: int|
        i < j < es.len() ==> lowered((#[trigger] es[j]).path) != path
}

/// The last file whose lower-case path is this.
pub open spec fn game_slot(es: Seq<Entry>, path: Seq<char>) -> Option<int> {
    if exists|i: int| last_with_path(es, path, i) {
        Some(choose|i: int| last_with_path(es, path, i))
    } else {
        None
    }
}

/// The game's file for a path: its own, or else that of its twin.
pub open spec fn game_file(game: Seq<Entry>, path: Seq<char>) -> Option<int> {
    match game_slot(game, path) {
        Some(i) => Some(i),
        None => match twin(path) {
            Some(t) => game_slot(game, t),
            None => None,
        },
    }
}

/// The game's files for some paths, in order, where it has them.
pub open spec fn pulled(paths: Seq<Seq<char>>, game: Seq<Entry>) -> Seq<Entry>
    decreases paths.len(),
{
    if paths.len() == 0 {
        Seq::empty()
    } else {
        let before = pulled(paths.drop_last(), game);
        match game_file(game, paths.last()) {
            Some(i) => before.push(game[i]),
            None => before,
        }
    }
}

fn find_game_slot(game: &Vec<WadEntry>, path: &str) -> (r: Option<usize>)
    ensures
        r matches Some(i) ==> i < game@.len() && game_slot(entries(game@), path@) == Some(i as int),
        r is None <==> game_slot(entries(game@), path@) is None,
{
    let ghost es = entries(game@);
    let mut i: usize = game.len();
    while i > 0
        invariant
            es == entries(game@),
            i <= game@.len(),
            forall|j: int| i <= j < es.len() ==> lowered((#[trigger] es[j]).path) != path@,
        decreases i,
    {
        i = i - 1;
        let lower = to_lower(game[i].1.as_str());
        assert(es[i as int].path == game@[i as int].1@);
        if same(lower.as_str(), path) {
            proof {
                assert(last_with_path(es, path@, i as int));
                let k = choose|k: int| last_with_path(es, path@, k);
                assert(last_with_path(es, path@, k));
                if k < i {
                    assert(lowered(es[i as int].path) != path@);
                }
                if i < k {
                    assert(lowered(es[k].path) != path@);
                }
            }
            return Some(i);
        }
    }
    assert(forall|k: int| !last_with_path(es, path@, k));
    None
}

fn find_game_file(game: &Vec<WadEntry>, path: &str) -> (r: Option<usize>)
    ensures
        r matches Some(i) ==> i < game@.len() && game_file(entries(game@), path@) == Some(i as int),
        r is None <==> game_file(entries(game@), path@) is None,
{
    if let Some(i) = find_game_slot(game, path) {
        return Some(i);
    }
    match twin_of(path) {
        Some(t) => find_game_slot(game, t.as_str()),
        None => None,
    }
}

/// Add those files of the game that the mod's BINs refer to and the mod does not ship.
/// Returns their number.
pub fn extract_missing_from_game_wad<P: BinProvider>(
    all_files: &mut Vec<WadEntry>,
    game_files: &Vec<WadEntry>,
    provider: &P,
    skip_vo: bool,
) -> (r: u32)
    ensures
        ({
            let es = entries(old(all_files)@);
            let found = pulled(unshipped(distinct(all_refs(es, *provider, skip_vo)), es), entries(game_files@));
            entries(final(all_files)@) == es + found && r == capped(found.len())
        }),
{
    let ghost es = entries(all_files@);
    let ghost game = entries(game_files@);
    let refs = collect_refs(all_files, provider, skip_vo);
    let index = index_files(all_files);
    let ghost all = texts(refs@);
    let ghost mut missing: Seq<Seq<char>> = Seq::empty();
    let mut n: u32 = 0;
    let mut i: usize = 0;
    proof {
        assert(es + pulled(Seq::empty(), game) =~= es);
    }
    while i < refs.len()
        invariant
            all == texts(refs@),
            game == entries(game_files@),
            i <= refs@.len(),
            indexes(index, es),
            missing == unshipped(all.take(i as int), es),
            entries(all_files@) == es + pulled(missing, game),
            n == capped(pulled(missing, game).len()),
        decreases refs@.len() - i,
    {
        proof {
            lemma_take_next(all, i as int);
            lemma_index_ships(index, es, all[i as int]);
        }
        if !index.has(refs[i].as_str(), &WadHasher) {
            let ghost now = missing.push(all[i as int]);
            assert(now.drop_last() =~= missing);
            if let Some(k) = find_game_file(game_files, refs[i].as_str()) {
                let ghost before = entries(all_files@);
                let e = copy_entry(&game_files[k]);
                all_files.push(e);
                assert(capped(1) == 1u32);
                n = add_count(n, 1);
                proof {
                    assert(game[k as int] == entry(game_files@[k as int]));
                    assert(entries(all_files@) =~= before.push(game[k as int]));
                    assert(entries(all_files@) =~= es + pulled(now, game));
                }
            }
            proof {
                missing = now;
            }
        }
        i = i + 1;
    }
    assert(all.take(i as int) =~= all);
    n
}

/// The animation files among some paths.
pub open spec fn clips(paths: Seq<Seq<char>>) -> Seq<Seq<char>>
    decreases paths.len(),
{
    if paths.len() == 0 {
        Seq::empty()
    } else {
        let before = clips(paths.drop_last());
        if ends(lowered(paths.last()), ".anm"@) {
            before.push(paths.last())
        } else {
            before
        }
    }
}

/// The animation files that BINs refer to and the mod does not ship: those to restore.
pub fn missing_animations(files: &Vec<WadEntry>, refs: &Vec<String>) -> (r: Vec<String>)
    ensures
        texts(r@) == clips(unshipped(texts(refs@), entries(files@))),
{
    let index = index_files(files);
    let ghost es = entries(files@);
    let ghost all = texts(refs@);
    let mut out: Vec<String> = Vec::new();
    let mut i: usize = 0;
    assert(texts(out@) =~= clips(unshipped(all.take(0), es)));
    while i < refs.len()
        invariant
            all == texts(refs@),
            i <= refs@.len(),
            indexes(index, es),
            texts(out@) == clips(unshipped(all.take(i as int), es)),
        decreases refs@.len() - i,
    {
        proof {
            lemma_take_next(all, i as int);
            lemma_index_ships(index, es, all[i as int]);
        }
        if !index.has(refs[i].as_str(), &WadHasher) {
            let ghost missing = unshipped(all.take(i as int), es);
            assert(missing.push(all[i as int]).drop_last() =~= missing);
            let lower = to_lower(refs[i].as_str());
            if ends_with(lower.as_str(), ".anm") {
                let ghost before = out@;
                let path = refs[i].clone();
                out.push(path);
                proof {
                    lemma_texts_push(before, path);
                }
            }
        }
        i = i + 1;
    }
    assert(all.take(i as int) =~= all);
    out
}

/// A mod that ships all it refers to gets nothing from the game.
pub proof fn law_self_contained_mods_stay(paths: Seq<Seq<char>>, es: Seq<Entry>, game: Seq<Entry>)
    requires
        forall|i: int| 0 <= i < paths.len() ==> ships(es, #[trigger] paths[i]),
    ensures
        pulled(unshipped(paths, es), game).len() == 0,
    decreases paths.len(),
{
    if paths.len() > 0 {
        let head = paths.drop_last();
        assert forall|i: int| 0 <= i < head.len() implies ships(es, #[trigger] head[i]) by {
            assert(head[i] == paths[i]);
        }
        law_self_contained_mods_stay(head, es, game);
        assert(paths[paths.len() - 1] == paths.last());
    }
}

proof fn lemma_all_refs<P: BinProvider>(es: Seq<Entry>, provider: P, skip_vo: bool, f: int, p: Seq<char>)
    requires
        0 <= f < es.len(),
        refs_of(es[f], provider, skip_vo).contains(p),
    ensures
        all_refs(es, provider, skip_vo).contains(p),
    decreases es.len(),
{
    lemma_sum_contains(all_refs(es.drop_last(), provider, skip_vo), refs_of(es.last(), provider, skip_vo), p);
    if f < es.len() - 1 {
        lemma_all_refs(es.drop_last(), provider, skip_vo, f, p);
    }
}

proof fn lemma_unshipped(paths: Seq<Seq<char>>, es: Seq<Entry>, p: Seq<char>)
    ensures
        unshipped(paths, es).contains(p) <==> paths.contains(p) && !ships(es, p),
    decreases paths.len(),
{
    if paths.len() > 0 {
        let head = paths.drop_last();
        lemma_unshipped(head, es, p);
        lemma_push_contains(head, paths.last(), p);
        assert(head.push(paths.last()) =~= paths);
        lemma_push_contains(unshipped(head, es), paths.last(), p);
    }
}

proof fn lemma_pulled(paths: Seq<Seq<char>>, game: Seq<Entry>, p: Seq<char>)
    requires
        paths.contains(p),
        game_file(game, p) is Some,
    ensures
        pulled(paths, game).contains(game[game_file(game, p)->0]),
    decreases paths.len(),
{
    let head = paths.drop_last();
    let k = choose|k: int| 0 <= k < paths.len() && paths[k] == p;
    let e = game[game_file(game, p)->0];
    if let Some(i) = game_file(game, paths.last()) {
        lemma_push_contains(pulled(head, game), game[i], e);
    }
    if k < head.len() {
        assert(head[k] == p);
        lemma_pulled(head, game, p);
    }
}

/// Whatever a BIN of the mod names in a string, as an asset that is not voice-over that is
/// skipped, and the mod does not ship, is taken from the game where a file of the game has
/// that path: the last such file is among those that are added.
pub proof fn law_missing_assets_come_from_the_game<P: BinProvider>(
    es: Seq<Entry>,
    game: Seq<Entry>,
    provider: P,
    skip_vo: bool,
    f: int,
    v: Seq<char>,
    i: int,
)
    requires
        0 <= f < es.len(),
        bin_file(es[f]),
        provider.parsed(es[f].bytes) matches Some(b) && (strings_in_objects(b.tree.objects).contains(v) || b.tree.linked.contains(v)),
        begins(normal(v), "assets/"@) || begins(normal(v), "data/"@) || modder_root(normal(v)),
        skip_vo ==> !holds(normal(v), "/wwise2016/vo/"@),
        nothing_stands_for(es, normal(v)),
        0 <= i < game.len(),
        lowered(game[i].path) == normal(v),
        forall|j: int| i < j < game.len() ==> lowered((#[trigger] game[j]).path) != normal(v),
    ensures
        pulled(unshipped(distinct(all_refs(es, provider, skip_vo)), es), game).contains(game[i]),
{
    let p = normal(v);
    lemma_bin_file(es[f]);
    let b = provider.parsed(es[f].bytes)->0;
    let ss = strings_in_objects(b.tree.objects);
    assert(repath_candidate(v, skip_vo));
    if ss.contains(v) {
        lemma_asset_refs(ss, skip_vo, v);
    } else {
        lemma_asset_refs(b.tree.linked, skip_vo, v);
    }
    lemma_sum_contains(asset_refs(ss, skip_vo), asset_refs(b.tree.linked, skip_vo), p);
    lemma_all_refs(es, provider, skip_vo, f, p);
    crate::text::lemma_distinct(all_refs(es, provider, skip_vo));
    lemma_not_shipped(es, p);
    lemma_unshipped(distinct(all_refs(es, provider, skip_vo)), es, p);
    assert(last_with_path(game, p, i));
    let k = choose|k: int| last_with_path(game, p, k);
    assert(last_with_path(game, p, k));
    if k < i {
        assert(lowered(game[i].path) != p);
    }
    if i < k {
        assert(lowered(game[k].path) != p);
    }
    lemma_pulled(unshipped(distinct(all_refs(es, provider, skip_vo)), es), game, p);
}

proof fn lemma_clips(paths: Seq<Seq<char>>, p: Seq<char>)
    ensures
        clips(paths).contains(p) <==> paths.contains(p) && ends(lowered(p), ".anm"@),
    decreases paths.len(),
{
    if paths.len() > 0 {
        let head = paths.drop_last();
        lemma_clips(head, p);
        lemma_push_contains(head, paths.last(), p);
        assert(head.push(paths.last()) =~= paths);
        lemma_push_contains(clips(head), paths.last(), p);
    }
}

/// The animations to restore are exactly the clips among the references that the mod does
/// not ship.
pub proof fn law_clips_to_restore(refs: Seq<Seq<char>>, es: Seq<Entry>, p: Seq<char>)
    ensures
        clips(unshipped(refs, es)).contains(p) <==> refs.contains(p) && ends(lowered(p), ".anm"@) && !ships(es, p),
        nothing_stands_for(es, p) && refs.contains(p) && ends(lowered(p), ".anm"@) ==> clips(unshipped(refs, es)).contains(p),
{
    lemma_clips(unshipped(refs, es), p);
    lemma_unshipped(refs, es, p);
    if nothing_stands_for(es, p) {
        lemma_not_shipped(es, p);
    }
}

/// A path counts as shipped where a file has it, in whatever case and with separators of
/// either kind, or has its hash, and so does a texture or mesh whose twin is there: nothing
/// is pulled for it.
pub proof fn law_shipped_paths_are_not_pulled(paths: Seq<Seq<char>>, es: Seq<Entry>, p: Seq<char>, i: int)
    requires
        0 <= i < es.len(),
        normal(es[i].path) == normal(p) || es[i].hash == path_hash(normal(p)) || (p.len() >= 4 && ((ends(ascii_lowered(p), ".dds"@) && (
        normal(es[i].path) == normal(p.take(p.len() - 4) + ".tex"@) || es[i].hash == path_hash(normal(p.take(p.len() - 4) + ".tex"@))))
            || (ends(ascii_lowered(p), ".sco"@) && !ends(ascii_lowered(p), ".dds"@) && !ends(ascii_lowered(p), ".tex"@) && normal(
            es[i].path,
        ) == normal(p.take(p.len() - 4) + ".scb"@)))),
    ensures
        !unshipped(paths, es).contains(p),
{
    lemma_unshipped(paths, es, p);
    if p.len() >= 4 {
        assert(p.take(p.len() - 4) =~= p.subrange(0, p.len() - 4));
    }
    assert(ships(es, p));
}

} // verus!
