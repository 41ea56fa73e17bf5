//! Making a mod self-contained: its missing dependencies are pulled out of the game's
//! archive of the champion, with theirs, until nothing new turns up.

use vstd::prelude::*;
use vstd::string::*;
use crate::archive::{copy_bytes, entries, entry, is_bin, is_bin_entry, list_paths, new_entry, paths_of, push_file, Entry, WadEntry};
use crate::bin::{bin, tree, Bin};
use crate::hashing::{path_hash, wad_path_hash, WadHasher};
use crate::process::missing::{carries, lemma_index_ships, push_all_distinct, ships};
use crate::process::moving::{index_files, indexes};
use crate::repath::{
    asset_refs, bin_asset_paths, bin_magic, collect_bin_asset_paths, looks_like_bin, modder_root, repath_candidate, twin, twin_of, twin_path,
};
use crate::seeds::{discover_seeds, discovered, seed_asset_path, seed_path, seeds, Seed, SkinSeed};
use crate::skinlite::copy_strings;
use crate::text::{
    ascii_lowered, begins, cat, decimal, decimal_text, distinct, ends, holds, is_listed, lemma_listed, lemma_take_next, lemma_texts_push,
    lowered, normal, normalize, texts, to_lower,
};
use crate::traits::BinProvider;
use crate::transform::resolve_refs::{strip_inner_suffix, twin_extensions, without_inner_tag};
use crate::walk::{add_count, capped, strings_in_objects};

verus! {

/// What a deep repair did.
#[derive(Clone, Copy, Debug, PartialEq, Eq, Structural)]
pub struct DeepRepairStats {
    /// Skin BINs pulled because the mod did not ship them.
    pub seed_bins_added: u32,
    /// Files of any kind pulled, skin BINs included.
    pub files_pulled: u32,
    /// Referenced paths that the game's archive does not have.
    pub missing_unresolved: u32,
    /// Passes over the files that found something to pull: at least one where anything
    /// was pulled.
    pub iterations: u32,
}

/// The archive of a champion in the game: the bytes of its chunks by path hash, where
/// they could be read.
#[derive(Debug)]
pub struct GameArchive {
    pub chunks: Vec<(u64, Option<Vec<u8>>)>,
}

/// The bytes of a chunk, where they could be read.
pub open spec fn chunk_bytes(o: Option<Vec<u8>>) -> Option<Seq<u8>> {
    match o {
        Some(v) => Some(v@),
        None => None,
    }
}

impl View for GameArchive {
    type V = Seq<(u64, Option<Seq<u8>>)>;

    open spec fn view(&self) -> Seq<(u64, Option<Seq<u8>>)> {
        self.chunks@.map_values(|c: (u64, Option<Vec<u8>>)| (c.0, chunk_bytes(c.1)))
    }
}

/// `i` is the first chunk under a hash.
pub open spec fn chunk_at(game: Seq<(u64, Option<Seq<u8>>)>, hash: u64, i: int) -> bool {
    0 <= i < game.len() && game[i].0 == hash && forall|j: int| 0 <= j < i ==> (#[trigger] game[j]).0 != hash
}

/// The chunk under a hash.
pub open spec fn chunk_slot(game: Seq<(u64, Option<Seq<u8>>)>, hash: u64) -> Option<int> {
    if exists|i: int| chunk_at(game, hash, i) {
        Some(choose|i: int| chunk_at(game, hash, i))
    } else {
        None
    }
}

/// The chunk that a path stands for: that of its own hash, or else that of the path
/// without an inner tag in its file name.
pub open spec fn chunk_of(game: Seq<(u64, Option<Seq<u8>>)>, path: Seq<char>) -> Option<int> {
    match chunk_slot(game, path_hash(path)) {
        Some(i) => Some(i),
        None => match without_inner_tag(path) {
            Some(p) => chunk_slot(game, path_hash(p)),
            None => None,
        },
    }
}

/// The bytes that a path stands for in the game.
pub open spec fn game_bytes(game: Seq<(u64, Option<Seq<u8>>)>, path: Seq<char>) -> Option<Seq<u8>> {
    match chunk_of(game, path) {
        Some(i) => game[i].1,
        None => None,
    }
}

/// The bytes that the game has for an asset: under its own path, or else under that of
/// its twin.
pub open spec fn asset_in_game(game: Seq<(u64, Option<Seq<u8>>)>, path: Seq<char>) -> Option<Seq<u8>> {
    match game_bytes(game, path) {
        Some(b) => Some(b),
        None => match twin(path) {
            Some(t) => game_bytes(game, t),
            None => None,
        },
    }
}

impl GameArchive {
    fn find_chunk(&self, hash: u64) -> (r: Option<usize>)
        ensures
            r matches Some(i) ==> i < self@.len() && chunk_slot(self@, hash) == Some(i as int),
            r is None <==> chunk_slot(self@, hash) is None,
    {
        let ghost game = self@;
        let mut i: usize = 0;
        while i < self.chunks.len()
            invariant
                game == self@,
                i <= self.chunks@.len(),
                forall|j: int| 0 <= j < i ==> (#[trigger] game[j]).0 != hash,
            decreases self.chunks@.len() - i,
        {
            assert(game[i as int].0 == self.chunks@[i as int].0);
            if self.chunks[i].0 == hash {
                proof {
                    assert(chunk_at(game, hash, i as int));
                    let k = choose|k: int| chunk_at(game, hash, k);
                    assert(chunk_at(game, hash, k));
                    if k < i {
                        assert(game[k].0 != hash);
                    }
                    if i < k {
                        assert(game[i as int].0 != hash);
                    }
                }
                return Some(i);
            }
            i = i + 1;
        }
        assert(forall|k: int| !chunk_at(game, hash, k));
        None
    }

    /// The bytes that a path stands for, tags in the file name left aside.
    pub fn bytes_of(&self, path: &str) -> (r: Option<Vec<u8>>)
        ensures
            r is Some <==> game_bytes(self@, path@) is Some,
            r matches Some(v) ==> game_bytes(self@, path@) == Some(v@),
    {
        let slot = match self.find_chunk(wad_path_hash(path)) {
            Some(i) => Some(i),
            None => match strip_inner_suffix(path) {
                Some(p) => self.find_chunk(wad_path_hash(p.as_str())),
                None => None,
            },
        };
        match slot {
            Some(i) => {
                assert(self@[i as int].1 == chunk_bytes(self.chunks@[i as int].1));
                match &self.chunks[i].1 {
                    Some(v) => Some(copy_bytes(v)),
                    None => None,
                }
            },
            None => None,
        }
    }
}

/// Candidate paths of the skin BIN of a seed: the canonical one, and the one under the
/// other root.
pub fn canonical_seed_bin_paths(seed: &SkinSeed) -> (r: Vec<String>)
    ensures
        texts(r@) == seq![seed_path(seed@), seed_asset_path(seed@)],
{
    let primary = seed.bin_path();
    let mut other = cat("assets/characters/", seed.champion.as_str());
    other.append("/skins/skin");
    other.append(decimal_text(seed.skin_no as u64).as_str());
    other.append(".bin");
    let mut out: Vec<String> = Vec::new();
    out.push(primary);
    out.push(other);
    assert(texts(out@) =~= seq![seed_path(seed@), seed_asset_path(seed@)]);
    out
}

/// Pull one asset out of the game, under its own path or that of its twin. The mod ships
/// it at the path that its BINs refer to. Returns whether the game had it.
pub fn pull_one(requested: &str, game: &GameArchive, all_files: &mut Vec<WadEntry>) -> (r: bool)
    ensures
        r == (asset_in_game(game@, requested@) is Some),
        r ==> entries(final(all_files)@) == entries(old(all_files)@).push(
            new_entry(requested@, asset_in_game(game@, requested@)->0),
        ),
        !r ==> entries(final(all_files)@) == entries(old(all_files)@),
{
    let found = match game.bytes_of(requested) {
        Some(b) => Some(b),
        None => match twin_of(requested) {
            Some(t) => game.bytes_of(t.as_str()),
            None => None,
        },
    };
    match found {
        Some(bytes) => {
            push_file(all_files, requested, bytes);
            true
        },
        None => false,
    }
}

/// What some bytes refer to, where they are a BIN that can be read: assets, then linked
/// BINs.
pub open spec fn deps_of<P: BinProvider>(bytes: Seq<u8>, provider: P, skip_vo: bool) -> Seq<Seq<char>> {
    match provider.parsed(bytes) {
        Some(b) => bin_asset_paths(b.tree, skip_vo) + b.tree.linked,
        None => Seq::empty(),
    }
}

fn collect_deps<P: BinProvider>(bytes: &[u8], provider: &P, skip_vo: bool) -> (r: Vec<String>)
    ensures
        texts(r@) == deps_of(bytes@, *provider, skip_vo),
{
    match provider.parse_bytes(bytes) {
        Ok(t) => {
            let mut out = collect_bin_asset_paths(&t, skip_vo);
            let ghost first = out@;
            let mut links = copy_strings(&t.linked);
            let ghost second = links@;
            out.append(&mut links);
            assert(texts(out@) =~= texts(first) + texts(second));
            out
        },
        Err(_) => {
            let out: Vec<String> = Vec::new();
            assert(texts(out@) =~= Seq::empty());
            out
        },
    }
}

/// Collect the asset paths and linked BINs that freshly pulled bytes refer to. Bytes that
/// are no BIN refer to nothing.
pub fn dependencies_of<P: BinProvider>(bytes: &[u8], provider: &P, skip_vo: bool) -> (r: Vec<String>)
    ensures
        texts(r@) == (if bin_magic(bytes@) {
            deps_of(bytes@, *provider, skip_vo)
        } else {
            Seq::<Seq<char>>::empty()
        }),
{
    if !looks_like_bin(bytes) {
        let out: Vec<String> = Vec::new();
        assert(texts(out@) =~= Seq::empty());
        return out;
    }
    collect_deps(bytes, provider, skip_vo)
}

/// What the BIN files among some files refer to, in order.
pub open spec fn all_deps<P: BinProvider>(es: Seq<Entry>, provider: P, skip_vo: bool) -> Seq<Seq<char>>
    decreases es.len(),
{
    if es.len() == 0 {
        Seq::empty()
    } else {
        let before = all_deps(es.drop_last(), provider, skip_vo);
        if is_bin(es.last()) {
            before + deps_of(es.last().bytes, provider, skip_vo)
        } else {
            before
        }
    }
}

fn collect_all_deps<P: BinProvider>(files: &Vec<WadEntry>, provider: &P, skip_vo: bool) -> (r: Vec<String>)
    ensures
        texts(r@) == distinct(all_deps(entries(files@), *provider, skip_vo)),
{
    let ghost es = entries(files@);
    let mut out: Vec<String> = Vec::new();
    let mut i: usize = 0;
    assert(texts(out@) =~= distinct(all_deps(es.take(0), *provider, skip_vo)));
    while i < files.len()
        invariant
            es == entries(files@),
            i <= files@.len(),
            texts(out@) == distinct(all_deps(es.take(i as int), *provider, skip_vo)),
        decreases files@.len() - i,
    {
        let ghost seen = all_deps(es.take(i as int), *provider, skip_vo);
        proof {
            lemma_take_next(es, i as int);
            assert(es[i as int] == entry(files@[i as int]));
        }
        if is_bin_entry(&files[i]) {
            let more = collect_deps(files[i].2.as_slice(), provider, skip_vo);
            push_all_distinct(&mut out, &more, Ghost(seen));
        }
        i = i + 1;
    }
    assert(es.take(i as int) =~= es);
    out
}

/// How far a deep repair has come.
#[verifier::ext_equal]
pub struct Deep {
    pub files: Seq<Entry>,
    /// What was tried or is shipped.
    pub seen: Seq<Seq<char>>,
    pub seeds: nat,
    pub pulled: nat,
    pub missing: nat,
}

/// A path that is not seen is tried once. The flag tells whether it was pulled.
pub open spec fn tried(d: Deep, key: Seq<char>, path: Seq<char>, game: Seq<(u64, Option<Seq<u8>>)>) -> (Deep, bool) {
    if d.seen.contains(key) {
        (d, false)
    } else {
        let seen = d.seen.push(key);
        match asset_in_game(game, path) {
            Some(b) => (Deep { files: d.files.push(new_entry(path, b)), seen, pulled: d.pulled + 1, ..d }, true),
            None => (Deep { seen, ..d }, false),
        }
    }
}

/// The skin BIN of a seed is pulled where the mod ships no form of it: the first form
/// that the game has.
pub open spec fn seeded_one(d: Deep, seed: Seed, game: Seq<(u64, Option<Seq<u8>>)>) -> Deep {
    let a = seed_path(seed);
    let b = seed_asset_path(seed);
    if ships(d.files, a) || ships(d.files, b) {
        d
    } else {
        let (first, hit) = tried(d, lowered(a), a, game);
        if hit {
            Deep { seeds: first.seeds + 1, ..first }
        } else {
            let (second, hit) = tried(first, lowered(b), b, game);
            if hit {
                Deep { seeds: second.seeds + 1, ..second }
            } else {
                second
            }
        }
    }
}

/// The skin BINs of seeds are pulled, in order.
pub open spec fn seeded(d: Deep, list: Seq<Seed>, game: Seq<(u64, Option<Seq<u8>>)>) -> Deep
    decreases list.len(),
{
    if list.len() == 0 {
        d
    } else {
        seeded_one(seeded(d, list.drop_last(), game), list.last(), game)
    }
}

/// Those of the paths that are neither seen nor shipped.
pub open spec fn open_paths(paths: Seq<Seq<char>>, d: Deep) -> Seq<Seq<char>>
    decreases paths.len(),
{
    if paths.len() == 0 {
        Seq::empty()
    } else {
        let before = open_paths(paths.drop_last(), d);
        if !d.seen.contains(normal(paths.last())) && !ships(d.files, paths.last()) {
            before.push(paths.last())
        } else {
            before
        }
    }
}

/// What a pass has to pull.
pub open spec fn to_pull<P: BinProvider>(d: Deep, provider: P, skip_vo: bool) -> Seq<Seq<char>> {
    open_paths(distinct(all_deps(d.files, provider, skip_vo)), d)
}

/// Some paths are tried, in order; those that the game does not have are counted.
pub open spec fn pulled_all(d: Deep, paths: Seq<Seq<char>>, game: Seq<(u64, Option<Seq<u8>>)>) -> Deep
    decreases paths.len(),
{
    if paths.len() == 0 {
        d
    } else {
        let before = pulled_all(d, paths.drop_last(), game);
        let key = normal(paths.last());
        let (now, hit) = tried(before, key, paths.last(), game);
        if hit || before.seen.contains(key) {
            now
        } else {
            Deep { missing: now.missing + 1, ..now }
        }
    }
}

/// The state after a number of passes.
pub open spec fn passes<P: BinProvider>(
    d: Deep,
    n: nat,
    game: Seq<(u64, Option<Seq<u8>>)>,
    provider: P,
    skip_vo: bool,
) -> Deep
    decreases n,
{
    if n == 0 {
        d
    } else {
        let before = passes(d, (n - 1) as nat, game, provider, skip_vo);
        pulled_all(before, to_pull(before, provider, skip_vo), game)
    }
}

/// The state at the start: everything that the mod ships is seen.
pub open spec fn at_start(es: Seq<Entry>) -> Deep {
    Deep {
        files: es,
        seen: es.map_values(|e: Entry| normal(e.path)),
        seeds: 0,
        pulled: 0,
        missing: 0,
    }
}

/// The state once the skin BINs of the mod's own seeds are there.
pub open spec fn at_seeds(es: Seq<Entry>, game: Seq<(u64, Option<Seq<u8>>)>) -> Deep {
    seeded(at_start(es), discovered(paths_of(es)), game)
}

/// A deep repair ended after `n` passes: each of them had something to pull, and nothing
/// is left.
pub open spec fn closed_after<P: BinProvider>(
    d: Deep,
    n: nat,
    game: Seq<(u64, Option<Seq<u8>>)>,
    provider: P,
    skip_vo: bool,
) -> bool {
    &&& forall|k: nat| k < n ==> to_pull(#[trigger] passes(d, k, game, provider, skip_vo), provider, skip_vo).len() > 0
    &&& to_pull(passes(d, n, game, provider, skip_vo), provider, skip_vo).len() == 0
}

/// The counts of a state after `n` passes.
pub open spec fn counted(d: Deep, n: nat) -> DeepRepairStats {
    DeepRepairStats {
        seed_bins_added: capped(d.seeds),
        files_pulled: capped(d.pulled),
        missing_unresolved: capped(d.missing),
        iterations: capped(n),
    }
}

/// What a repair tells of a state after `n` passes. One that pulled nothing but skin BINs
/// of seeds has had a pass too: the one that found them complete.
pub open spec fn told(d: Deep, n: nat) -> DeepRepairStats {
    DeepRepairStats { iterations: if n == 0 && d.pulled > 0 { 1 } else { capped(n) }, ..counted(d, n) }
}

/// How many of the paths are not seen.
pub open spec fn unseen(paths: Seq<Seq<char>>, seen: Seq<Seq<char>>) -> nat
    decreases paths.len(),
{
    if paths.len() == 0 {
        0
    } else {
        unseen(paths.drop_last(), seen) + (if seen.contains(normal(paths.last())) { 0nat } else { 1nat })
    }
}

proof fn lemma_unseen(paths: Seq<Seq<char>>, seen: Seq<Seq<char>>, more: Seq<Seq<char>>)
    requires
        forall|x: Seq<char>| seen.contains(x) ==> more.contains(x),
    ensures
        unseen(paths, more) <= unseen(paths, seen),
        (exists|p: Seq<char>| paths.contains(p) && !seen.contains(normal(p)) && more.contains(normal(p))) ==> unseen(
            paths,
            more,
        ) < unseen(paths, seen),
    decreases paths.len(),
{
    if paths.len() > 0 {
        lemma_unseen(paths.drop_last(), seen, more);
        if exists|p: Seq<char>| paths.contains(p) && !seen.contains(normal(p)) && more.contains(normal(p)) {
            let p = choose|p: Seq<char>| paths.contains(p) && !seen.contains(normal(p)) && more.contains(normal(p));
            let i = choose|i: int| 0 <= i < paths.len() && paths[i] == p;
            if i < paths.len() - 1 {
                assert(paths.drop_last()[i] == p);
                assert(paths.drop_last().contains(p));
            }
        }
    }
}

proof fn lemma_open_paths(paths: Seq<Seq<char>>, d: Deep, p: Seq<char>)
    ensures
        open_paths(paths, d).contains(p) <==> paths.contains(p) && !d.seen.contains(normal(p)) && !ships(d.files, p),
    decreases paths.len(),
{
    if paths.len() > 0 {
        let head = paths.drop_last();
        let before = open_paths(head, d);
        let now = open_paths(paths, d);
        lemma_open_paths(head, d, p);
        if now.contains(p) {
            let i = choose|i: int| 0 <= i < now.len() && now[i] == p;
            if i < before.len() {
                assert(before[i] == p);
                let k = choose|k: int| 0 <= k < head.len() && head[k] == p;
                assert(paths[k] == p);
            } else {
                assert(paths[paths.len() - 1] == p);
            }
        }
        if paths.contains(p) && !d.seen.contains(normal(p)) && !ships(d.files, p) {
            let k = choose|k: int| 0 <= k < paths.len() && paths[k] == p;
            if k < head.len() {
                assert(head[k] == p);
                let i = choose|i: int| 0 <= i < before.len() && before[i] == p;
                assert(now[i] == p);
            } else {
                assert(now[now.len() - 1] == p);
            }
        }
    }
}

/// What trying paths leaves: more is seen, the files are still there, and where nothing
/// was pulled they are all.
proof fn lemma_pulled_all(d: Deep, paths: Seq<Seq<char>>, game: Seq<(u64, Option<Seq<u8>>)>)
    ensures
        ({
            let e = pulled_all(d, paths, game);
            &&& forall|x: Seq<char>| d.seen.contains(x) ==> e.seen.contains(x)
            &&& forall|i: int| 0 <= i < paths.len() ==> e.seen.contains(normal(#[trigger] paths[i]))
            &&& e.pulled >= d.pulled
            &&& e.seeds == d.seeds
            &&& d.files.len() <= e.files.len()
            &&& e.files.take(d.files.len() as int) == d.files
            &&& e.pulled == d.pulled ==> e.files == d.files
        }),
    decreases paths.len(),
{
    if paths.len() > 0 {
        let head = paths.drop_last();
        lemma_pulled_all(d, head, game);
        let before = pulled_all(d, head, game);
        let now = pulled_all(d, paths, game);
        let key = normal(paths.last());
        assert forall|x: Seq<char>| before.seen.contains(x) implies now.seen.contains(x) by {
            let k = choose|k: int| 0 <= k < before.seen.len() && before.seen[k] == x;
            assert(now.seen[k] == x);
        }
        assert(now.seen.contains(key)) by {
            if !before.seen.contains(key) {
                assert(now.seen[before.seen.len() as int] == key);
            }
        }
        assert forall|i: int| 0 <= i < paths.len() implies now.seen.contains(normal(#[trigger] paths[i])) by {
            if i < head.len() {
                assert(head[i] == paths[i]);
            }
        }
        assert(now.files.take(d.files.len() as int) =~= before.files.take(d.files.len() as int));
    } else {
        assert(d.files.take(d.files.len() as int) =~= d.files);
    }
}

/// The bytes of a file are those of one of the first files, or of a chunk of the game.
pub open spec fn known_bytes(bytes: Seq<u8>, base: Seq<Entry>, game: Seq<(u64, Option<Seq<u8>>)>) -> bool {
    (exists|i: int| 0 <= i < base.len() && (#[trigger] base[i]).bytes == bytes) || (exists|i: int|
        0 <= i < game.len() && (#[trigger] game[i]).1 == Some(bytes))
}

/// All files have known bytes.
pub open spec fn all_known(es: Seq<Entry>, base: Seq<Entry>, game: Seq<(u64, Option<Seq<u8>>)>) -> bool {
    forall|i: int| 0 <= i < es.len() ==> known_bytes((#[trigger] es[i]).bytes, base, game)
}

/// What the first files and the chunks of the game refer to.
pub open spec fn universe<P: BinProvider>(
    base: Seq<Entry>,
    game: Seq<(u64, Option<Seq<u8>>)>,
    provider: P,
    skip_vo: bool,
) -> Seq<Seq<char>> {
    file_deps(base, provider, skip_vo) + game_deps(game, provider, skip_vo)
}

/// What some files refer to, whether they are known to be BINs or not.
pub open spec fn file_deps<P: BinProvider>(es: Seq<Entry>, provider: P, skip_vo: bool) -> Seq<Seq<char>>
    decreases es.len(),
{
    if es.len() == 0 {
        Seq::empty()
    } else {
        file_deps(es.drop_last(), provider, skip_vo) + deps_of(es.last().bytes, provider, skip_vo)
    }
}

/// What the chunks of the game refer to.
pub open spec fn game_deps<P: BinProvider>(game: Seq<(u64, Option<Seq<u8>>)>, provider: P, skip_vo: bool) -> Seq<Seq<char>>
    decreases game.len(),
{
    if game.len() == 0 {
        Seq::empty()
    } else {
        game_deps(game.drop_last(), provider, skip_vo) + match game.last().1 {
            Some(b) => deps_of(b, provider, skip_vo),
            None => Seq::empty(),
        }
    }
}

proof fn lemma_file_deps<P: BinProvider>(es: Seq<Entry>, provider: P, skip_vo: bool, i: int, p: Seq<char>)
    requires
        0 <= i < es.len(),
        deps_of(es[i].bytes, provider, skip_vo).contains(p),
    ensures
        file_deps(es, provider, skip_vo).contains(p),
    decreases es.len(),
{
    let before = file_deps(es.drop_last(), provider, skip_vo);
    let last = deps_of(es.last().bytes, provider, skip_vo);
    if i < es.len() - 1 {
        lemma_file_deps(es.drop_last(), provider, skip_vo, i, p);
        let k = choose|k: int| 0 <= k < before.len() && before[k] == p;
        assert((before + last)[k] == p);
    } else {
        let k = choose|k: int| 0 <= k < last.len() && last[k] == p;
        assert((before + last)[before.len() + k] == p);
    }
}

proof fn lemma_game_deps<P: BinProvider>(
    game: Seq<(u64, Option<Seq<u8>>)>,
    provider: P,
    skip_vo: bool,
    i: int,
    bytes: Seq<u8>,
    p: Seq<char>,
)
    requires
        0 <= i < game.len(),
        game[i].1 == Some(bytes),
        deps_of(bytes, provider, skip_vo).contains(p),
    ensures
        game_deps(game, provider, skip_vo).contains(p),
    decreases game.len(),
{
    let before = game_deps(game.drop_last(), provider, skip_vo);
    let last = match game.last().1 {
        Some(b) => deps_of(b, provider, skip_vo),
        None => Seq::empty(),
    };
    if i < game.len() - 1 {
        lemma_game_deps(game.drop_last(), provider, skip_vo, i, bytes, p);
        let k = choose|k: int| 0 <= k < before.len() && before[k] == p;
        assert((before + last)[k] == p);
    } else {
        let k = choose|k: int| 0 <= k < last.len() && last[k] == p;
        assert((before + last)[before.len() + k] == p);
    }
}

proof fn lemma_deps_in_universe<P: BinProvider>(
    es: Seq<Entry>,
    base: Seq<Entry>,
    game: Seq<(u64, Option<Seq<u8>>)>,
    provider: P,
    skip_vo: bool,
    p: Seq<char>,
)
    requires
        all_known(es, base, game),
        all_deps(es, provider, skip_vo).contains(p),
    ensures
        universe(base, game, provider, skip_vo).contains(p),
    decreases es.len(),
{
    if es.len() > 0 {
        let head = es.drop_last();
        let before = all_deps(head, provider, skip_vo);
        let now = all_deps(es, provider, skip_vo);
        let last = deps_of(es.last().bytes, provider, skip_vo);
        let i = choose|i: int| 0 <= i < now.len() && now[i] == p;
        assert(all_known(head, base, game)) by {
            assert forall|j: int| 0 <= j < head.len() implies known_bytes((#[trigger] head[j]).bytes, base, game) by {
                assert(head[j] == es[j]);
            }
        }
        if i < before.len() {
            assert(before[i] == p);
            assert(before.contains(p));
            lemma_deps_in_universe(head, base, game, provider, skip_vo, p);
        } else {
            assert(last[i - before.len()] == p);
            assert(last.contains(p));
            let bytes = es.last().bytes;
            assert(known_bytes(es[es.len() - 1].bytes, base, game));
            let a = file_deps(base, provider, skip_vo);
            let b = game_deps(game, provider, skip_vo);
            if exists|k: int| 0 <= k < base.len() && (#[trigger] base[k]).bytes == bytes {
                let k = choose|k: int| 0 <= k < base.len() && (#[trigger] base[k]).bytes == bytes;
                lemma_file_deps(base, provider, skip_vo, k, p);
                let m = choose|m: int| 0 <= m < a.len() && a[m] == p;
                assert((a + b)[m] == p);
            } else {
                let k = choose|k: int| 0 <= k < game.len() && (#[trigger] game[k]).1 == Some(bytes);
                lemma_game_deps(game, provider, skip_vo, k, bytes, p);
                let m = choose|m: int| 0 <= m < b.len() && b[m] == p;
                assert((a + b)[a.len() + m] == p);
            }
        }
    }
}

proof fn lemma_asset_is_chunk(game: Seq<(u64, Option<Seq<u8>>)>, path: Seq<char>)
    requires
        asset_in_game(game, path) is Some,
    ensures
        exists|i: int| 0 <= i < game.len() && (#[trigger] game[i]).1 == asset_in_game(game, path),
{
    let found = if game_bytes(game, path) is Some { path } else { twin(path)->0 };
    let i = chunk_of(game, found)->0;
    lemma_chunk_of(game, found);
    assert(game[i].1 == asset_in_game(game, path));
}

proof fn lemma_chunk_of(game: Seq<(u64, Option<Seq<u8>>)>, path: Seq<char>)
    ensures
        chunk_of(game, path) matches Some(i) ==> 0 <= i < game.len(),
{
    let a = path_hash(path);
    if exists|i: int| chunk_at(game, a, i) {
        let i = choose|i: int| chunk_at(game, a, i);
        assert(chunk_at(game, a, i));
    } else if let Some(p) = without_inner_tag(path) {
        let b = path_hash(p);
        if exists|i: int| chunk_at(game, b, i) {
            let i = choose|i: int| chunk_at(game, b, i);
            assert(chunk_at(game, b, i));
        }
    }
}

proof fn lemma_tried_known(
    d: Deep,
    key: Seq<char>,
    path: Seq<char>,
    game: Seq<(u64, Option<Seq<u8>>)>,
    base: Seq<Entry>,
)
    requires
        all_known(d.files, base, game),
    ensures
        all_known(tried(d, key, path, game).0.files, base, game),
{
    if !d.seen.contains(key) && asset_in_game(game, path) is Some {
        lemma_asset_is_chunk(game, path);
        let now = tried(d, key, path, game).0.files;
        assert forall|i: int| 0 <= i < now.len() implies known_bytes((#[trigger] now[i]).bytes, base, game) by {
            if i < d.files.len() {
                assert(known_bytes(d.files[i].bytes, base, game));
            } else {
                let k = choose|k: int| 0 <= k < game.len() && (#[trigger] game[k]).1 == asset_in_game(game, path);
                assert(game[k].1 == Some(now[i].bytes));
            }
        }
    }
}

proof fn lemma_pulled_known(d: Deep, paths: Seq<Seq<char>>, game: Seq<(u64, Option<Seq<u8>>)>, base: Seq<Entry>)
    requires
        all_known(d.files, base, game),
    ensures
        all_known(pulled_all(d, paths, game).files, base, game),
    decreases paths.len(),
{
    if paths.len() > 0 {
        lemma_pulled_known(d, paths.drop_last(), game, base);
        lemma_tried_known(
            pulled_all(d, paths.drop_last(), game),
            normal(paths.last()),
            paths.last(),
            game,
            base,
        );
    }
}

/// Where a pass pulled nothing, nothing is left to pull.
proof fn lemma_empty_pass_closes<P: BinProvider>(
    d: Deep,
    game: Seq<(u64, Option<Seq<u8>>)>,
    provider: P,
    skip_vo: bool,
)
    requires
        pulled_all(d, to_pull(d, provider, skip_vo), game).pulled == d.pulled,
    ensures
        to_pull(pulled_all(d, to_pull(d, provider, skip_vo), game), provider, skip_vo).len() == 0,
{
    let list = to_pull(d, provider, skip_vo);
    let e = pulled_all(d, list, game);
    let paths = distinct(all_deps(d.files, provider, skip_vo));
    lemma_pulled_all(d, list, game);
    let left = to_pull(e, provider, skip_vo);
    if left.len() > 0 {
        let p = left[0];
        assert(left.contains(p));
        lemma_open_paths(paths, e, p);
        assert(!d.seen.contains(normal(p)));
        lemma_open_paths(paths, d, p);
        assert(list.contains(p));
        let k = choose|k: int| 0 <= k < list.len() && list[k] == p;
        assert(e.seen.contains(normal(list[k])));
    }
}

fn is_shipped(files: &Vec<WadEntry>, path: &str) -> (r: bool)
    ensures
        r == ships(entries(files@), path@),
{
    let index = index_files(files);
    proof {
        lemma_index_ships(index, entries(files@), path@);
    }
    index.has(path, &WadHasher)
}

/// Try one path, unless it is seen. Returns whether it was tried, and whether it was
/// pulled.
fn try_path(
    files: &mut Vec<WadEntry>,
    seen: &mut Vec<String>,
    key: String,
    path: &str,
    game: &GameArchive,
    Ghost(d): Ghost<Deep>,
) -> (r: (bool, bool))
    requires
        entries(old(files)@) == d.files,
        texts(old(seen)@) == d.seen,
    ensures
        ({
            let w = tried(d, key@, path@, game@);
            &&& entries(final(files)@) == w.0.files
            &&& texts(final(seen)@) == w.0.seen
            &&& r.0 == !d.seen.contains(key@)
            &&& r.1 == w.1
            &&& w.0.pulled == (if r.1 { d.pulled + 1 } else { d.pulled })
        }),
{
    proof {
        lemma_listed(seen@, key@);
    }
    if is_listed(seen, key.as_str()) {
        return (false, false);
    }
    let ghost before = seen@;
    seen.push(key);
    proof {
        lemma_texts_push(before, key);
    }
    let hit = pull_one(path, game, files);
    (true, hit)
}

/// Pull the skin BIN of each seed of the mod that it does not ship.
fn backfill_seeds(files: &mut Vec<WadEntry>, seen: &mut Vec<String>, stats: &mut DeepRepairStats, game: &GameArchive) -> (d: Ghost<
    Deep,
>)
    requires
        texts(old(seen)@) == at_start(entries(old(files)@)).seen,
        *old(stats) == counted(at_start(entries(old(files)@)), 0),
    ensures
        d@ == at_seeds(entries(old(files)@), game@),
        entries(final(files)@) == d@.files,
        texts(final(seen)@) == d@.seen,
        *final(stats) == counted(d@, 0),
{
    let ghost es = entries(files@);
    let paths = list_paths(files);
    let list = discover_seeds(&paths);
    let ghost all = seeds(list@);
    let ghost start = at_start(es);
    let ghost mut d = start;
    let mut i: usize = 0;
    assert(capped(1) == 1u32);
    while i < list.len()
        invariant
            all == seeds(list@),
            i <= list@.len(),
            d == seeded(start, all.take(i as int), game@),
            entries(files@) == d.files,
            texts(seen@) == d.seen,
            *stats == counted(d, 0),
            capped(1) == 1u32,
        decreases list@.len() - i,
    {
        proof {
            lemma_take_next(all, i as int);
            assert(all[i as int] == list@[i as int]@);
        }
        let candidates = canonical_seed_bin_paths(&list[i]);
        let ghost seed = all[i as int];
        proof {
            assert(texts(candidates@).len() == candidates@.len());
            assert(texts(candidates@)[0] == candidates@[0]@);
            assert(texts(candidates@)[1] == candidates@[1]@);
        }
        let a = candidates[0].as_str();
        let b = candidates[1].as_str();
        if !is_shipped(files, a) && !is_shipped(files, b) {
            let key = to_lower(a);
            let (_, hit) = try_path(files, seen, key, a, game, Ghost(d));
            let ghost first = tried(d, lowered(a@), a@, game@).0;
            if hit {
                stats.seed_bins_added = add_count(stats.seed_bins_added, 1);
                stats.files_pulled = add_count(stats.files_pulled, 1);
                proof {
                    d = Deep { seeds: first.seeds + 1, ..first };
                    assert(stats.seed_bins_added == capped(d.seeds));
                    assert(stats.files_pulled == capped(d.pulled));
                }
            } else {
                let key = to_lower(b);
                let (_, hit) = try_path(files, seen, key, b, game, Ghost(first));
                let ghost second = tried(first, lowered(b@), b@, game@).0;
                if hit {
                    stats.seed_bins_added = add_count(stats.seed_bins_added, 1);
                    stats.files_pulled = add_count(stats.files_pulled, 1);
                    proof {
                        d = Deep { seeds: second.seeds + 1, ..second };
                        assert(stats.seed_bins_added == capped(d.seeds));
                        assert(stats.files_pulled == capped(d.pulled));
                    }
                } else {
                    proof {
                        d = second;
                    }
                }
            }
        }
        i = i + 1;
    }
    assert(all.take(i as int) =~= all);
    Ghost(d)
}

/// What a pass has to pull.
fn list_open<P: BinProvider>(files: &Vec<WadEntry>, seen: &Vec<String>, provider: &P, skip_vo: bool, Ghost(d): Ghost<Deep>) -> (r: Vec<
    String,
>)
    requires
        entries(files@) == d.files,
        texts(seen@) == d.seen,
    ensures
        texts(r@) == to_pull(d, *provider, skip_vo),
{
    let deps = collect_all_deps(files, provider, skip_vo);
    let index = index_files(files);
    let ghost all = texts(deps@);
    let mut out: Vec<String> = Vec::new();
    let mut i: usize = 0;
    assert(texts(out@) =~= open_paths(all.take(0), d));
    while i < deps.len()
        invariant
            all == texts(deps@),
            indexes(index, d.files),
            texts(seen@) == d.seen,
            i <= deps@.len(),
            texts(out@) == open_paths(all.take(i as int), d),
        decreases deps@.len() - i,
    {
        let key = normalize(deps[i].as_str());
        proof {
            lemma_take_next(all, i as int);
            lemma_index_ships(index, d.files, all[i as int]);
            lemma_listed(seen@, key@);
        }
        if !is_listed(seen, key.as_str()) && !index.has(deps[i].as_str(), &WadHasher) {
            let ghost before = out@;
            let p = deps[i].clone();
            out.push(p);
            proof {
                lemma_texts_push(before, p);
            }
        }
        i = i + 1;
    }
    assert(all.take(i as int) =~= all);
    out
}

/// Make a mod self-contained: pull everything that it refers to, and that the pulled
/// files refer to in turn, out of the game's archive, until a pass finds nothing new.
///
/// A mod that ships no skin BIN of its own gets those of the skins that its paths name.
pub fn resolve_from_game_wad<P: BinProvider>(
    game: &GameArchive,
    all_files: &mut Vec<WadEntry>,
    provider: &P,
    skip_vo: bool,
) -> (r: DeepRepairStats)
    ensures
        exists|n: nat|
            {
                &&& #[trigger] closed_after(at_seeds(entries(old(all_files)@), game@), n, game@, *provider, skip_vo)
                &&& entries(final(all_files)@) == passes(
                    at_seeds(entries(old(all_files)@), game@),
                    n,
                    game@,
                    *provider,
                    skip_vo,
                ).files
                &&& r == told(
                    passes(at_seeds(entries(old(all_files)@), game@), n, game@, *provider, skip_vo),
                    n,
                )
            },
{
    let ghost es = entries(all_files@);
    let mut stats = DeepRepairStats { seed_bins_added: 0, files_pulled: 0, missing_unresolved: 0, iterations: 0 };
    let mut seen: Vec<String> = Vec::new();
    let mut i: usize = 0;
    while i < all_files.len()
        invariant
            i <= all_files@.len(),
            seen@.len() == i,
            forall|j: int| 0 <= j < i ==> (#[trigger] seen@[j])@ == normal(all_files@[j].1@),
        decreases all_files@.len() - i,
    {
        seen.push(normalize(all_files[i].1.as_str()));
        i = i + 1;
    }
    assert(texts(seen@) =~= at_start(es).seen);
    let start = backfill_seeds(all_files, &mut seen, &mut stats, game);
    let ghost d0 = start@;
    let ghost mut n: nat = 0;
    let ghost base = d0.files;
    let ghost world = universe(base, game@, *provider, skip_vo);
    assert(all_known(base, base, game@));
    assert(capped(1) == 1u32);
    loop
        invariant
            d0 == at_seeds(es, game@),
            base == d0.files,
            world == universe(base, game@, *provider, skip_vo),
            entries(all_files@) == passes(d0, n, game@, *provider, skip_vo).files,
            texts(seen@) == passes(d0, n, game@, *provider, skip_vo).seen,
            all_known(entries(all_files@), base, game@),
            stats == counted(passes(d0, n, game@, *provider, skip_vo), n),
            forall|k: nat|
                k < n ==> to_pull(#[trigger] passes(d0, k, game@, *provider, skip_vo), *provider, skip_vo).len() > 0,
            capped(1) == 1u32,
        ensures
            closed_after(d0, n, game@, *provider, skip_vo),
            entries(all_files@) == passes(d0, n, game@, *provider, skip_vo).files,
            stats == counted(passes(d0, n, game@, *provider, skip_vo), n),
        decreases unseen(world, texts(seen@)),
    {
        let ghost d = passes(d0, n, game@, *provider, skip_vo);
        let list = list_open(all_files, &seen, provider, skip_vo, Ghost(d));
        let ghost all = texts(list@);
        assert(all.len() == list@.len());
        if list.len() == 0 {
            break;
        }
        let ghost seen0 = texts(seen@);
        let mut any = false;
        let mut k: usize = 0;
        while k < list.len()
            invariant
                all == texts(list@),
                k <= list@.len(),
                entries(all_files@) == pulled_all(d, all.take(k as int), game@).files,
                texts(seen@) == pulled_all(d, all.take(k as int), game@).seen,
                any == (pulled_all(d, all.take(k as int), game@).pulled > d.pulled),
                pulled_all(d, all.take(k as int), game@).pulled >= d.pulled,
                stats == counted(pulled_all(d, all.take(k as int), game@), n),
                capped(1) == 1u32,
            decreases list@.len() - k,
        {
            let ghost before = pulled_all(d, all.take(k as int), game@);
            proof {
                lemma_take_next(all, k as int);
            }
            let key = normalize(list[k].as_str());
            let (fresh, hit) = try_path(all_files, &mut seen, key, list[k].as_str(), game, Ghost(before));
            if hit {
                any = true;
                stats.files_pulled = add_count(stats.files_pulled, 1);
                assert(stats.files_pulled == capped(before.pulled + 1));
            } else if fresh {
                stats.missing_unresolved = add_count(stats.missing_unresolved, 1);
                assert(stats.missing_unresolved == capped(before.missing + 1));
            }
            k = k + 1;
        }
        assert(all.take(k as int) =~= all);
        let ghost e = pulled_all(d, all, game@);
        assert(stats.iterations == capped(n));
        stats.iterations = add_count(stats.iterations, 1);
        assert(stats.iterations == capped(n + 1));
        proof {
            lemma_pulled_all(d, all, game@);
            lemma_pulled_known(d, all, game@, base);
            // The first path was not seen, and is now.
            let p = all[0];
            assert(all.contains(p));
            lemma_open_paths(distinct(all_deps(d.files, *provider, skip_vo)), d, p);
            crate::text::lemma_distinct(all_deps(d.files, *provider, skip_vo));
            lemma_deps_in_universe(d.files, base, game@, *provider, skip_vo, p);
            assert(e.seen.contains(normal(all[0])));
            lemma_unseen(world, seen0, e.seen);
            assert(passes(d0, n + 1, game@, *provider, skip_vo) == e);
            assert forall|j: nat| j < n + 1 implies to_pull(
                #[trigger] passes(d0, j, game@, *provider, skip_vo),
                *provider,
                skip_vo,
            ).len() > 0 by {
                if j == n {
                    assert(passes(d0, j, game@, *provider, skip_vo) == d);
                }
            }
            n = n + 1;
            if !any {
                lemma_empty_pass_closes(d, game@, *provider, skip_vo);
            }
        }
        if !any {
            break;
        }
    }
    if stats.iterations == 0 && stats.files_pulled > 0 {
        stats.iterations = 1;
    }
    stats
}

/// A repair that pulled anything tells of at least one pass.
pub proof fn law_work_takes_a_pass(d: Deep, n: nat)
    requires
        told(d, n).files_pulled > 0,
    ensures
        told(d, n).iterations >= 1,
{
}

/// A deep repair leaves the files of the mod where they are.
pub proof fn law_deep_repair_keeps_files<P: BinProvider>(
    d: Deep,
    n: nat,
    game: Seq<(u64, Option<Seq<u8>>)>,
    provider: P,
    skip_vo: bool,
)
    ensures
        d.files.len() <= passes(d, n, game, provider, skip_vo).files.len(),
        passes(d, n, game, provider, skip_vo).files.take(d.files.len() as int) == d.files,
    decreases n,
{
    if n > 0 {
        law_deep_repair_keeps_files(d, (n - 1) as nat, game, provider, skip_vo);
        let before = passes(d, (n - 1) as nat, game, provider, skip_vo);
        lemma_pulled_all(before, to_pull(before, provider, skip_vo), game);
        let now = passes(d, n, game, provider, skip_vo);
        assert(now.files.take(d.files.len() as int) =~= now.files.take(before.files.len() as int).take(
            d.files.len() as int,
        ));
    } else {
        assert(d.files.take(d.files.len() as int) =~= d.files);
    }
}

/// When a deep repair ends, everything that a file of the mod refers to is shipped or was
/// looked for in the game.
pub proof fn law_deep_repair_is_closed<P: BinProvider>(
    d: Deep,
    n: nat,
    game: Seq<(u64, Option<Seq<u8>>)>,
    provider: P,
    skip_vo: bool,
    p: Seq<char>,
)
    requires
        closed_after(d, n, game, provider, skip_vo),
        all_deps(passes(d, n, game, provider, skip_vo).files, provider, skip_vo).contains(p),
    ensures
        ({
            let e = passes(d, n, game, provider, skip_vo);
            ships(e.files, p) || e.seen.contains(normal(p))
        }),
{
    let e = passes(d, n, game, provider, skip_vo);
    let deps = all_deps(e.files, provider, skip_vo);
    crate::text::lemma_distinct(deps);
    lemma_open_paths(distinct(deps), e, p);
    if !ships(e.files, p) && !e.seen.contains(normal(p)) {
        assert(to_pull(e, provider, skip_vo).contains(p));
    }
}

/// A deep repair of a self-contained mod does nothing: without an open reference there
/// is no pass.
pub proof fn law_self_contained_needs_no_pass<P: BinProvider>(
    d: Deep,
    n: nat,
    game: Seq<(u64, Option<Seq<u8>>)>,
    provider: P,
    skip_vo: bool,
)
    requires
        closed_after(d, n, game, provider, skip_vo),
        to_pull(d, provider, skip_vo).len() == 0,
    ensures
        n == 0,
        passes(d, n, game, provider, skip_vo) == d,
{
    if n > 0 {
        assert(passes(d, 0, game, provider, skip_vo) == d);
    }
}

/// A BIN refers to a path: it links to it, or one of its strings or links, normalized, is
/// the path of an asset that is not voice-over that is skipped.
pub open spec fn refers(b: Bin, p: Seq<char>, skip_vo: bool) -> bool {
    b.tree.linked.contains(p) || exists|v: Seq<char>|
        {
            &&& #[trigger] normal(v) == p
            &&& strings_in_objects(b.tree.objects).contains(v) || b.tree.linked.contains(v)
            &&& begins(p, "assets/"@) || begins(p, "data/"@) || modder_root(p)
            &&& skip_vo ==> !holds(p, "/wwise2016/vo/"@)
        }
}

/// The file is a BIN, by its name or by the magic at its start.
pub open spec fn bin_file(e: Entry) -> bool {
    ends(lowered(e.path), ".bin"@) || (e.bytes.len() >= 4 && (e.bytes.take(4) == seq![0x50u8, 0x52, 0x4f, 0x50] || e.bytes.take(4)
        == seq![0x50u8, 0x54, 0x43, 0x48]))
}

/// Nothing among the files stands for a path: none has it or its hash, nor those of the
/// same name with a texture or mesh extension in place of its own.
pub open spec fn nothing_stands_for(es: Seq<Entry>, p: Seq<char>) -> bool {
    &&& forall|i: int| 0 <= i < es.len() ==> normal((#[trigger] es[i]).path) != normal(p) && es[i].hash != path_hash(normal(p))
    &&& forall|i: int, ext: Seq<char>|
        0 <= i < es.len() && p.len() >= 4 && (ext == ".dds"@ || ext == ".tex"@ || ext == ".sco"@ || ext == ".scb"@) ==> {
            &&& normal((#[trigger] es[i]).path) != normal(#[trigger] (p.take(p.len() - 4) + ext))
            &&& es[i].hash != path_hash(normal(p.take(p.len() - 4) + ext))
        }
}

/// The normalized form of a candidate is among the asset references.
pub proof fn lemma_asset_refs(ss: Seq<Seq<char>>, skip_vo: bool, v: Seq<char>)
    requires
        ss.contains(v),
        repath_candidate(v, skip_vo),
    ensures
        asset_refs(ss, skip_vo).contains(normal(v)),
    decreases ss.len(),
{
    let k = choose|k: int| 0 <= k < ss.len() && ss[k] == v;
    let head = ss.drop_last();
    let before = asset_refs(head, skip_vo);
    let now = asset_refs(ss, skip_vo);
    if k < head.len() {
        assert(head[k] == v);
        lemma_asset_refs(head, skip_vo, v);
        let i = choose|i: int| 0 <= i < before.len() && before[i] == normal(v);
        assert(now[i] == normal(v));
    } else {
        assert(now[now.len() - 1] == normal(v));
    }
}

proof fn lemma_asset_refs_only(ss: Seq<Seq<char>>, skip_vo: bool, p: Seq<char>)
    requires
        asset_refs(ss, skip_vo).contains(p),
    ensures
        exists|v: Seq<char>| ss.contains(v) && #[trigger] normal(v) == p && repath_candidate(v, skip_vo),
    decreases ss.len(),
{
    if ss.len() > 0 {
        let head = ss.drop_last();
        let before = asset_refs(head, skip_vo);
        let now = asset_refs(ss, skip_vo);
        let i = choose|i: int| 0 <= i < now.len() && now[i] == p;
        if i < before.len() {
            assert(before[i] == p);
            lemma_asset_refs_only(head, skip_vo, p);
            let v = choose|v: Seq<char>| head.contains(v) && #[trigger] normal(v) == p && repath_candidate(v, skip_vo);
            let k = choose|k: int| 0 <= k < head.len() && head[k] == v;
            assert(ss[k] == v);
            assert(normal(v) == p);
        } else {
            let v = ss.last();
            assert(ss[ss.len() - 1] == v);
            assert(normal(v) == p);
        }
    }
}

proof fn lemma_in_sum(a: Seq<Seq<char>>, b: Seq<Seq<char>>, x: Seq<char>)
    ensures
        (a + b).contains(x) <==> a.contains(x) || b.contains(x),
{
    if a.contains(x) {
        let i = choose|i: int| 0 <= i < a.len() && a[i] == x;
        assert((a + b)[i] == x);
    }
    if b.contains(x) {
        let i = choose|i: int| 0 <= i < b.len() && b[i] == x;
        assert((a + b)[a.len() + i] == x);
    }
    if (a + b).contains(x) {
        let i = choose|i: int| 0 <= i < (a + b).len() && (a + b)[i] == x;
        if i < a.len() {
            assert(a[i] == x);
        } else {
            assert(b[i - a.len()] == x);
        }
    }
}

/// What some bytes are taken to refer to is what the BIN that they hold refers to.
pub proof fn law_references_are_followed<P: BinProvider>(bytes: Seq<u8>, provider: P, skip_vo: bool, p: Seq<char>)
    ensures
        deps_of(bytes, provider, skip_vo).contains(p) <==> (provider.parsed(bytes) matches Some(b) && refers(b, p, skip_vo)),
{
    if let Some(b) = provider.parsed(bytes) {
        let ss = strings_in_objects(b.tree.objects);
        let ls = b.tree.linked;
        let x = asset_refs(ss, skip_vo);
        let y = asset_refs(ls, skip_vo);
        lemma_in_sum(x, y, p);
        lemma_in_sum(x + y, ls, p);
        if refers(b, p, skip_vo) && !ls.contains(p) {
            let v = choose|v: Seq<char>|
                {
                    &&& #[trigger] normal(v) == p
                    &&& ss.contains(v) || ls.contains(v)
                    &&& begins(p, "assets/"@) || begins(p, "data/"@) || modder_root(p)
                    &&& skip_vo ==> !holds(p, "/wwise2016/vo/"@)
                };
            assert(repath_candidate(v, skip_vo));
            if ss.contains(v) {
                lemma_asset_refs(ss, skip_vo, v);
            } else {
                lemma_asset_refs(ls, skip_vo, v);
            }
        }
        if x.contains(p) {
            lemma_asset_refs_only(ss, skip_vo, p);
            let v = choose|v: Seq<char>| ss.contains(v) && #[trigger] normal(v) == p && repath_candidate(v, skip_vo);
            assert(normal(v) == p);
        }
        if y.contains(p) {
            lemma_asset_refs_only(ls, skip_vo, p);
            let v = choose|v: Seq<char>| ls.contains(v) && #[trigger] normal(v) == p && repath_candidate(v, skip_vo);
            assert(normal(v) == p);
        }
    }
}

/// A file is a BIN by its name or its magic.
pub proof fn lemma_bin_file(e: Entry)
    ensures
        bin_file(e) == is_bin(e),
{
    if e.bytes.len() >= 4 {
        assert(e.bytes.take(4) =~= e.bytes.subrange(0, 4));
    }
}

proof fn lemma_all_deps<P: BinProvider>(es: Seq<Entry>, provider: P, skip_vo: bool, p: Seq<char>)
    ensures
        all_deps(es, provider, skip_vo).contains(p) <==> exists|i: int|
            0 <= i < es.len() && bin_file(#[trigger] es[i]) && deps_of(es[i].bytes, provider, skip_vo).contains(p),
    decreases es.len(),
{
    if es.len() > 0 {
        let head = es.drop_last();
        let e = es.last();
        lemma_all_deps(head, provider, skip_vo, p);
        lemma_bin_file(e);
        lemma_in_sum(all_deps(head, provider, skip_vo), deps_of(e.bytes, provider, skip_vo), p);
        if exists|i: int| 0 <= i < es.len() && bin_file(#[trigger] es[i]) && deps_of(es[i].bytes, provider, skip_vo).contains(p) {
            let i = choose|i: int| 0 <= i < es.len() && bin_file(#[trigger] es[i]) && deps_of(es[i].bytes, provider, skip_vo).contains(p);
            if i < head.len() {
                assert(head[i] == es[i]);
            }
        }
        if all_deps(head, provider, skip_vo).contains(p) {
            let i = choose|i: int|
                0 <= i < head.len() && bin_file(#[trigger] head[i]) && deps_of(head[i].bytes, provider, skip_vo).contains(p);
            assert(es[i] == head[i]);
        }
        if is_bin(e) && deps_of(e.bytes, provider, skip_vo).contains(p) {
            assert(bin_file(es[es.len() - 1]));
        }
    }
}

/// What nothing stands for is not shipped.
pub proof fn lemma_not_shipped(es: Seq<Entry>, p: Seq<char>)
    requires
        nothing_stands_for(es, p),
    ensures
        !ships(es, p),
{
    reveal_strlit(".dds");
    reveal_strlit(".tex");
    reveal_strlit(".sco");
    reveal_strlit(".scb");
    if carries(es, normal(p)) {
        let i = choose|i: int| 0 <= i < es.len() && (normal((#[trigger] es[i]).path) == normal(p) || es[i].hash == path_hash(normal(p)));
        assert(normal(es[i].path) != normal(p));
    }
    if let Some(t) = twin_path(p) {
        if carries(es, normal(t)) {
            let i = choose|i: int|
                0 <= i < es.len() && (normal((#[trigger] es[i]).path) == normal(t) || es[i].hash == path_hash(normal(t)));
            let low = ascii_lowered(p);
            let ext = if ends(low, ".dds"@) {
                ".tex"@
            } else if ends(low, ".tex"@) {
                ".dds"@
            } else if ends(low, ".sco"@) {
                ".scb"@
            } else {
                ".sco"@
            };
            assert(p.subrange(0, p.len() - 4) =~= p.take(p.len() - 4));
            assert(t == p.take(p.len() - 4) + ext);
        }
    }
}

/// Files that a state has stay in the states that follow, and what is seen later was seen
/// before or is a path that was tried.
proof fn lemma_pulled_seen(d: Deep, paths: Seq<Seq<char>>, game: Seq<(u64, Option<Seq<u8>>)>, x: Seq<char>)
    requires
        pulled_all(d, paths, game).seen.contains(x),
    ensures
        d.seen.contains(x) || exists|y: Seq<char>| paths.contains(y) && #[trigger] normal(y) == x,
    decreases paths.len(),
{
    if paths.len() > 0 {
        let head = paths.drop_last();
        let before = pulled_all(d, head, game);
        let now = pulled_all(d, paths, game);
        let i = choose|i: int| 0 <= i < now.seen.len() && now.seen[i] == x;
        if i < before.seen.len() {
            assert(before.seen[i] == x);
            lemma_pulled_seen(d, head, game, x);
            if !d.seen.contains(x) {
                let y = choose|y: Seq<char>| head.contains(y) && #[trigger] normal(y) == x;
                let k = choose|k: int| 0 <= k < head.len() && head[k] == y;
                assert(paths[k] == y);
                assert(normal(y) == x);
            }
        } else {
            assert(paths[paths.len() - 1] == paths.last());
            assert(normal(paths.last()) == x);
        }
    }
}

proof fn lemma_pulled_entry(d: Deep, paths: Seq<Seq<char>>, game: Seq<(u64, Option<Seq<u8>>)>, p: Seq<char>)
    requires
        paths.contains(p),
        !d.seen.contains(normal(p)),
        forall|y: Seq<char>| paths.contains(y) && #[trigger] normal(y) == normal(p) ==> y == p,
        asset_in_game(game, p) is Some,
    ensures
        pulled_all(d, paths, game).files.contains(new_entry(p, asset_in_game(game, p)->0)),
    decreases paths.len(),
{
    let head = paths.drop_last();
    let before = pulled_all(d, head, game);
    let now = pulled_all(d, paths, game);
    let e = new_entry(p, asset_in_game(game, p)->0);
    assert forall|y: Seq<char>| head.contains(y) && #[trigger] normal(y) == normal(p) implies y == p by {
        let k = choose|k: int| 0 <= k < head.len() && head[k] == y;
        assert(paths[k] == y);
    }
    if head.contains(p) {
        lemma_pulled_entry(d, head, game, p);
        let k = choose|k: int| 0 <= k < before.files.len() && before.files[k] == e;
        assert(now.files[k] == e);
    } else {
        let k = choose|k: int| 0 <= k < paths.len() && paths[k] == p;
        if k < head.len() {
            assert(head[k] == p);
        }
        assert(paths.last() == p);
        if before.seen.contains(normal(p)) {
            lemma_pulled_seen(d, head, game, normal(p));
            let y = choose|y: Seq<char>| head.contains(y) && #[trigger] normal(y) == normal(p);
            assert(y == p);
        }
        assert(now.files[now.files.len() - 1] == e);
    }
}

/// The path is that of the skin BIN of one of the seeds.
pub open spec fn seed_bin(list: Seq<Seed>, key: Seq<char>) -> bool {
    exists|i: int|
        0 <= i < list.len() && (lowered(seed_path(#[trigger] list[i])) == key || lowered(seed_asset_path(list[i])) == key)
}

proof fn lemma_seeded_seen(d: Deep, list: Seq<Seed>, game: Seq<(u64, Option<Seq<u8>>)>, x: Seq<char>)
    requires
        seeded(d, list, game).seen.contains(x),
    ensures
        d.seen.contains(x) || seed_bin(list, x),
    decreases list.len(),
{
    if list.len() > 0 {
        let head = list.drop_last();
        let before = seeded(d, head, game);
        let now = seeded(d, list, game);
        let seed = list.last();
        let i = choose|i: int| 0 <= i < now.seen.len() && now.seen[i] == x;
        if i < before.seen.len() {
            assert(before.seen[i] == x);
            lemma_seeded_seen(d, head, game, x);
            if !d.seen.contains(x) {
                let k = choose|k: int|
                    0 <= k < head.len() && (lowered(seed_path(#[trigger] head[k])) == x || lowered(seed_asset_path(head[k])) == x);
                assert(list[k] == head[k]);
            }
        } else {
            assert(list[list.len() - 1] == seed);
        }
    }
}

proof fn lemma_seeded_files(d: Deep, list: Seq<Seed>, game: Seq<(u64, Option<Seq<u8>>)>)
    ensures
        d.files.len() <= seeded(d, list, game).files.len(),
        seeded(d, list, game).files.take(d.files.len() as int) == d.files,
        seeded(d, list, game).files.len() - d.files.len() == seeded(d, list, game).pulled - d.pulled,
        seeded(d, list, game).pulled - d.pulled == seeded(d, list, game).seeds - d.seeds,
    decreases list.len(),
{
    if list.len() > 0 {
        lemma_seeded_files(d, list.drop_last(), game);
        let before = seeded(d, list.drop_last(), game);
        let now = seeded(d, list, game);
        assert(now.files.take(d.files.len() as int) =~= before.files.take(d.files.len() as int));
    } else {
        assert(d.files.take(d.files.len() as int) =~= d.files);
    }
}

/// Whatever the BINs of a mod refer to, the mod does not ship and the game has under the
/// hash of its path is in the mod after a deep repair, at that path and with the game's
/// bytes. No BIN of the mod may link to it in another spelling, and it must not be the
/// skin BIN of one of the mod's seeds, which is pulled before.
pub proof fn law_missing_references_are_pulled<P: BinProvider>(
    es: Seq<Entry>,
    n: nat,
    game: Seq<(u64, Option<Seq<u8>>)>,
    provider: P,
    skip_vo: bool,
    f: int,
    p: Seq<char>,
    chunk: int,
    bytes: Seq<u8>,
)
    requires
        closed_after(at_seeds(es, game), n, game, provider, skip_vo),
        0 <= f < es.len(),
        bin_file(es[f]),
        provider.parsed(es[f].bytes) is Some,
        refers(provider.parsed(es[f].bytes)->0, p, skip_vo),
        nothing_stands_for(at_seeds(es, game).files, p),
        !seed_bin(discovered(paths_of(es)), normal(p)),
        forall|i: int, y: Seq<char>|
            0 <= i < at_seeds(es, game).files.len() && (provider.parsed((#[trigger] at_seeds(es, game).files[i]).bytes) matches Some(b)
                && refers(b, y, skip_vo)) && #[trigger] normal(y) == normal(p) ==> y == p,
        0 <= chunk < game.len(),
        game[chunk] == (path_hash(p), Some(bytes)),
        forall|j: int| 0 <= j < chunk ==> (#[trigger] game[j]).0 != path_hash(p),
    ensures
        n > 0,
        passes(at_seeds(es, game), n, game, provider, skip_vo).files.contains(
            (Entry { hash: path_hash(p), path: p, bytes }),
        ),
{
    let d = at_seeds(es, game);
    let start = at_start(es);
    lemma_seeded_files(start, discovered(paths_of(es)), game);
    assert(d.files[f] == d.files.take(es.len() as int)[f]);
    law_references_are_followed(es[f].bytes, provider, skip_vo, p);
    assert(bin_file(d.files[f]));
    lemma_all_deps(d.files, provider, skip_vo, p);
    let deps = all_deps(d.files, provider, skip_vo);
    crate::text::lemma_distinct(deps);
    lemma_not_shipped(d.files, p);
    if d.seen.contains(normal(p)) {
        lemma_seeded_seen(start, discovered(paths_of(es)), game, normal(p));
        let k = choose|k: int| 0 <= k < start.seen.len() && start.seen[k] == normal(p);
        assert(d.files[k] == d.files.take(es.len() as int)[k]);
        assert(normal(d.files[k].path) == normal(p));
    }
    lemma_open_paths(distinct(deps), d, p);
    let list = to_pull(d, provider, skip_vo);
    assert(list.contains(p));
    assert(chunk_at(game, path_hash(p), chunk));
    let c = choose|c: int| chunk_at(game, path_hash(p), c);
    assert(chunk_at(game, path_hash(p), c));
    if c < chunk {
        assert(game[c].0 != path_hash(p));
    }
    if chunk < c {
        assert(game[chunk].0 != path_hash(p));
    }
    assert(asset_in_game(game, p) == Some(bytes));
    assert forall|y: Seq<char>| list.contains(y) && #[trigger] normal(y) == normal(p) implies y == p by {
        lemma_open_paths(distinct(deps), d, y);
        lemma_all_deps(d.files, provider, skip_vo, y);
        let i = choose|i: int|
            0 <= i < d.files.len() && bin_file(#[trigger] d.files[i]) && deps_of(d.files[i].bytes, provider, skip_vo).contains(y);
        law_references_are_followed(d.files[i].bytes, provider, skip_vo, y);
    }
    lemma_pulled_entry(d, list, game, p);
    let first = passes(d, 1, game, provider, skip_vo);
    assert(passes(d, 0, game, provider, skip_vo) == d);
    assert(first == pulled_all(d, list, game));
    if n == 0 {
        assert(list.len() == 0);
    }
    lemma_passes_grow(d, 1, n, game, provider, skip_vo);
    let end = passes(d, n, game, provider, skip_vo);
    let e = new_entry(p, bytes);
    let k = choose|k: int| 0 <= k < first.files.len() && first.files[k] == e;
    assert(end.files[k] == end.files.take(first.files.len() as int)[k]);
}

proof fn lemma_passes_grow<P: BinProvider>(
    d: Deep,
    m: nat,
    n: nat,
    game: Seq<(u64, Option<Seq<u8>>)>,
    provider: P,
    skip_vo: bool,
)
    requires
        m <= n,
    ensures
        ({
            let a = passes(d, m, game, provider, skip_vo);
            let b = passes(d, n, game, provider, skip_vo);
            a.files.len() <= b.files.len() && b.files.take(a.files.len() as int) == a.files
        }),
    decreases n,
{
    let a = passes(d, m, game, provider, skip_vo);
    let b = passes(d, n, game, provider, skip_vo);
    if m == n {
        assert(b.files.take(a.files.len() as int) =~= a.files);
    } else {
        lemma_passes_grow(d, m, (n - 1) as nat, game, provider, skip_vo);
        let before = passes(d, (n - 1) as nat, game, provider, skip_vo);
        lemma_pulled_all(before, to_pull(before, provider, skip_vo), game);
        assert(b.files.take(a.files.len() as int) =~= b.files.take(before.files.len() as int).take(a.files.len() as int));
    }
}

/// A path was looked for and the game does not have it, or it was found: some file has it.
pub open spec fn settled(files: Seq<Entry>, key: Seq<char>, game: Seq<(u64, Option<Seq<u8>>)>) -> bool {
    ||| exists|i: int| 0 <= i < files.len() && (normal((#[trigger] files[i]).path) == key || lowered(files[i].path) == key)
    ||| exists|y: Seq<char>| (normal(y) == key || lowered(y) == key) && #[trigger] asset_in_game(game, y) is None
}

proof fn lemma_settled_stays(a: Seq<Entry>, b: Seq<Entry>, key: Seq<char>, game: Seq<(u64, Option<Seq<u8>>)>)
    requires
        a.len() <= b.len(),
        b.take(a.len() as int) == a,
        settled(a, key, game),
    ensures
        settled(b, key, game),
{
    if exists|i: int| 0 <= i < a.len() && (normal((#[trigger] a[i]).path) == key || lowered(a[i].path) == key) {
        let i = choose|i: int| 0 <= i < a.len() && (normal((#[trigger] a[i]).path) == key || lowered(a[i].path) == key);
        assert(b.take(a.len() as int)[i] == b[i]);
        assert(b[i] == a[i]);
    }
}

proof fn lemma_tried_settled(d: Deep, key: Seq<char>, path: Seq<char>, game: Seq<(u64, Option<Seq<u8>>)>)
    requires
        normal(path) == key || lowered(path) == key,
        forall|x: Seq<char>| #[trigger] d.seen.contains(x) ==> settled(d.files, x, game),
    ensures
        ({
            let e = tried(d, key, path, game).0;
            forall|x: Seq<char>| #[trigger] e.seen.contains(x) ==> settled(e.files, x, game)
        }),
{
    let e = tried(d, key, path, game).0;
    assert(e.files.take(d.files.len() as int) =~= d.files);
    assert forall|x: Seq<char>| #[trigger] e.seen.contains(x) implies settled(e.files, x, game) by {
        let i = choose|i: int| 0 <= i < e.seen.len() && e.seen[i] == x;
        if i < d.seen.len() {
            assert(d.seen[i] == x);
            assert(d.seen.contains(x));
            lemma_settled_stays(d.files, e.files, x, game);
        } else {
            if asset_in_game(game, path) is Some {
                let k = e.files.len() - 1;
                assert(e.files[k].path == path);
            }
        }
    }
}

proof fn lemma_seeded_settled(d: Deep, list: Seq<Seed>, game: Seq<(u64, Option<Seq<u8>>)>)
    requires
        forall|x: Seq<char>| #[trigger] d.seen.contains(x) ==> settled(d.files, x, game),
    ensures
        forall|x: Seq<char>| #[trigger] seeded(d, list, game).seen.contains(x) ==> settled(seeded(d, list, game).files, x, game),
    decreases list.len(),
{
    if list.len() > 0 {
        let before = seeded(d, list.drop_last(), game);
        lemma_seeded_settled(d, list.drop_last(), game);
        let a = seed_path(list.last());
        let b = seed_asset_path(list.last());
        lemma_tried_settled(before, lowered(a), a, game);
        let first = tried(before, lowered(a), a, game).0;
        lemma_tried_settled(first, lowered(b), b, game);
    }
}

proof fn lemma_pulled_settled(d: Deep, paths: Seq<Seq<char>>, game: Seq<(u64, Option<Seq<u8>>)>)
    requires
        forall|x: Seq<char>| #[trigger] d.seen.contains(x) ==> settled(d.files, x, game),
    ensures
        forall|x: Seq<char>| #[trigger] pulled_all(d, paths, game).seen.contains(x) ==> settled(
            pulled_all(d, paths, game).files,
            x,
            game,
        ),
        pulled_all(d, paths, game).files.len() - d.files.len() == pulled_all(d, paths, game).pulled - d.pulled,
    decreases paths.len(),
{
    if paths.len() > 0 {
        lemma_pulled_settled(d, paths.drop_last(), game);
        lemma_tried_settled(pulled_all(d, paths.drop_last(), game), normal(paths.last()), paths.last(), game);
    }
}

proof fn lemma_passes_settled<P: BinProvider>(
    d: Deep,
    n: nat,
    game: Seq<(u64, Option<Seq<u8>>)>,
    provider: P,
    skip_vo: bool,
)
    requires
        forall|x: Seq<char>| #[trigger] d.seen.contains(x) ==> settled(d.files, x, game),
    ensures
        ({
            let e = passes(d, n, game, provider, skip_vo);
            &&& forall|x: Seq<char>| #[trigger] e.seen.contains(x) ==> settled(e.files, x, game)
            &&& e.files.len() - d.files.len() == e.pulled - d.pulled
        }),
    decreases n,
{
    if n > 0 {
        lemma_passes_settled(d, (n - 1) as nat, game, provider, skip_vo);
        let before = passes(d, (n - 1) as nat, game, provider, skip_vo);
        lemma_pulled_settled(before, to_pull(before, provider, skip_vo), game);
    }
}

/// When a deep repair ends, whatever any BIN of the mod refers to, pulled BINs among them,
/// is shipped, or is a path that the game does not have. As many files were pulled as the
/// mod has more than before.
pub proof fn law_repaired_mod_is_self_contained<P: BinProvider>(
    es: Seq<Entry>,
    n: nat,
    game: Seq<(u64, Option<Seq<u8>>)>,
    provider: P,
    skip_vo: bool,
    f: int,
    p: Seq<char>,
)
    requires
        closed_after(at_seeds(es, game), n, game, provider, skip_vo),
        0 <= f < passes(at_seeds(es, game), n, game, provider, skip_vo).files.len(),
        bin_file(passes(at_seeds(es, game), n, game, provider, skip_vo).files[f]),
        provider.parsed(passes(at_seeds(es, game), n, game, provider, skip_vo).files[f].bytes) is Some,
        refers(provider.parsed(passes(at_seeds(es, game), n, game, provider, skip_vo).files[f].bytes)->0, p, skip_vo),
    ensures
        ({
            let e = passes(at_seeds(es, game), n, game, provider, skip_vo);
            &&& ships(e.files, p) || settled(e.files, normal(p), game)
            &&& e.files.len() == es.len() + e.pulled
            &&& e.files.take(es.len() as int) == es
        }),
{
    let start = at_start(es);
    let d = at_seeds(es, game);
    let e = passes(d, n, game, provider, skip_vo);
    assert forall|x: Seq<char>| #[trigger] start.seen.contains(x) implies settled(start.files, x, game) by {
        let i = choose|i: int| 0 <= i < start.seen.len() && start.seen[i] == x;
        assert(normal(start.files[i].path) == x);
    }
    lemma_seeded_settled(start, discovered(paths_of(es)), game);
    lemma_seeded_files(start, discovered(paths_of(es)), game);
    lemma_passes_settled(d, n, game, provider, skip_vo);
    law_references_are_followed(e.files[f].bytes, provider, skip_vo, p);
    lemma_all_deps(e.files, provider, skip_vo, p);
    law_deep_repair_is_closed(d, n, game, provider, skip_vo, p);
    law_deep_repair_keeps_files(d, n, game, provider, skip_vo);
    assert(e.files.take(es.len() as int) =~= e.files.take(d.files.len() as int).take(es.len() as int));
}

/// The game's bytes for a path are those of the first chunk under its own hash; where
/// there is none, and the file name has no inner tag to cut out, those of the first chunk
/// under the hash of its twin.
pub proof fn law_game_answers_by_hash_then_twin(
    game: Seq<(u64, Option<Seq<u8>>)>,
    stem: Seq<char>,
    a: Seq<char>,
    b: Seq<char>,
    i: int,
    bytes: Seq<u8>,
)
    requires
        twin_extensions(a, b),
        0 <= i < game.len(),
        game[i].1 == Some(bytes),
        game[i].0 == path_hash(stem + a) || game[i].0 == path_hash(stem + b),
        forall|j: int| 0 <= j < i ==> (#[trigger] game[j]).0 != game[i].0,
    ensures
        game[i].0 == path_hash(stem + a) ==> asset_in_game(game, stem + a) == Some(bytes),
        game[i].0 == path_hash(stem + b) && without_inner_tag(stem + a) is None && (forall|j: int|
            0 <= j < game.len() ==> (#[trigger] game[j]).0 != path_hash(stem + a)) ==> asset_in_game(game, stem + a) == Some(bytes),
{
    reveal_strlit(".dds");
    reveal_strlit(".tex");
    reveal_strlit(".sco");
    reveal_strlit(".scb");
    let h = game[i].0;
    assert(chunk_at(game, h, i));
    let c = choose|c: int| chunk_at(game, h, c);
    assert(chunk_at(game, h, c));
    if c < i {
        assert(game[c].0 != h);
    }
    if i < c {
        assert(game[i].0 != h);
    }
    assert(chunk_slot(game, h) == Some(i));
    let w = stem + a;
    assert(w.subrange(w.len() - 4, w.len() as int) =~= a);
    assert(w.subrange(0, w.len() - 4) =~= stem);
    assert(".dds"@[1] == 'd' && ".tex"@[1] == 't' && ".sco"@[1] == 's' && ".scb"@[1] == 's');
    assert(".sco"@[3] == 'o' && ".scb"@[3] == 'b');
    assert(twin(w) == Some(stem + b));
    if (forall|j: int| 0 <= j < game.len() ==> (#[trigger] game[j]).0 != path_hash(w)) {
        assert(forall|k: int| !chunk_at(game, path_hash(w), k));
    }
}

} // verus!
