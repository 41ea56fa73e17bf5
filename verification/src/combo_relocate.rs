//! Relocation of legacy combo BINs: `data/{champion}_skins_{slots}.bin` entries are filed
//! under the path where the game looks for them today. Their bytes stay as they are.

use std::collections::HashSet;
use vstd::prelude::*;
use vstd::string::*;
use crate::archive::{entries, entry, list_paths, paths_of, Entry, WadEntry};
use crate::hashing::{path_hash, wad_path_hash};
use crate::seeds::{discover_seeds, discovered, seeds};
use crate::text::{
    begins, cat, chars, contains_char, ends, find, first_at, holds, lemma_holds_iff_position, lemma_position, lemma_take_next,
    lemma_without_prefix, normal, normalize, occurs_at, position, slice, strip_prefix, strip_suffix, without_prefix,
    without_suffix,
};
use crate::walk::{add_count, capped};

verus! {

/// A legacy combo BIN path, taken apart.
#[derive(Debug)]
pub struct ComboBin {
    /// Lower-case champion name: letters and digits only.
    pub champion: String,
    /// The slots as they are written, such as `0_1_5`.
    pub slots: String,
}

/// What a combo BIN path says.
#[verifier::ext_equal]
pub struct Combo {
    pub champion: Seq<char>,
    pub slots: Seq<char>,
}

impl View for ComboBin {
    type V = Combo;

    open spec fn view(&self) -> Combo {
        Combo { champion: self.champion@, slots: self.slots@ }
    }
}

/// An ASCII letter or digit.
pub open spec fn is_name_char(c: char) -> bool {
    ('a' <= c && c <= 'z') || ('A' <= c && c <= 'Z') || ('0' <= c && c <= '9')
}

/// A digit or an underscore.
pub open spec fn is_slot_char(c: char) -> bool {
    ('0' <= c && c <= '9') || c == '_'
}

/// A champion name.
pub open spec fn is_champion_name(s: Seq<char>) -> bool {
    s.len() > 0 && forall|i: int| 0 <= i < s.len() ==> is_name_char(#[trigger] s[i])
}

/// A list of slots.
pub open spec fn is_slot_list(s: Seq<char>) -> bool {
    s.len() > 0 && forall|i: int| 0 <= i < s.len() ==> is_slot_char(#[trigger] s[i])
}

/// What a file name without its extension says, split at the first `_skins_`.
pub open spec fn combo_of_stem(stem: Seq<char>) -> Option<Combo> {
    match position(stem, "_skins_"@) {
        Some(i) => {
            let c = Combo { champion: stem.subrange(0, i), slots: stem.skip(i + "_skins_"@.len()) };
            if is_champion_name(c.champion) && is_slot_list(c.slots) {
                Some(c)
            } else {
                None
            }
        },
        None => None,
    }
}

/// What a path says, where it is that of a combo BIN: a file directly under `data/`.
pub open spec fn combo_of(path: Seq<char>) -> Option<Combo> {
    match without_prefix(normal(path), "data/"@) {
        Some(rest) => if rest.contains('/') {
            None
        } else {
            match without_suffix(rest, ".bin"@) {
                Some(stem) => combo_of_stem(stem),
                None => None,
            }
        },
        None => None,
    }
}

fn is_champion(s: &str) -> (r: bool)
    ensures
        r == is_champion_name(s@),
{
    let v = chars(s);
    if v.len() == 0 {
        return false;
    }
    let mut i: usize = 0;
    while i < v.len()
        invariant
            v@ == s@,
            i <= v@.len(),
            forall|j: int| 0 <= j < i ==> is_name_char(#[trigger] s@[j]),
        decreases v@.len() - i,
    {
        let c = v[i];
        if !(('a' <= c && c <= 'z') || ('A' <= c && c <= 'Z') || ('0' <= c && c <= '9')) {
            assert(!is_name_char(s@[i as int]));
            return false;
        }
        i = i + 1;
    }
    true
}

fn is_slots(s: &str) -> (r: bool)
    ensures
        r == is_slot_list(s@),
{
    let v = chars(s);
    if v.len() == 0 {
        return false;
    }
    let mut i: usize = 0;
    while i < v.len()
        invariant
            v@ == s@,
            i <= v@.len(),
            forall|j: int| 0 <= j < i ==> is_slot_char(#[trigger] s@[j]),
        decreases v@.len() - i,
    {
        let c = v[i];
        if !(('0' <= c && c <= '9') || c == '_') {
            assert(!is_slot_char(s@[i as int]));
            return false;
        }
        i = i + 1;
    }
    true
}

/// Match `data/{champion}_skins_{slots}.bin`, in any case.
pub fn combo_bin_pattern(path: &str) -> (r: Option<ComboBin>)
    ensures
        r is Some <==> combo_of(path@) is Some,
        r matches Some(c) ==> combo_of(path@) == Some(c@),
{
    let lower = normalize(path);
    let rest = match strip_prefix(lower.as_str(), "data/") {
        Some(s) => s,
        None => {
            return None;
        },
    };
    if contains_char(rest.as_str(), '/') {
        return None;
    }
    let stem = match strip_suffix(rest.as_str(), ".bin") {
        Some(s) => s,
        None => {
            return None;
        },
    };
    let s = stem.as_str();
    match find(s, "_skins_") {
        Some(i) => {
            let n = s.unicode_len();
            let champion = slice(s, 0, i);
            let start: usize = i + "_skins_".unicode_len();
            let slots = slice(s, start, n);
            assert(slots@ =~= s@.skip(start as int));
            if !is_champion(champion.as_str()) || !is_slots(slots.as_str()) {
                return None;
            }
            Some(ComboBin { champion, slots })
        },
        None => None,
    }
}

/// Where the game looks for a combo BIN today.
pub open spec fn new_home(c: Combo) -> Seq<char> {
    "data/characters/"@ + c.champion + "/"@ + c.champion + "_multi_skins_"@ + c.slots + ".bin"@
}

/// Where the game looks for a combo BIN today:
/// `data/characters/{champion}/{champion}_multi_skins_{slots}.bin`.
pub fn relocated_path(c: &ComboBin) -> (r: String)
    ensures
        r@ == new_home(c@),
{
    let mut s = cat("data/characters/", c.champion.as_str());
    s.append("/");
    s.append(c.champion.as_str());
    s.append("_multi_skins_");
    s.append(c.slots.as_str());
    s.append(".bin");
    s
}

/// Whether the mod ships a BIN of a single skin.
pub fn mod_ships_per_skin_bins(all_files: &Vec<WadEntry>) -> (r: bool)
    ensures
        r == (discovered(paths_of(entries(all_files@))).len() > 0),
{
    let paths = list_paths(all_files);
    let found = discover_seeds(&paths);
    assert(seeds(found@).len() == found@.len());
    found.len() > 0
}

/// The new path of a file, where it is a combo BIN whose new home the game has and the
/// mod does not fill.
pub open spec fn move_to(e: Entry, game: Set<u64>, shipped: Set<u64>) -> Option<Seq<char>> {
    match combo_of(e.path) {
        Some(c) => if game.contains(path_hash(new_home(c))) && !shipped.contains(path_hash(new_home(c))) {
            Some(new_home(c))
        } else {
            None
        },
        None => None,
    }
}

/// A file in its new home, where it has one.
pub open spec fn rehomed(e: Entry, game: Set<u64>, shipped: Set<u64>) -> Entry {
    match move_to(e, game, shipped) {
        Some(path) => Entry { hash: path_hash(path), path, bytes: e.bytes },
        None => e,
    }
}

/// The number of files that have a new home.
pub open spec fn moves(es: Seq<Entry>, game: Set<u64>, shipped: Set<u64>) -> nat
    decreases es.len(),
{
    if es.len() == 0 {
        0
    } else {
        moves(es.drop_last(), game, shipped) + (if move_to(es.last(), game, shipped) is Some { 1nat } else { 0nat })
    }
}

/// The hashes under which files are filed.
pub open spec fn hashes_of(es: Seq<Entry>) -> Set<u64> {
    es.map_values(|e: Entry| e.hash).to_set()
}

/// The files with their combo BINs relocated, and the number of them. A mod with a BIN of
/// a single skin is left as it is.
pub open spec fn relocated(es: Seq<Entry>, game: Set<u64>) -> (Seq<Entry>, nat) {
    if discovered(paths_of(es)).len() > 0 {
        (es, 0)
    } else {
        (es.map_values(|e: Entry| rehomed(e, game, hashes_of(es))), moves(es, game, hashes_of(es)))
    }
}

fn collect_hashes(files: &Vec<WadEntry>) -> (r: HashSet<u64>)
    ensures
        r@ == hashes_of(entries(files@)),
{
    broadcast use vstd::std_specs::hash::group_hash_axioms;
    let ghost hs = entries(files@).map_values(|e: Entry| e.hash);
    let mut out: HashSet<u64> = HashSet::new();
    let mut i: usize = 0;
    assert(out@ =~= hs.take(0).to_set());
    while i < files.len()
        invariant
            hs == entries(files@).map_values(|e: Entry| e.hash),
            i <= files@.len(),
            out@ == hs.take(i as int).to_set(),
        decreases files@.len() - i,
    {
        broadcast use vstd::std_specs::hash::group_hash_axioms;
        out.insert(files[i].0);
        let ghost now = hs.take(i + 1);
        proof {
            lemma_take_next(hs, i as int);
            assert(hs[i as int] == files@[i as int].0);
            assert forall|h: u64| now.contains(h) implies out@.contains(h) by {
                let k = choose|k: int| 0 <= k < now.len() && now[k] == h;
                if k < i {
                    assert(hs.take(i as int)[k] == h);
                    assert(hs.take(i as int).to_set().contains(h));
                }
            }
            assert forall|h: u64| out@.contains(h) implies now.contains(h) by {
                if h == hs[i as int] {
                    assert(now[i as int] == h);
                } else {
                    assert(hs.take(i as int).to_set().contains(h));
                    let k = choose|k: int| 0 <= k < i && hs.take(i as int)[k] == h;
                    assert(now[k] == h);
                }
            }
            assert(out@ =~= now.to_set());
        }
        i = i + 1;
    }
    assert(hs.take(i as int) =~= hs);
    out
}

/// File legacy combo BINs under the path where the game looks for them, where the game has
/// that path and the mod does not. Returns their number.
pub fn relocate_combo_bins(all_files: &mut Vec<WadEntry>, game_hashes: &HashSet<u64>) -> (r: u32)
    ensures
        ({
            let w = relocated(entries(old(all_files)@), game_hashes@);
            entries(final(all_files)@) == w.0 && r == capped(w.1)
        }),
{
    broadcast use vstd::std_specs::hash::group_hash_axioms;
    let ghost es = entries(all_files@);
    if mod_ships_per_skin_bins(all_files) {
        return 0;
    }
    let existing = collect_hashes(all_files);
    let ghost shipped = hashes_of(es);
    let ghost game = game_hashes@;
    let ghost goal = es.map_values(|e: Entry| rehomed(e, game, shipped));
    let mut count: u32 = 0;
    let n = all_files.len();
    let mut i: usize = 0;
    while i < n
        invariant
            n == all_files@.len(),
            n == es.len(),
            existing@ == shipped,
            game == game_hashes@,
            goal == es.map_values(|e: Entry| rehomed(e, game, shipped)),
            i <= n,
            forall|j: int| 0 <= j < i ==> #[trigger] entries(all_files@)[j] == goal[j],
            forall|j: int| i <= j < n ==> #[trigger] entries(all_files@)[j] == es[j],
            count == capped(moves(es.take(i as int), game, shipped)),
        decreases n - i,
    {
        broadcast use vstd::std_specs::hash::group_hash_axioms;
        let ghost before = entries(all_files@);
        let ghost e = es[i as int];
        proof {
            lemma_take_next(es, i as int);
            assert(entries(all_files@)[i as int] == e);
            assert(entry(all_files@[i as int]) == e);
        }
        if let Some(c) = combo_bin_pattern(all_files[i].1.as_str()) {
            let path = relocated_path(&c);
            let hash = wad_path_hash(path.as_str());
            if game_hashes.contains(&hash) && !existing.contains(&hash) {
                let ghost p = path@;
                all_files[i].0 = hash;
                all_files[i].1 = path;
                assert(capped(1) == 1u32);
                count = add_count(count, 1);
                assert(entries(all_files@)[i as int] =~= (Entry { hash: path_hash(p), path: p, bytes: e.bytes }));
            }
        }
        proof {
            assert forall|j: int| 0 <= j < i + 1 implies #[trigger] entries(all_files@)[j] == goal[j] by {
                if j < i {
                    assert(before[j] == goal[j]);
                }
            }
            assert forall|j: int| i + 1 <= j < n implies #[trigger] entries(all_files@)[j] == es[j] by {
                assert(before[j] == es[j]);
            }
        }
        i = i + 1;
    }
    proof {
        assert(es.take(i as int) =~= es);
        assert(entries(all_files@) =~= goal);
    }
    count
}

/// Relocation neither adds nor loses a file, and leaves all bytes alone.
pub proof fn law_relocation_keeps_bytes(es: Seq<Entry>, game: Set<u64>)
    ensures
        relocated(es, game).0.len() == es.len(),
        forall|i: int| 0 <= i < es.len() ==> (#[trigger] relocated(es, game).0[i]).bytes == es[i].bytes,
{
}

/// A combo BIN only ever moves to a path that the game has and the mod does not fill.
pub proof fn law_relocation_is_safe(es: Seq<Entry>, game: Set<u64>, i: int)
    requires
        0 <= i < es.len(),
        relocated(es, game).0[i] != es[i],
    ensures
        discovered(paths_of(es)).len() == 0,
        game.contains(relocated(es, game).0[i].hash),
        !hashes_of(es).contains(relocated(es, game).0[i].hash),
        relocated(es, game).0[i].hash == path_hash(relocated(es, game).0[i].path),
{
}

/// A BIN of the old form, in whatever case it is written, is filed under the champion's
/// folder, in a mod that ships no skin BIN, where the game has a file there and the mod has
/// none; its bytes stay.
pub proof fn law_combo_bins_are_relocated(es: Seq<Entry>, game: Set<u64>, i: int, champion: Seq<char>, slots: Seq<char>)
    requires
        0 <= i < es.len(),
        normal(es[i].path) == "data/"@ + champion + "_skins_"@ + slots + ".bin"@,
        champion.len() > 0,
        forall|k: int| 0 <= k < champion.len() ==> is_name_char(#[trigger] champion[k]),
        slots.len() > 0,
        forall|k: int| 0 <= k < slots.len() ==> is_slot_char(#[trigger] slots[k]),
        discovered(paths_of(es)).len() == 0,
        game.contains(
            path_hash("data/characters/"@ + champion + "/"@ + champion + "_multi_skins_"@ + slots + ".bin"@),
        ),
        forall|j: int|
            0 <= j < es.len() ==> (#[trigger] es[j]).hash != path_hash(
                "data/characters/"@ + champion + "/"@ + champion + "_multi_skins_"@ + slots + ".bin"@,
            ),
    ensures
        ({
            let home = "data/characters/"@ + champion + "/"@ + champion + "_multi_skins_"@ + slots + ".bin"@;
            relocated(es, game).0[i] == Entry { hash: path_hash(home), path: home, bytes: es[i].bytes }
        }),
        relocated(es, game).1 >= 1,
{
    reveal_strlit("_skins_");
    reveal_strlit(".bin");
    let stem = champion + "_skins_"@ + slots;
    let rest = stem + ".bin"@;
    let path = normal(es[i].path);
    assert(path =~= "data/"@ + rest);
    lemma_without_prefix("data/"@, rest);
    assert(!rest.contains('/')) by {
        assert forall|k: int| 0 <= k < rest.len() implies rest[k] != '/' by {
            if k < champion.len() {
                assert(is_name_char(champion[k]));
            } else if k >= champion.len() + 7 && k < stem.len() {
                assert(is_slot_char(slots[k - champion.len() - 7]));
            }
        }
    }
    assert(rest.subrange(rest.len() - 4, rest.len() as int) =~= ".bin"@);
    assert(rest.subrange(0, rest.len() - 4) =~= stem);
    let n = champion.len() as int;
    assert(stem.subrange(n, n + 7) =~= "_skins_"@);
    assert forall|j: int| 0 <= j < n implies !occurs_at(stem, "_skins_"@, j) by {
        if occurs_at(stem, "_skins_"@, j) {
            assert(stem.subrange(j, j + 7)[0] == stem[j]);
            assert(is_name_char(champion[j]));
        }
    }
    lemma_position(stem, "_skins_"@, n);
    assert(stem.subrange(0, n) =~= champion);
    assert(stem.skip(n + 7) =~= slots);
    assert(combo_of(es[i].path) == Some(Combo { champion, slots }));
    let home = new_home(Combo { champion, slots });
    let hs = es.map_values(|e: Entry| e.hash);
    assert(!hs.contains(path_hash(home))) by {
        if hs.contains(path_hash(home)) {
            let j = choose|j: int| 0 <= j < hs.len() && hs[j] == path_hash(home);
            assert(es[j].hash == path_hash(home));
        }
    }
    lemma_moves_counted(es, game, hashes_of(es), i);
}

proof fn lemma_moves_counted(es: Seq<Entry>, game: Set<u64>, shipped: Set<u64>, i: int)
    requires
        0 <= i < es.len(),
        move_to(es[i], game, shipped) is Some,
    ensures
        moves(es, game, shipped) >= 1,
    decreases es.len(),
{
    if i < es.len() - 1 {
        assert(es.drop_last()[i] == es[i]);
        lemma_moves_counted(es.drop_last(), game, shipped, i);
    }
}

/// An entry whose name has another form stays as it is.
pub proof fn law_other_files_are_not_relocated(es: Seq<Entry>, game: Set<u64>, i: int)
    requires
        0 <= i < es.len(),
        !begins(normal(es[i].path), "data/"@) || !ends(normal(es[i].path), ".bin"@) || position(normal(es[i].path), "_skins_"@) is None,
    ensures
        relocated(es, game).0[i] == es[i],
{
    if let Some(rest) = without_prefix(normal(es[i].path), "data/"@) {
        let path = normal(es[i].path);
        if let Some(stem) = without_suffix(rest, ".bin"@) {
            assert(path.subrange(path.len() - ".bin"@.len(), path.len() as int) =~= rest.subrange(
                rest.len() - ".bin"@.len(),
                rest.len() as int,
            ));
            if let Some(k) = position(stem, "_skins_"@) {
                let m = "data/"@.len() as int;
                assert(first_at(stem, "_skins_"@, k));
                assert(path.subrange(m + k, m + k + "_skins_"@.len()) =~= stem.subrange(k, k + "_skins_"@.len()));
                assert(occurs_at(path, "_skins_"@, m + k));
                lemma_holds_iff_position(path, "_skins_"@);
            }
        }
    }
}

} // verus!
