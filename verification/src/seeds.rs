//! Seed discovery: every champion and skin pair that a mod ships, read off the
//! resolved paths of its archive.

use vstd::prelude::*;
use vstd::string::*;
use vstd::utf8::*;
use crate::sorting::{sort_texts, texts_ascend};
use crate::text::{
    ascii_lowered, begins, decimal, decimal_text, digit_value, ends, ends_with, lemma_number_of_decimal, lemma_pieces_head, lemma_pieces_joined,
    lemma_without_prefix, lower_char, lowered, joined, normal, normalize, number, parse_number, pieces, same, slice, split, starts_with,
    strip_prefix, texts, to_lower, without_prefix,
};

verus! {

/// One skin that a run treats as a seed.
#[derive(Debug, Clone)]
pub struct SkinSeed {
    /// Lower-cased champion folder name (e.g. `"yone"`, `"jinxmine"`).
    pub champion: String,
    /// Zero-based skin number parsed from the filename.
    pub skin_no: u32,
}

/// What a seed is.
pub struct Seed {
    pub champion: Seq<char>,
    pub skin_no: u32,
}

impl View for SkinSeed {
    type V = Seed;

    open spec fn view(&self) -> Seed {
        Seed { champion: self.champion@, skin_no: self.skin_no }
    }
}

/// The contents of a list of seeds.
pub open spec fn seeds(v: Seq<SkinSeed>) -> Seq<Seed> {
    v.map_values(|s: SkinSeed| s@)
}

/// `data/characters/{champion}/skins/skin{N}.bin`
pub open spec fn seed_path(s: Seed) -> Seq<char> {
    "data/characters/"@ + s.champion + "/skins/skin"@ + decimal(s.skin_no as nat) + ".bin"@
}

/// The skin BIN of a seed, under the other root.
pub open spec fn seed_asset_path(s: Seed) -> Seq<char> {
    "assets/characters/"@ + s.champion + "/skins/skin"@ + decimal(s.skin_no as nat) + ".bin"@
}

impl SkinSeed {
    /// Canonical BIN path the seed refers to.
    pub fn bin_path(&self) -> (r: String)
        ensures
            r@ == seed_path(self@),
    {
        let mut s = "data/characters/".to_owned();
        s.append(self.champion.as_str());
        s.append("/skins/skin");
        s.append(decimal_text(self.skin_no as u64).as_str());
        s.append(".bin");
        s
    }

    /// The same champion and skin.
    pub fn same_as(&self, other: &SkinSeed) -> (r: bool)
        ensures
            r == (self@ == other@),
    {
        self.skin_no == other.skin_no && same(self.champion.as_str(), other.champion.as_str())
    }
}

/// What follows `data/characters/` or `assets/characters/`.
pub open spec fn below_characters(lower: Seq<char>) -> Option<Seq<char>> {
    match without_prefix(lower, "data/characters/"@) {
        Some(r) => Some(r),
        None => without_prefix(lower, "assets/characters/"@),
    }
}

/// The seed that a path names, in any case: `{champion}/skins/skin{N}.bin` below a
/// character root.
pub open spec fn seed_of(path: Seq<char>) -> Option<Seed> {
    let parts = pieces(path, '/').map_values(|p: Seq<char>| lowered(p));
    if parts.len() == 5 && (parts[0] == "data"@ || parts[0] == "assets"@) && parts[1] == "characters"@ && parts[2].len() > 0
        && parts[3] == "skins"@ && begins(parts[4], "skin"@) && ends(parts[4], ".bin"@) {
        match number(parts[4].subrange(4, parts[4].len() - 4), 10, u32::MAX as nat) {
            Some(n) => Some(Seed { champion: parts[2], skin_no: n as u32 }),
            None => None,
        }
    } else {
        None
    }
}

/// The seed that a path names, if it is the path of a skin BIN.
pub fn parse_skin_path(path: &str) -> (r: Option<SkinSeed>)
    ensures
        r is Some <==> seed_of(path@) is Some,
        r matches Some(s) ==> seed_of(path@) == Some(s@),
{
    let parts = split(path, '/');
    let ghost lower = pieces(path@, '/').map_values(|p: Seq<char>| lowered(p));
    assert(texts(parts@).len() == parts@.len());
    if parts.len() != 5 {
        return None;
    }
    assert forall|i: int| 0 <= i < 5 implies #[trigger] lower[i] == lowered(parts@[i]@) by {
        assert(texts(parts@)[i] == parts@[i]@);
    }
    let root = to_lower(parts[0].as_str());
    let characters = to_lower(parts[1].as_str());
    let champion = to_lower(parts[2].as_str());
    let skins = to_lower(parts[3].as_str());
    let file = to_lower(parts[4].as_str());
    if !same(root.as_str(), "data") && !same(root.as_str(), "assets") {
        return None;
    }
    if !same(characters.as_str(), "characters") || !same(skins.as_str(), "skins") || champion.as_str().is_empty() {
        return None;
    }
    if !starts_with(file.as_str(), "skin") || !ends_with(file.as_str(), ".bin") {
        return None;
    }
    proof {
        lemma_skin_file_length(file@);
    }
    let n = file.as_str().unicode_len();
    let middle = slice(file.as_str(), 4, n - 4);
    match parse_number(middle.as_str(), 10, u32::MAX as u64) {
        Some(k) => Some(SkinSeed { champion, skin_no: k as u32 }),
        None => None,
    }
}

proof fn lemma_skin_file_length(file: Seq<char>)
    requires
        begins(file, "skin"@),
        ends(file, ".bin"@),
    ensures
        file.len() >= 8,
{
    reveal_strlit("skin");
    reveal_strlit(".bin");
    if file.len() < 8 {
        let k = file.len() - 4;
        assert(file.subrange(k, file.len() as int)[0] == '.');
        assert(file[k] == '.');
        assert(file.subrange(0, 4)[k] == file[k]);
    }
}

/// The character whose folder a path lies in.
pub open spec fn character_in(path: Seq<char>) -> Option<Seq<char>> {
    match below_characters(normal(path)) {
        Some(rest) => {
            let parts = pieces(rest, '/');
            if parts.len() >= 2 && parts[0].len() > 0 {
                Some(parts[0])
            } else {
                None
            }
        },
        None => None,
    }
}

/// The character whose folder a path lies in: `data/characters/{name}/...`.
pub fn character_of(path: &str) -> (r: Option<String>)
    ensures
        r is Some <==> character_in(path@) is Some,
        r matches Some(n) ==> character_in(path@) == Some(n@),
{
    let lower = normalize(path);
    let rest = match strip_prefix(lower.as_str(), "data/characters/") {
        Some(r) => r,
        None => match strip_prefix(lower.as_str(), "assets/characters/") {
            Some(r) => r,
            None => {
                return None;
            },
        },
    };
    let parts = split(rest.as_str(), '/');
    assert(texts(parts@).len() == parts@.len());
    if parts.len() < 2 {
        return None;
    }
    assert(texts(parts@)[0] == parts@[0]@);
    if parts[0].as_str().is_empty() {
        None
    } else {
        Some(parts[0].clone())
    }
}

/// The seeds that `paths` name, each once, in the order in which they first occur.
pub open spec fn discovered(paths: Seq<Seq<char>>) -> Seq<Seed>
    decreases paths.len(),
{
    if paths.len() == 0 {
        Seq::empty()
    } else {
        let before = discovered(paths.drop_last());
        match seed_of(paths.last()) {
            Some(s) => if before.contains(s) { before } else { before.push(s) },
            None => before,
        }
    }
}

/// The champions of some seeds, in order.
pub open spec fn champions_of(list: Seq<Seed>) -> Seq<Seq<char>> {
    list.map_values(|s: Seed| s.champion)
}

/// The champions of some seeds in ascending order, each once.
pub fn sorted_champions(list: &Vec<SkinSeed>) -> (r: Vec<String>)
    ensures
        texts_ascend(texts(r@)),
        forall|c: Seq<char>| #[trigger] texts(r@).contains(c) <==> champions_of(seeds(list@)).contains(c),
{
    let mut names: Vec<String> = Vec::new();
    let mut i: usize = 0;
    while i < list.len()
        invariant
            i <= list@.len(),
            names@.len() == i,
            forall|j: int| 0 <= j < i ==> (#[trigger] names@[j])@ == list@[j]@.champion,
        decreases list@.len() - i,
    {
        names.push(list[i].champion.clone());
        i = i + 1;
    }
    assert(texts(names@) =~= champions_of(seeds(list@)));
    sort_texts(names)
}

/// Whether `seed` is one of `list`.
fn is_among(list: &Vec<SkinSeed>, seed: &SkinSeed) -> (r: Option<usize>)
    ensures
        r matches Some(i) ==> i < list@.len() && list@[i as int]@ == seed@
            && forall|j: int| 0 <= j < i ==> (#[trigger] list@[j])@ != seed@,
        r is None <==> !seeds(list@).contains(seed@),
{
    let mut i: usize = 0;
    while i < list.len()
        invariant
            i <= list@.len(),
            forall|j: int| 0 <= j < i ==> (#[trigger] list@[j])@ != seed@,
        decreases list@.len() - i,
    {
        if list[i].same_as(seed) {
            assert(seeds(list@)[i as int] == seed@);
            return Some(i);
        }
        i = i + 1;
    }
    assert forall|j: int| 0 <= j < seeds(list@).len() implies seeds(list@)[j] != seed@ by {
        assert(list@[j]@ != seed@);
    }
    None
}

/// Every unique seed among the resolved paths of an archive, in first-seen order.
pub fn discover_seeds(paths: &Vec<String>) -> (r: Vec<SkinSeed>)
    ensures
        seeds(r@) == discovered(texts(paths@)),
{
    let mut out: Vec<SkinSeed> = Vec::new();
    let ghost all = texts(paths@);
    let mut i: usize = 0;
    assert(seeds(out@) =~= discovered(all.take(0)));
    while i < paths.len()
        invariant
            all == texts(paths@),
            i <= paths@.len(),
            seeds(out@) == discovered(all.take(i as int)),
        decreases paths@.len() - i,
    {
        assert(all.take(i + 1).drop_last() =~= all.take(i as int));
        assert(all[i as int] == paths@[i as int]@);
        if let Some(seed) = parse_skin_path(paths[i].as_str()) {
            if is_among(&out, &seed).is_none() {
                let ghost before = out@;
                out.push(seed);
                assert(seeds(out@) =~= seeds(before).push(seed@));
            }
        }
        i = i + 1;
    }
    assert(all.take(i as int) =~= all);
    out
}

/// `list` with `primary` in front: exchanged with the first seed where it is listed,
/// put before the others where it is not.
pub open spec fn primary_first(list: Seq<Seed>, primary: Seed) -> Seq<Seed> {
    if list.contains(primary) {
        let i = choose|i: int| first_seed(list, primary, i);
        list.update(i, list[0]).update(0, list[i])
    } else {
        seq![primary] + list
    }
}

/// `i` is the first place of `seed` in `list`.
pub open spec fn first_seed(list: Seq<Seed>, seed: Seed, i: int) -> bool {
    0 <= i < list.len() && list[i] == seed && forall|j: int| 0 <= j < i ==> list[j] != seed
}

/// Promote `primary` to the front of `list` if present; otherwise prepend it.
pub fn order_with_primary(list: Vec<SkinSeed>, primary: &SkinSeed) -> (r: Vec<SkinSeed>)
    ensures
        seeds(r@) == primary_first(seeds(list@), primary@),
{
    let ghost before = seeds(list@);
    match is_among(&list, primary) {
        Some(idx) => {
            let mut out = list;
            let ghost it = out@;
            proof {
                assert(before[idx as int] == it[idx as int]@);
                assert(before.contains(primary@));
                assert forall|j: int| 0 <= j < idx implies before[j] != primary@ by {
                    assert(it[j]@ != primary@);
                }
                assert(first_seed(before, primary@, idx as int));
                let k = choose|k: int| first_seed(before, primary@, k);
                assert(first_seed(before, primary@, k));
                assert(k == idx as int);
            }
            let a = out[0].clone_seed();
            let b = out[idx].clone_seed();
            out[idx] = a;
            out[0] = b;
            assert(seeds(out@) =~= primary_first(before, primary@));
            out
        },
        None => {
            let mut out: Vec<SkinSeed> = Vec::new();
            out.push(primary.clone_seed());
            let mut rest = list;
            out.append(&mut rest);
            assert(seeds(out@) =~= seq![primary@] + before);
            out
        },
    }
}

impl SkinSeed {
    /// A copy of the seed.
    pub fn clone_seed(&self) -> (r: SkinSeed)
        ensures
            r@ == self@,
    {
        SkinSeed { champion: self.champion.clone(), skin_no: self.skin_no }
    }
}

/// No seed is discovered twice, and each comes from one of the paths.
pub proof fn law_discovered_once(paths: Seq<Seq<char>>)
    ensures
        discovered(paths).no_duplicates(),
        forall|s: Seed| discovered(paths).contains(s) <==> exists|i: int|
            0 <= i < paths.len() && #[trigger] seed_of(paths[i]) == Some(s),
    decreases paths.len(),
{
    if paths.len() > 0 {
        let head = paths.drop_last();
        law_discovered_once(head);
        let before = discovered(head);
        let now = discovered(paths);
        assert forall|s: Seed| now.contains(s) implies exists|i: int|
            0 <= i < paths.len() && #[trigger] seed_of(paths[i]) == Some(s) by {
            if before.contains(s) {
                let i = choose|i: int| 0 <= i < head.len() && #[trigger] seed_of(head[i]) == Some(s);
                assert(seed_of(paths[i]) == Some(s));
            } else {
                assert(seed_of(paths[paths.len() - 1]) == Some(s));
            }
        }
        assert forall|s: Seed| (exists|i: int|
            0 <= i < paths.len() && #[trigger] seed_of(paths[i]) == Some(s)) implies now.contains(s) by {
            let i = choose|i: int| 0 <= i < paths.len() && #[trigger] seed_of(paths[i]) == Some(s);
            if i < head.len() {
                assert(seed_of(head[i]) == Some(s));
                assert(before.contains(s));
                let k = choose|k: int| 0 <= k < before.len() && before[k] == s;
                assert(now[k] == s);
            } else {
                if !before.contains(s) {
                    assert(now[now.len() - 1] == s);
                }
            }
        }
    }
}

/// Seeds keep the order in which they were first seen: what a longer list of paths
/// discovers begins with what its start discovers.
pub proof fn law_discovered_in_order(paths: Seq<Seq<char>>, n: int)
    requires
        0 <= n <= paths.len(),
    ensures
        discovered(paths.take(n)).is_prefix_of(discovered(paths)),
    decreases paths.len(),
{
    if n < paths.len() {
        law_discovered_in_order(paths.drop_last(), n);
        assert(paths.drop_last().take(n) =~= paths.take(n));
    } else {
        assert(paths.take(n) =~= paths);
    }
}

/// The primary seed stands first, and no seed is lost.
pub proof fn law_primary_first(list: Seq<Seed>, primary: Seed)
    ensures
        primary_first(list, primary).len() > 0,
        primary_first(list, primary)[0] == primary,
        forall|s: Seed| primary_first(list, primary).contains(s) <==> (list.contains(s) || s == primary),
{
    let out = primary_first(list, primary);
    if list.contains(primary) {
        let k = choose|k: int| 0 <= k < list.len() && list[k] == primary;
        lemma_first_seed_below(list, primary, k);
        let i = choose|i: int| first_seed(list, primary, i);
        assert(first_seed(list, primary, i));
        assert forall|s: Seed| list.contains(s) implies out.contains(s) by {
            let j = choose|j: int| 0 <= j < list.len() && list[j] == s;
            if j == 0 {
                assert(out[i] == s || i == 0);
                assert(out[0] == primary);
            } else if j == i {
                assert(out[0] == s);
            } else {
                assert(out[j] == s);
            }
        }
        assert forall|s: Seed| out.contains(s) implies list.contains(s) by {
            let j = choose|j: int| 0 <= j < out.len() && out[j] == s;
            if j == 0 {
                assert(list[i] == s);
            } else if j == i {
                assert(list[0] == s);
            } else {
                assert(list[j] == s);
            }
        }
    } else {
        assert forall|s: Seed| list.contains(s) implies out.contains(s) by {
            let j = choose|j: int| 0 <= j < list.len() && list[j] == s;
            assert(out[j + 1] == s);
        }
        assert(out[0] == primary);
    }
}

proof fn lemma_first_seed_below(list: Seq<Seed>, seed: Seed, i: int)
    requires
        0 <= i < list.len(),
        list[i] == seed,
    ensures
        exists|k: int| first_seed(list, seed, k),
    decreases i,
{
    if forall|j: int| 0 <= j < i ==> list[j] != seed {
        assert(first_seed(list, seed, i));
    } else {
        let j = choose|j: int| 0 <= j < i && list[j] == seed;
        lemma_first_seed_below(list, seed, j);
    }
}

/// A champion folder name as seeds carry it: not empty, one path segment, in lower case.
pub open spec fn is_folder_name(name: Seq<char>) -> bool {
    name.len() > 0 && !name.contains('/') && lowered(name) == name
}

/// The path of a skin BIN below an asset root.
spec fn path_below(root: Seq<char>, s: Seed) -> Seq<char> {
    root + "/characters/"@ + s.champion + "/skins/skin"@ + decimal(s.skin_no as nat) + ".bin"@
}

proof fn lemma_plain(s: Seq<char>)
    requires
        forall|i: int| 0 <= i < s.len() ==> (#[trigger] s[i] as u32) < 128 && lower_char(s[i]) == s[i],
    ensures
        lowered(s) == s,
{
    assert(is_ascii_chars(s)) by {
        assert forall|i: int| 0 <= i < s.len() implies '\0' <= #[trigger] s[i] <= '\u{7f}' by {
            assert(lower_char(s[i]) == s[i]);
        }
    }
    assert(ascii_lowered(s) =~= s);
}

proof fn lemma_path_parses(root: Seq<char>, seed: Seed)
    requires
        is_folder_name(seed.champion),
        root == "data"@ || root == "assets"@,
    ensures
        seed_of(path_below(root, seed)) == Some(seed),
{
    let n = seed.skin_no as nat;
    let d = decimal(n);
    lemma_number_of_decimal(n, u32::MAX as nat);
    reveal_strlit("data");
    reveal_strlit("assets");
    reveal_strlit("characters");
    reveal_strlit("/characters/");
    reveal_strlit("/skins/skin");
    reveal_strlit(".bin");
    reveal_strlit("skins");
    reveal_strlit("skin");
    let path = path_below(root, seed);
    let file = "skin"@ + d + ".bin"@;
    let sep = seq!['/'];
    let parts = seq![root, "characters"@, seed.champion, "skins"@, file];
    assert forall|i: int| 0 <= i < file.len() implies (#[trigger] file[i] as u32) < 128 && lower_char(file[i]) == file[i]
        && file[i] != '/' by {
        if i < 4 {
            assert(file[i] == "skin"@[i]);
        } else if i < 4 + d.len() {
            assert(file[i] == d[i - 4]);
            assert(digit_value(d[i - 4]) < 10);
        } else {
            assert(file[i] == ".bin"@[i - 4 - d.len()]);
        }
    }
    lemma_plain(root);
    lemma_plain("characters"@);
    lemma_plain("skins"@);
    lemma_plain(file);
    assert(joined(parts, sep) == path) by {
        reveal_with_fuel(joined, 5);
        let p4 = parts.drop_last();
        let p3 = p4.drop_last();
        let p2 = p3.drop_last();
        assert(p2.drop_last() =~= seq![root]);
        assert(joined(p2, sep) =~= root + sep + "characters"@);
        assert(joined(p3, sep) =~= root + "/characters/"@ + seed.champion);
        assert(joined(parts, sep) =~= path);
    }
    assert forall|i: int| 0 <= i < parts.len() implies !(#[trigger] parts[i]).contains('/') by {
        assert(!root.contains('/'));
        assert(!"characters"@.contains('/'));
        assert(!"skins"@.contains('/'));
        assert(!file.contains('/'));
    }
    lemma_pieces_joined(parts, sep, '/');
    let lower = pieces(path, '/').map_values(|p: Seq<char>| lowered(p));
    assert(lower =~= parts);
    assert(file.subrange(0, 4) =~= "skin"@);
    assert(file.subrange(file.len() - 4, file.len() as int) =~= ".bin"@);
    assert(file.subrange(4, file.len() - 4) =~= d);
}

/// Parsing a seed's canonical path gives the seed back.
pub proof fn law_bin_path_round_trips(seed: Seed)
    requires
        is_folder_name(seed.champion),
    ensures
        seed_of(seed_path(seed)) == Some(seed),
{
    reveal_strlit("data");
    reveal_strlit("/characters/");
    reveal_strlit("data/characters/");
    assert("data/characters/"@ =~= "data"@ + "/characters/"@);
    assert(seed_path(seed) =~= path_below("data"@, seed));
    lemma_path_parses("data"@, seed);
}

/// Both forms of a seed's path, under either root, give the one seed, once.
pub proof fn law_both_paths_give_the_seed_once(seed: Seed)
    requires
        is_folder_name(seed.champion),
    ensures
        seed_of(seed_asset_path(seed)) == Some(seed),
        discovered(seq![seed_path(seed), seed_asset_path(seed)]) == seq![seed],
{
    law_bin_path_round_trips(seed);
    reveal_strlit("assets");
    reveal_strlit("/characters/");
    reveal_strlit("assets/characters/");
    assert("assets/characters/"@ =~= "assets"@ + "/characters/"@);
    assert(seed_asset_path(seed) =~= path_below("assets"@, seed));
    lemma_path_parses("assets"@, seed);
    let both = seq![seed_path(seed), seed_asset_path(seed)];
    let one = seq![seed_path(seed)];
    assert(both.drop_last() =~= one);
    assert(one.drop_last() =~= Seq::empty());
    assert(discovered(Seq::empty()) =~= Seq::empty());
    assert(discovered(one) =~= seq![seed]);
    assert(discovered(one)[0] == seed);
    assert(discovered(one).contains(seed));
}

/// A path below the folder of a character, in either root and in any case, names that
/// character.
pub proof fn law_paths_name_their_character(path: Seq<char>, root: Seq<char>, name: Seq<char>, rest: Seq<char>)
    requires
        root == "data/characters/"@ || root == "assets/characters/"@,
        normal(path) == root + name + seq!['/'] + rest,
        name.len() > 0,
        !name.contains('/'),
    ensures
        character_in(path) == Some(name),
{
    reveal_strlit("data/characters/");
    reveal_strlit("assets/characters/");
    let below = name + seq!['/'] + rest;
    assert(normal(path) =~= root + below);
    lemma_without_prefix(root, below);
    lemma_pieces_head(name, rest, '/');
    if root == "assets/characters/"@ {
        assert(normal(path)[0] == 'a');
        if begins(normal(path), "data/characters/"@) {
            assert(normal(path).subrange(0, "data/characters/"@.len() as int)[0] == 'd');
        }
    }
}

/// A path outside these folders names none.
pub proof fn law_other_paths_name_no_character(path: Seq<char>)
    requires
        !begins(normal(path), "data/characters/"@),
        !begins(normal(path), "assets/characters/"@),
    ensures
        character_in(path) is None,
{
}

} // verus!
