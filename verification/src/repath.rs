//! Asset repathing: moving a mod's own files under a prefix so that they cannot
//! collide with the files of the base game.
//!
//! [`repath_path`] is the path transform, [`remove_prefix`] undoes it,
//! [`repath_bin_strings`] rewrites the references inside a BIN file and
//! [`repath_wad_path`] says where an archive entry goes. With the default layout the
//! prefix is put directly before the second segment and the root is upper-cased:
//! `data/characters/yone/x.bin` becomes `DATA/.yone1_characters/yone/x.bin`. With the
//! nested layout it is a folder of its own: `data/.yone1_/characters/yone/x.bin`.

use std::collections::HashSet;
use vstd::prelude::*;
use vstd::string::*;
use crate::bin::{objects, BinTree, FieldHash, Tree};
use crate::hashing::PathHasher;
use crate::text::{
    ascii_lowered, begins, cat, chars, contains, contains_char, decimal, decimal_text, ends, ends_with, find, from_chars, holds,
    is_listed, join, joined, last_position, lemma_listed, lemma_push_contains, lemma_take_next, lemma_texts_push, lemma_pieces_joined,
    lemma_without_prefix,
    lemma_position, occurs_at, first_at, listed, lower_char, lowered, normal, normalize, pieces, position, replace_char, rfind_char,
    last_at, same, slice, split, starts_with, strip_prefix, strip_suffix, swapped, texts, to_ascii_lower, to_lower, trim_end, trimmed_end,
    without_prefix, without_suffix,
};
use crate::walk::{
    add_count, capped, folded, hits, law_walk_rewrites, rewrites_by, rewritten_objects, string_refs, strings_in_objects, str_texts,
    walk_tree, PropertyVisitor, VisitResult,
};

verus! {

/// Where the prefix goes in a path.
#[derive(Clone, Copy, Debug, PartialEq, Eq, Structural)]
pub enum RepathLayout {
    /// `ROOT/{prefix}{first}/rest`, the root upper-cased.
    InFolder,
    /// `root/{prefix}/first/rest`.
    Nested,
}

/// How a run repaths.
#[derive(Debug)]
pub struct RepathOptions {
    pub prefix: String,
    pub layout: RepathLayout,
    pub skip_vo: bool,
    pub invis_texture: bool,
    pub game_wad: Option<String>,
    /// Rules about placeholders, as the configuration writes them.
    pub placeholder_rules: Vec<String>,
}

/// A character that a derived prefix may hold, in lower case.
pub open spec fn is_prefix_char(c: char) -> bool {
    ('a' <= c && c <= 'z') || ('A' <= c && c <= 'Z') || ('0' <= c && c <= '9')
}

/// The letters and digits of `s`, in lower case, at most four.
pub open spec fn short_name(s: Seq<char>) -> Seq<char>
    decreases s.len(),
{
    if s.len() == 0 {
        Seq::empty()
    } else {
        let before = short_name(s.drop_last());
        if before.len() < 4 && is_prefix_char(s.last()) {
            before.push(lower_char(s.last()))
        } else {
            before
        }
    }
}

/// The prefix for a champion and skin: `.{first four letters}{skin}_`, or `bum` where
/// the champion has no letter.
pub open spec fn derived_prefix(champion: Seq<char>, skin_no: u32) -> Seq<char> {
    if short_name(champion).len() == 0 {
        "bum"@
    } else {
        "."@ + short_name(champion) + decimal(skin_no as nat) + "_"@
    }
}

impl RepathOptions {
    /// Options with the given prefix: the default layout, voice-over skipped, no
    /// placeholders and no game archive.
    pub fn new(prefix: &str) -> (r: RepathOptions)
        ensures
            r.prefix@ == prefix@,
            r.layout == RepathLayout::InFolder,
            r.skip_vo,
            !r.invis_texture,
            r.game_wad is None,
            r.placeholder_rules@.len() == 0,
    {
        RepathOptions {
            prefix: prefix.to_owned(),
            layout: RepathLayout::InFolder,
            skip_vo: true,
            invis_texture: false,
            game_wad: None,
            placeholder_rules: Vec::new(),
        }
    }

    /// The prefix for a champion and skin.
    pub fn derive_prefix(champion: &str, skin_no: u32) -> (r: String)
        ensures
            r@ == derived_prefix(champion@, skin_no),
    {
        let v = chars(champion);
        let mut name: Vec<char> = Vec::new();
        let mut i: usize = 0;
        assert(champion@.take(0) =~= Seq::empty());
        while i < v.len()
            invariant
                v@ == champion@,
                i <= v@.len(),
                name@ == short_name(champion@.take(i as int)),
            decreases v@.len() - i,
        {
            assert(champion@.take(i + 1).drop_last() =~= champion@.take(i as int));
            let c = v[i];
            if name.len() < 4 {
                if ('a' <= c && c <= 'z') || ('0' <= c && c <= '9') {
                    name.push(c);
                } else if 'A' <= c && c <= 'Z' {
                    name.push(((c as u8) + 32) as char);
                }
            }
            i = i + 1;
        }
        assert(champion@.take(i as int) =~= champion@);
        if name.len() == 0 {
            return "bum".to_owned();
        }
        let mut s = ".".to_owned();
        s.append(from_chars(&name).as_str());
        s.append(decimal_text(skin_no as u64).as_str());
        s.append("_");
        s
    }
}

/// Bytes of an invisible 1x1 TEX texture used as a placeholder: a 12-byte header (the
/// magic, width, height, format and no mipmaps) and one transparent pixel.
pub open spec fn invis_tex() -> Seq<u8> {
    seq![0x54u8, 0x45, 0x58, 0x00, 0x01, 0x00, 0x01, 0x00, 0x01, 0x14, 0x00, 0x00, 0x00, 0x00, 0x00, 0x00]
}

/// The placeholder texture.
pub fn invis_tex_bytes() -> (r: Vec<u8>)
    ensures
        r@ == invis_tex(),
{
    let r: Vec<u8> = vec![
        0x54u8, 0x45, 0x58, 0x00, 0x01, 0x00, 0x01, 0x00, 0x01, 0x14, 0x00, 0x00, 0x00, 0x00, 0x00, 0x00,
    ];
    assert(r@ =~= invis_tex());
    r
}

/// The path lies under one of the two roots of game assets.
pub open spec fn under_asset_root(lower: Seq<char>) -> bool {
    begins(lower, "assets/"@) || begins(lower, "data/"@)
}

/// The path ends in the extension of an asset file.
#[verifier::opaque]
pub open spec fn has_asset_extension(lower: Seq<char>) -> bool {
    ends(lower, ".dds"@) || ends(lower, ".tex"@) || ends(lower, ".skn"@) || ends(lower, ".skl"@)
        || ends(lower, ".anm"@) || ends(lower, ".bin"@) || ends(lower, ".bnk"@) || ends(lower, ".wpk"@)
        || ends(lower, ".wem"@) || ends(lower, ".scb"@) || ends(lower, ".sco"@) || ends(lower, ".scn"@)
        || ends(lower, ".troybin"@) || ends(lower, ".luaobj"@) || ends(lower, ".lua"@) || ends(lower, ".dat"@)
        || ends(lower, ".png"@) || ends(lower, ".jpg"@) || ends(lower, ".webp"@) || ends(lower, ".mapgeo"@)
}

/// A lower-cased path that a modder keeps under a root of their own: it has a folder
/// and an asset extension, and lies under neither asset root.
pub open spec fn modder_root(lower: Seq<char>) -> bool {
    lower.contains('/') && !under_asset_root(lower) && has_asset_extension(lower)
}

/// Whether the path lies under one of the two roots of game assets.
fn is_under_asset_root(lower: &str) -> (r: bool)
    ensures
        r == under_asset_root(lower@),
{
    starts_with(lower, "assets/") || starts_with(lower, "data/")
}

/// Whether a lower-cased path is one that a modder keeps under a root of their own.
pub fn is_modder_root_path(lower: &str) -> (r: bool)
    ensures
        r == modder_root(lower@),
{
    if !contains_char(lower, '/') {
        return false;
    }
    if is_under_asset_root(lower) {
        return false;
    }
    reveal(has_asset_extension);
    ends_with(lower, ".dds") || ends_with(lower, ".tex") || ends_with(lower, ".skn") || ends_with(lower, ".skl")
        || ends_with(lower, ".anm") || ends_with(lower, ".bin") || ends_with(lower, ".bnk") || ends_with(lower, ".wpk")
        || ends_with(lower, ".wem") || ends_with(lower, ".scb") || ends_with(lower, ".sco") || ends_with(lower, ".scn")
        || ends_with(lower, ".troybin") || ends_with(lower, ".luaobj") || ends_with(lower, ".lua") || ends_with(lower, ".dat")
        || ends_with(lower, ".png") || ends_with(lower, ".jpg") || ends_with(lower, ".webp") || ends_with(lower, ".mapgeo")
}

/// The parts that are not empty.
pub open spec fn non_empty(parts: Seq<Seq<char>>) -> Seq<Seq<char>>
    decreases parts.len(),
{
    if parts.len() == 0 {
        Seq::empty()
    } else {
        let before = non_empty(parts.drop_last());
        if parts.last().len() > 0 {
            before.push(parts.last())
        } else {
            before
        }
    }
}

/// The asset root of a path and the segments below it.
pub open spec fn asset_path(path: Seq<char>) -> Option<(Seq<char>, Seq<Seq<char>>)> {
    if begins(ascii_lowered(path), "assets/"@) {
        Some(("assets"@, non_empty(pieces(path.skip(7), '/'))))
    } else if begins(ascii_lowered(path), "data/"@) {
        Some(("data"@, non_empty(pieces(path.skip(5), '/'))))
    } else {
        None
    }
}

/// The parts that are not empty.
fn keep_non_empty(parts: &Vec<String>) -> (r: Vec<String>)
    ensures
        texts(r@) == non_empty(texts(parts@)),
{
    let mut out: Vec<String> = Vec::new();
    let ghost all = texts(parts@);
    let mut i: usize = 0;
    assert(texts(out@) =~= non_empty(all.take(0)));
    while i < parts.len()
        invariant
            all == texts(parts@),
            i <= parts@.len(),
            texts(out@) == non_empty(all.take(i as int)),
        decreases parts@.len() - i,
    {
        assert(all.take(i + 1).drop_last() =~= all.take(i as int));
        assert(all[i as int] == parts@[i as int]@);
        if !parts[i].as_str().is_empty() {
            let ghost before = out@;
            out.push(parts[i].clone());
            assert(texts(out@) =~= texts(before).push(parts@[i as int]@));
        }
        i = i + 1;
    }
    assert(all.take(i as int) =~= all);
    out
}

/// Whether the root is `assets`, and the segments after the root, where `path` lies
/// under an asset root.
pub fn split_asset_path(path: &str) -> (r: Option<(bool, Vec<String>)>)
    ensures
        r is Some <==> asset_path(path@) is Some,
        r matches Some(p) ==> asset_path(path@) == Some(
            (if p.0 { "assets"@ } else { "data"@ }, texts(p.1@)),
        ),
{
    let lower = to_ascii_lower(path);
    let n = path.unicode_len();
    proof {
        reveal_strlit("assets/");
        reveal_strlit("data/");
    }
    if starts_with(lower.as_str(), "assets/") {
        let rest = slice(path, 7, n);
        assert(rest@ =~= path@.skip(7));
        let parts = split(rest.as_str(), '/');
        Some((true, keep_non_empty(&parts)))
    } else if starts_with(lower.as_str(), "data/") {
        let rest = slice(path, 5, n);
        assert(rest@ =~= path@.skip(5));
        let parts = split(rest.as_str(), '/');
        Some((false, keep_non_empty(&parts)))
    } else {
        None
    }
}

/// The upper-case form of an asset root.
pub open spec fn root_upper(root: Seq<char>) -> Seq<char> {
    if root == "assets"@ {
        "ASSETS"@
    } else {
        "DATA"@
    }
}

/// Where a path goes under `prefix`.
pub open spec fn repathed(path: Seq<char>, prefix: Seq<char>, layout: RepathLayout) -> Seq<char> {
    let plain = swapped(path, '\\', '/');
    match asset_path(plain) {
        Some((root, segs)) => if segs.len() == 0 {
            plain
        } else {
            match layout {
                RepathLayout::InFolder => root_upper(root) + "/"@ + joined(
                    segs.update(0, prefix + segs[0]),
                    "/"@,
                ),
                RepathLayout::Nested => plain.subrange(0, root.len() as int) + "/"@ + prefix + "/"@ + joined(segs, "/"@),
            }
        },
        None => if modder_root(lowered(plain)) {
            prefix + "/"@ + plain
        } else {
            path
        },
    }
}

/// Apply the repath transform to `path`.
///
/// A path under an asset root gets the prefix where the layout says: before the second
/// segment, with the root in upper case, or as a folder of its own, with the root as it
/// came. A path under a modder's own root gets it as a new top segment. Anything else is
/// returned unchanged.
pub fn repath_path(path: &str, prefix: &str, layout: RepathLayout) -> (r: String)
    ensures
        r@ == repathed(path@, prefix@, layout),
{
    let plain = replace_char(path, '\\', '/');
    match split_asset_path(plain.as_str()) {
        Some((is_assets, segs)) => {
            if segs.len() == 0 {
                return plain;
            }
            proof {
                lemma_roots_differ();
            }
            let ghost before = texts(segs@);
            match layout {
                RepathLayout::InFolder => {
                    let mut out = if is_assets { "ASSETS".to_owned() } else { "DATA".to_owned() };
                    out.append("/");
                    let mut parts = segs;
                    let head = cat(prefix, parts[0].as_str());
                    parts[0] = head;
                    assert(texts(parts@) =~= before.update(0, prefix@ + before[0]));
                    out.append(join(&parts, "/").as_str());
                    out
                },
                RepathLayout::Nested => {
                    proof {
                        reveal_strlit("assets");
                        reveal_strlit("data");
                        reveal_strlit("assets/");
                        reveal_strlit("data/");
                    }
                    let mut out = slice(plain.as_str(), 0, if is_assets { 6 } else { 4 });
                    out.append("/");
                    out.append(prefix);
                    out.append("/");
                    out.append(join(&segs, "/").as_str());
                    out
                },
            }
        },
        None => {
            let lower = to_lower(plain.as_str());
            if is_modder_root_path(lower.as_str()) {
                let mut out = prefix.to_owned();
                out.append("/");
                out.append(plain.as_str());
                out
            } else {
                path.to_owned()
            }
        },
    }
}

proof fn lemma_roots_differ()
    ensures
        "assets"@ != "data"@,
{
    reveal_strlit("assets");
    reveal_strlit("data");
    assert("assets"@.len() == 6);
    assert("data"@.len() == 4);
}

/// A path with `prefix` taken out again.
pub open spec fn unprefixed(path: Seq<char>, prefix: Seq<char>) -> Seq<char> {
    let under_root = match position(path, "/"@) {
        Some(i) => {
            let root = ascii_lowered(path.subrange(0, i));
            let rest = path.skip(i + 1);
            if root == "assets"@ || root == "data"@ {
                match without_prefix(rest, prefix + "/"@) {
                    Some(after) => Some(root + "/"@ + after),
                    None => match without_prefix(rest, prefix) {
                        Some(after) => Some(root + "/"@ + after),
                        None => None,
                    },
                }
            } else {
                None
            }
        },
        None => None,
    };
    if prefix.len() == 0 {
        path
    } else {
        match under_root {
            Some(p) => p,
            None => match without_prefix(path, prefix + "/"@) {
                Some(after) => after,
                None => path,
            },
        }
    }
}

/// Inverse of [`repath_path`]: recover the form of a path without the prefix. A path
/// that does not carry the prefix is returned unchanged.
pub fn remove_prefix(path: &str, prefix: &str) -> (r: String)
    ensures
        r@ == unprefixed(path@, prefix@),
{
    if prefix.is_empty() {
        return path.to_owned();
    }
    let folder = cat(prefix, "/");
    if let Some(i) = find(path, "/") {
        proof {
            reveal_strlit("/");
        }
        let n = path.unicode_len();
        let root = slice(path, 0, i);
        let rest = slice(path, i + 1, n);
        assert(rest@ =~= path@.skip(i + 1));
        let lower = to_ascii_lower(root.as_str());
        if same(lower.as_str(), "assets") || same(lower.as_str(), "data") {
            if let Some(after) = strip_prefix(rest.as_str(), folder.as_str()) {
                let mut out = lower;
                out.append("/");
                out.append(after.as_str());
                return out;
            }
            if let Some(after) = strip_prefix(rest.as_str(), prefix) {
                let mut out = lower;
                out.append("/");
                out.append(after.as_str());
                return out;
            }
        }
    }
    match strip_prefix(path, folder.as_str()) {
        Some(after) => after,
        None => path.to_owned(),
    }
}

/// A string that could be repathed, apart from whether the mod ships the file.
pub open spec fn repath_candidate(value: Seq<char>, skip_vo: bool) -> bool {
    let lower = normal(value);
    (under_asset_root(lower) || modder_root(lower)) && !(skip_vo && holds(lower, "/wwise2016/vo/"@))
}

/// Whether a string could be repathed.
pub fn is_repath_candidate(value: &str, skip_vo: bool) -> (r: bool)
    ensures
        r == repath_candidate(value@, skip_vo),
{
    let lower = normalize(value);
    if !is_under_asset_root(lower.as_str()) && !is_modder_root_path(lower.as_str()) {
        return false;
    }
    !(skip_vo && contains(lower.as_str(), "/wwise2016/vo/"))
}

/// The file that can stand in for a texture or a mesh: `.dds` for `.tex`, `.sco` for
/// `.scb`, and the other way round.
pub open spec fn twin(lower: Seq<char>) -> Option<Seq<char>> {
    if let Some(stem) = without_suffix(lower, ".dds"@) {
        Some(stem + ".tex"@)
    } else if let Some(stem) = without_suffix(lower, ".tex"@) {
        Some(stem + ".dds"@)
    } else if let Some(stem) = without_suffix(lower, ".sco"@) {
        Some(stem + ".scb"@)
    } else if let Some(stem) = without_suffix(lower, ".scb"@) {
        Some(stem + ".sco"@)
    } else {
        None
    }
}

/// The file that can stand in for a texture or a mesh.
pub fn twin_of(lower: &str) -> (r: Option<String>)
    ensures
        r is Some <==> twin(lower@) is Some,
        r matches Some(t) ==> twin(lower@) == Some(t@),
{
    if let Some(stem) = strip_suffix(lower, ".dds") {
        Some(cat(stem.as_str(), ".tex"))
    } else if let Some(stem) = strip_suffix(lower, ".tex") {
        Some(cat(stem.as_str(), ".dds"))
    } else if let Some(stem) = strip_suffix(lower, ".sco") {
        Some(cat(stem.as_str(), ".scb"))
    } else if let Some(stem) = strip_suffix(lower, ".scb") {
        Some(cat(stem.as_str(), ".sco"))
    } else {
        None
    }
}

/// The path with the extension that can stand in for its own, which may be in any case.
pub open spec fn twin_path(path: Seq<char>) -> Option<Seq<char>> {
    let lower = ascii_lowered(path);
    let stem = path.subrange(0, path.len() - 4);
    if ends(lower, ".dds"@) {
        Some(stem + ".tex"@)
    } else if ends(lower, ".tex"@) {
        Some(stem + ".dds"@)
    } else if ends(lower, ".sco"@) {
        Some(stem + ".scb"@)
    } else if ends(lower, ".scb"@) {
        Some(stem + ".sco"@)
    } else {
        None
    }
}

/// The path with the extension that can stand in for its own.
fn find_twin_path(path: &str) -> (r: Option<String>)
    ensures
        r is Some <==> twin_path(path@) is Some,
        r matches Some(t) ==> twin_path(path@) == Some(t@),
{
    proof {
        reveal_strlit(".dds");
        reveal_strlit(".tex");
        reveal_strlit(".sco");
        reveal_strlit(".scb");
    }
    let lower = to_ascii_lower(path);
    let l = lower.as_str();
    let n = path.unicode_len();
    let other = if ends_with(l, ".dds") {
        ".tex"
    } else if ends_with(l, ".tex") {
        ".dds"
    } else if ends_with(l, ".sco") {
        ".scb"
    } else if ends_with(l, ".scb") {
        ".sco"
    } else {
        return None;
    };
    let stem = slice(path, 0, n - 4);
    Some(cat(stem.as_str(), other))
}

/// What a mod's archive ships: its lower-cased paths and its path hashes.
pub struct WadIndex {
    /// Lower-cased paths with forward slashes.
    pub paths: Vec<String>,
    /// Path hashes, those of entries without a known path among them.
    pub hashes: HashSet<u64>,
}

/// The paths of a list of archive entries, normalized.
pub open spec fn normal_paths(entries: Seq<(u64, String)>) -> Seq<Seq<char>> {
    entries.map_values(|e: (u64, String)| normal(e.1@))
}

/// The hashes of a list of archive entries.
pub open spec fn entry_hashes(entries: Seq<(u64, String)>) -> Seq<u64> {
    entries.map_values(|e: (u64, String)| e.0)
}

impl WadIndex {
    /// The archive ships this normalized path, by name or by hash.
    pub open spec fn ships<H: PathHasher>(&self, hasher: H, lower: Seq<char>) -> bool {
        listed(self.paths@, lower) || self.hashes@.contains(hasher.of(lower))
    }

    /// The path under which the archive ships what `path` refers to: the path itself,
    /// or else its twin.
    pub open spec fn actual_path<H: PathHasher>(&self, hasher: H, path: Seq<char>) -> Option<Seq<char>> {
        let lower = normal(path);
        if self.ships(hasher, lower) {
            Some(lower)
        } else {
            match twin_path(path) {
                Some(alt) => if self.ships(hasher, normal(alt)) { Some(normal(alt)) } else { None },
                None => None,
            }
        }
    }

    /// An index of nothing.
    pub fn new() -> (r: WadIndex)
        ensures
            r.paths@.len() == 0,
            r.hashes@ == Set::<u64>::empty(),
    {
        WadIndex { paths: Vec::new(), hashes: HashSet::new() }
    }

    /// Build from `(hash, path)` pairs.
    pub fn from_entries(entries: &Vec<(u64, String)>) -> (r: WadIndex)
        ensures
            texts(r.paths@) == normal_paths(entries@),
            r.hashes@ == entry_hashes(entries@).to_set(),
    {
        broadcast use vstd::std_specs::hash::group_hash_axioms;
        let mut out = WadIndex::new();
        let mut i: usize = 0;
        let ghost hashes = entry_hashes(entries@);
        assert(out.hashes@ =~= hashes.take(0).to_set());
        while i < entries.len()
            invariant
                hashes == entry_hashes(entries@),
                i <= entries@.len(),
                texts(out.paths@) == normal_paths(entries@).take(i as int),
                out.hashes@ == hashes.take(i as int).to_set(),
            decreases entries@.len() - i,
        {
            broadcast use vstd::std_specs::hash::group_hash_axioms;
            let ghost before = out.paths@;
            let ghost now = hashes.take(i + 1);
            out.hashes.insert(entries[i].0);
            out.paths.push(normalize(entries[i].1.as_str()));
            proof {
                lemma_texts_push(before, out.paths@.last());
                lemma_take_next(normal_paths(entries@), i as int);
                assert(out.paths@ =~= before.push(out.paths@.last()));
            }
            assert(now =~= hashes.take(i as int).push(hashes[i as int]));
            assert(out.hashes@ =~= now.to_set()) by {
                assert forall|h: u64| now.contains(h) implies out.hashes@.contains(h) by {
                    let k = choose|k: int| 0 <= k < now.len() && now[k] == h;
                    if k < i {
                        assert(hashes.take(i as int)[k] == h);
                        assert(hashes.take(i as int).to_set().contains(h));
                    }
                }
                assert forall|h: u64| out.hashes@.contains(h) implies now.contains(h) by {
                    if h == hashes[i as int] {
                        assert(now[i as int] == h);
                    } else {
                        assert(hashes.take(i as int).to_set().contains(h));
                        let k = choose|k: int| 0 <= k < i && hashes.take(i as int)[k] == h;
                        assert(now[k] == h);
                    }
                }
            }
            i = i + 1;
        }
        assert(normal_paths(entries@).take(i as int) =~= normal_paths(entries@));
        assert(hashes.take(i as int) =~= hashes);
        out
    }

    fn ships_path<H: PathHasher>(&self, lower: &str, hasher: &H) -> (r: bool)
        ensures
            r == self.ships(*hasher, lower@),
    {
        broadcast use vstd::std_specs::hash::group_hash_axioms;
        is_listed(&self.paths, lower) || self.hashes.contains(&hasher.hash(lower))
    }

    /// Whether the archive ships this asset path or its twin, by name or by hash.
    pub fn has<H: PathHasher>(&self, path: &str, hasher: &H) -> (r: bool)
        ensures
            r == (self.actual_path(*hasher, path@) is Some),
    {
        self.get_actual_path(path, hasher).is_some()
    }

    /// The path actually present in the archive (resolving twins).
    pub fn get_actual_path<H: PathHasher>(&self, path: &str, hasher: &H) -> (r: Option<String>)
        ensures
            r is Some <==> self.actual_path(*hasher, path@) is Some,
            r matches Some(p) ==> self.actual_path(*hasher, path@) == Some(p@),
    {
        let lower = normalize(path);
        if self.ships_path(lower.as_str(), hasher) {
            return Some(lower);
        }
        match find_twin_path(path) {
            Some(other) => {
                let alt = normalize(other.as_str());
                if self.ships_path(alt.as_str(), hasher) {
                    Some(alt)
                } else {
                    None
                }
            },
            None => None,
        }
    }
}

/// A character or skin BIN that the engine loads from a fixed path:
/// `data/characters/{c}/{c}.bin`, `data/characters/{c}/skins/skin*.bin` or
/// `data/characters/{c}/skins/root.bin`.
pub open spec fn root_skin_bin(path: Seq<char>) -> bool {
    let lower = normal(path);
    ends(lower, ".bin"@) && match without_prefix(lower, "data/characters/"@) {
        Some(rest) => {
            let parts = pieces(trimmed_end(rest, ".bin"@), '/');
            ||| parts.len() == 2 && parts[0] == parts[1]
            ||| parts.len() == 3 && parts[1] == "skins"@ && (begins(parts[2], "skin"@) || parts[2] == "root"@)
        },
        None => false,
    }
}

/// Whether the engine loads this BIN from a fixed path. Such a BIN must not be moved.
pub fn is_root_skin_bin(path: &str) -> (r: bool)
    ensures
        r == root_skin_bin(path@),
{
    let lower = normalize(path);
    if !ends_with(lower.as_str(), ".bin") {
        return false;
    }
    match strip_prefix(lower.as_str(), "data/characters/") {
        Some(rest) => {
            let stem = trim_end(rest.as_str(), ".bin");
            let parts = split(stem.as_str(), '/');
            assert(texts(parts@).len() == parts@.len());
            if parts.len() == 2 {
                assert(texts(parts@)[0] == parts@[0]@ && texts(parts@)[1] == parts@[1]@);
                same(parts[0].as_str(), parts[1].as_str())
            } else if parts.len() == 3 {
                assert(texts(parts@)[1] == parts@[1]@ && texts(parts@)[2] == parts@[2]@);
                same(parts[1].as_str(), "skins") && (starts_with(parts[2].as_str(), "skin") || same(
                    parts[2].as_str(),
                    "root",
                ))
            } else {
                false
            }
        },
        None => false,
    }
}

/// The bytes begin with the magic of a BIN file, `PROP` or `PTCH`.
pub open spec fn bin_magic(bytes: Seq<u8>) -> bool {
    bytes.len() >= 4 && (bytes.subrange(0, 4) == seq![0x50u8, 0x52, 0x4f, 0x50] || bytes.subrange(0, 4) == seq![
        0x50u8, 0x54, 0x43, 0x48,
    ])
}

/// Detects a BIN file by its content alone.
pub fn looks_like_bin(bytes: &[u8]) -> (r: bool)
    ensures
        r == bin_magic(bytes@),
{
    if bytes.len() < 4 {
        return false;
    }
    let prop = bytes[0] == 0x50 && bytes[1] == 0x52 && bytes[2] == 0x4f && bytes[3] == 0x50;
    let ptch = bytes[0] == 0x50 && bytes[1] == 0x54 && bytes[2] == 0x43 && bytes[3] == 0x48;
    let ghost head = bytes@.subrange(0, 4);
    let ghost a = seq![0x50u8, 0x52, 0x4f, 0x50];
    let ghost b = seq![0x50u8, 0x54, 0x43, 0x48];
    proof {
        assert(head[0] == bytes@[0] && head[1] == bytes@[1] && head[2] == bytes@[2] && head[3] == bytes@[3]);
        if prop {
            assert(head =~= a);
        }
        if ptch {
            assert(head =~= b);
        }
        assert(a[0] == 0x50 && a[1] == 0x52 && a[2] == 0x4f && a[3] == 0x50);
        assert(b[0] == 0x50 && b[1] == 0x54 && b[2] == 0x43 && b[3] == 0x48);
    }
    prop || ptch
}

/// The normalized forms of those of `ss` that could be repathed.
pub open spec fn asset_refs(ss: Seq<Seq<char>>, skip_vo: bool) -> Seq<Seq<char>>
    decreases ss.len(),
{
    if ss.len() == 0 {
        Seq::empty()
    } else {
        let before = asset_refs(ss.drop_last(), skip_vo);
        if repath_candidate(ss.last(), skip_vo) {
            before.push(normal(ss.last()))
        } else {
            before
        }
    }
}

/// Every asset path that a BIN file refers to: in its strings, then in its links.
pub open spec fn bin_asset_paths(t: Tree, skip_vo: bool) -> Seq<Seq<char>> {
    asset_refs(strings_in_objects(t.objects), skip_vo) + asset_refs(t.linked, skip_vo)
}

/// Collect every asset path referenced inside a BIN file, links included.
pub fn collect_bin_asset_paths(tree: &BinTree, skip_vo: bool) -> (r: Vec<String>)
    ensures
        texts(r@) == bin_asset_paths(crate::bin::tree(*tree), skip_vo),
{
    let refs = string_refs(tree);
    let ghost all = str_texts(refs@);
    let mut out: Vec<String> = Vec::new();
    let mut i: usize = 0;
    assert(texts(out@) =~= asset_refs(all.take(0), skip_vo));
    while i < refs.len()
        invariant
            all == str_texts(refs@),
            i <= refs@.len(),
            texts(out@) == asset_refs(all.take(i as int), skip_vo),
        decreases refs@.len() - i,
    {
        proof {
            lemma_take_next(all, i as int);
        }
        if is_repath_candidate(refs[i], skip_vo) {
            let t = normalize(refs[i]);
            proof {
                lemma_texts_push(out@, t);
            }
            out.push(t);
        }
        i = i + 1;
    }
    assert(all.take(i as int) =~= all);
    let ghost first = texts(out@);
    let ghost links = texts(tree.linked@);
    let mut k: usize = 0;
    assert(texts(out@) =~= first + asset_refs(links.take(0), skip_vo));
    while k < tree.linked.len()
        invariant
            links == texts(tree.linked@),
            k <= tree.linked@.len(),
            texts(out@) == first + asset_refs(links.take(k as int), skip_vo),
        decreases tree.linked@.len() - k,
    {
        proof {
            lemma_take_next(links, k as int);
        }
        if is_repath_candidate(tree.linked[k].as_str(), skip_vo) {
            let t = normalize(tree.linked[k].as_str());
            proof {
                lemma_texts_push(out@, t);
            }
            out.push(t);
            assert(texts(out@) =~= first + asset_refs(links.take(k + 1), skip_vo));
        }
        k = k + 1;
    }
    assert(links.take(k as int) =~= links);
    out
}

/// A table from old paths to new ones, in the order in which they were noted.
#[derive(Debug)]
pub struct PathMapping {
    pub pairs: Vec<(String, String)>,
}

/// `key` has a new path in `m`.
pub open spec fn has_key(m: Seq<(Seq<char>, Seq<char>)>, key: Seq<char>) -> bool {
    exists|i: int| 0 <= i < m.len() && (#[trigger] m[i]).0 == key
}

/// `m` with a new path for `key`, unless it has one.
pub open spec fn noted(m: Seq<(Seq<char>, Seq<char>)>, key: Seq<char>, value: Seq<char>) -> Seq<(Seq<char>, Seq<char>)> {
    if has_key(m, key) {
        m
    } else {
        m.push((key, value))
    }
}

/// `i` is where `key` has its new path.
pub open spec fn is_entry(m: Seq<(Seq<char>, Seq<char>)>, key: Seq<char>, i: int) -> bool {
    0 <= i < m.len() && m[i].0 == key && forall|j: int| 0 <= j < i ==> (#[trigger] m[j]).0 != key
}

/// The new path of `key`.
pub open spec fn new_path_of(m: Seq<(Seq<char>, Seq<char>)>, key: Seq<char>) -> Option<Seq<char>> {
    if exists|i: int| is_entry(m, key, i) {
        Some(m[choose|i: int| is_entry(m, key, i)].1)
    } else {
        None
    }
}

impl View for PathMapping {
    type V = Seq<(Seq<char>, Seq<char>)>;

    open spec fn view(&self) -> Seq<(Seq<char>, Seq<char>)> {
        self.pairs@.map_values(|e: (String, String)| (e.0@, e.1@))
    }
}

impl PathMapping {
    /// An empty table.
    pub fn new() -> (r: PathMapping)
        ensures
            r@ == Seq::<(Seq<char>, Seq<char>)>::empty(),
    {
        let r = PathMapping { pairs: Vec::new() };
        assert(r@ =~= Seq::empty());
        r
    }

    /// The number of paths in the table.
    pub fn len(&self) -> (r: usize)
        ensures
            r == self@.len(),
    {
        self.pairs.len()
    }

    /// The new path of `key`.
    pub fn get(&self, key: &str) -> (r: Option<&String>)
        ensures
            r is Some <==> new_path_of(self@, key@) is Some,
            r is Some <==> has_key(self@, key@),
            r matches Some(p) ==> new_path_of(self@, key@) == Some(p@),
    {
        let mut i: usize = 0;
        while i < self.pairs.len()
            invariant
                i <= self.pairs@.len(),
                forall|j: int| 0 <= j < i ==> (#[trigger] self@[j]).0 != key@,
            decreases self.pairs@.len() - i,
        {
            if same(self.pairs[i].0.as_str(), key) {
                assert(self@[i as int].0 == key@);
                assert(is_entry(self@, key@, i as int));
                let ghost k = choose|k: int| is_entry(self@, key@, k);
                assert(is_entry(self@, key@, k));
                assert(k == i) by {
                    if k < i {
                        assert(self@[k].0 != key@);
                    }
                    if k > i {
                        assert(self@[i as int].0 != key@);
                    }
                }
                return Some(&self.pairs[i].1);
            }
            i = i + 1;
        }
        assert(forall|k: int| !is_entry(self@, key@, k));
        None
    }

    /// Give `key` a new path, unless it has one.
    pub fn note(&mut self, key: &str, value: &str)
        ensures
            final(self)@ == noted(old(self)@, key@, value@),
    {
        if self.get(key).is_none() {
            let ghost before = self@;
            self.pairs.push((key.to_owned(), value.to_owned()));
            assert(self@ =~= before.push((key@, value@)));
        }
    }
}

/// `moved` with the extension of `actual`.
pub open spec fn aligned(moved: Seq<char>, actual: Seq<char>) -> Seq<char> {
    match last_position(moved, '.') {
        Some(dot) => moved.subrange(0, dot) + "."@ + pieces(actual, '.').last(),
        None => moved,
    }
}

/// What a repath run looks at: its options and what the mod ships.
pub struct RepathScope<H> {
    pub prefix: Seq<char>,
    pub layout: RepathLayout,
    pub skip_vo: bool,
    pub index: WadIndex,
    pub hasher: H,
}

/// The new form of a reference to a file that the mod ships, where it changes: the
/// repathed form, with the extension of the file that is there.
pub open spec fn new_reference<H: PathHasher>(scope: RepathScope<H>, value: Seq<char>) -> Option<Seq<char>> {
    if !repath_candidate(value, scope.skip_vo) {
        None
    } else {
        match scope.index.actual_path(scope.hasher, value) {
            None => None,
            Some(actual) => {
                let moved = repathed(value, scope.prefix, scope.layout);
                let new = if normal(value) != actual { aligned(moved, actual) } else { moved };
                if new == value {
                    None
                } else {
                    Some(new)
                }
            },
        }
    }
}

/// The new form of a link to another BIN; a BIN that the engine loads from a fixed path
/// keeps its place.
pub open spec fn new_link<H: PathHasher>(scope: RepathScope<H>, link: Seq<char>) -> Option<Seq<char>> {
    if root_skin_bin(link) {
        None
    } else {
        new_reference(scope, link)
    }
}

/// The table of moves once a rewritten reference is noted, under its own normalized
/// form and under the path of the file that is there.
pub open spec fn noted_move<H: PathHasher>(
    scope: RepathScope<H>,
    moves: Seq<(Seq<char>, Seq<char>)>,
    value: Seq<char>,
    new: Option<Seq<char>>,
) -> Seq<(Seq<char>, Seq<char>)> {
    match new {
        Some(n) => noted(
            noted(moves, normal(value), n),
            scope.index.actual_path(scope.hasher, value)->0,
            n,
        ),
        None => moves,
    }
}

/// The moves that the strings of a BIN file give rise to, in order.
pub open spec fn string_moves<H: PathHasher>(scope: RepathScope<H>, ss: Seq<Seq<char>>) -> Seq<(Seq<char>, Seq<char>)>
    decreases ss.len(),
{
    if ss.len() == 0 {
        Seq::empty()
    } else {
        noted_move(scope, string_moves(scope, ss.drop_last()), ss.last(), new_reference(scope, ss.last()))
    }
}

/// `moves` with those of the links added, in order.
pub open spec fn link_moves<H: PathHasher>(
    scope: RepathScope<H>,
    moves: Seq<(Seq<char>, Seq<char>)>,
    links: Seq<Seq<char>>,
) -> Seq<(Seq<char>, Seq<char>)>
    decreases links.len(),
{
    if links.len() == 0 {
        moves
    } else {
        noted_move(scope, link_moves(scope, moves, links.drop_last()), links.last(), new_link(scope, links.last()))
    }
}

/// The links in their new forms.
pub open spec fn new_links<H: PathHasher>(scope: RepathScope<H>, links: Seq<Seq<char>>) -> Seq<Seq<char>> {
    links.map_values(|l: Seq<char>| match new_link(scope, l) {
        Some(n) => n,
        None => l,
    })
}

/// The new form of a reference, with the file that it was found to refer to.
fn new_reference_of<H: PathHasher>(
    value: &str,
    prefix: &str,
    layout: RepathLayout,
    skip_vo: bool,
    index: &WadIndex,
    hasher: &H,
) -> (r: Option<(String, String)>)
    ensures
        ({
            let scope = RepathScope { prefix: prefix@, layout, skip_vo, index: *index, hasher: *hasher };
            &&& r is Some <==> new_reference(scope, value@) is Some
            &&& r matches Some(p) ==> new_reference(scope, value@) == Some(p.0@) && index.actual_path(
                *hasher,
                value@,
            ) == Some(p.1@)
        }),
{
    if !is_repath_candidate(value, skip_vo) {
        return None;
    }
    let actual = match index.get_actual_path(value, hasher) {
        Some(p) => p,
        None => {
            return None;
        },
    };
    let mut moved = repath_path(value, prefix, layout);
    let lower = normalize(value);
    if !same(lower.as_str(), actual.as_str()) {
        let parts = split(actual.as_str(), '.');
        proof {
            crate::text::lemma_pieces_nonempty(actual@, '.');
            assert(texts(parts@).len() == parts@.len());
        }
        let ext = parts[parts.len() - 1].as_str();
        assert(ext@ == pieces(actual@, '.').last());
        if let Some(dot) = rfind_char(moved.as_str(), '.') {
            let mut t = slice(moved.as_str(), 0, dot);
            t.append(".");
            t.append(ext);
            moved = t;
        }
    }
    if same(moved.as_str(), value) {
        None
    } else {
        Some((moved, actual))
    }
}

/// What the rewriting visitor remembers.
pub struct RepathState<H> {
    pub scope: RepathScope<H>,
    pub moves: Seq<(Seq<char>, Seq<char>)>,
}

/// The visitor that rewrites references to shipped files.
struct Repather<'a, H: PathHasher> {
    prefix: &'a str,
    layout: RepathLayout,
    skip_vo: bool,
    index: &'a WadIndex,
    hasher: &'a H,
    mapping: PathMapping,
}

impl<'a, H: PathHasher> PropertyVisitor for Repather<'a, H> {
    type State = RepathState<H>;

    closed spec fn state(&self) -> RepathState<H> {
        RepathState {
            scope: RepathScope {
                prefix: self.prefix@,
                layout: self.layout,
                skip_vo: self.skip_vo,
                index: *self.index,
                hasher: *self.hasher,
            },
            moves: self.mapping@,
        }
    }

    closed spec fn on_string(st: RepathState<H>, value: Seq<char>, field: u32) -> (RepathState<H>, Option<Seq<char>>) {
        let new = new_reference(st.scope, value);
        (RepathState { scope: st.scope, moves: noted_move(st.scope, st.moves, value, new) }, new)
    }

    closed spec fn on_field(st: RepathState<H>, hash: u32) -> (RepathState<H>, Option<u32>) {
        (st, None)
    }

    closed spec fn on_struct(st: RepathState<H>, class: u32) -> (RepathState<H>, bool) {
        (st, true)
    }

    fn visit_string(&mut self, value: &str, field_hash: FieldHash) -> (r: VisitResult) {
        match new_reference_of(value, self.prefix, self.layout, self.skip_vo, self.index, self.hasher) {
            Some((new, actual)) => {
                let lower = normalize(value);
                self.mapping.note(lower.as_str(), new.as_str());
                self.mapping.note(actual.as_str(), new.as_str());
                VisitResult::Mutate(new)
            },
            None => VisitResult::Skip,
        }
    }

    fn visit_field_hash(&mut self, hash: FieldHash) -> (r: Option<FieldHash>) {
        None
    }

    fn enter_struct(&mut self, class_hash: u32) -> (r: bool) {
        true
    }
}

/// Outcome of [`repath_bin_strings`].
pub struct RepathBinResult {
    /// Number of strings rewritten (asset strings and links).
    pub strings_repathed: u32,
    /// The new path for every rewritten reference, by its normalized form and by the
    /// path of the file it refers to.
    pub mapping: PathMapping,
}

/// The number of links that get a new form.
pub open spec fn relinked<H: PathHasher>(scope: RepathScope<H>, links: Seq<Seq<char>>) -> nat {
    hits(links, |l: Seq<char>| new_link(scope, l))
}

proof fn lemma_string_moves<H: PathHasher>(st: RepathState<H>, ss: Seq<Seq<char>>, step: spec_fn(RepathState<H>, Seq<char>) -> RepathState<H>)
    requires
        st.moves == Seq::<(Seq<char>, Seq<char>)>::empty(),
        forall|x: RepathState<H>, s: Seq<char>| #[trigger] step(x, s) == (RepathState {
            scope: x.scope,
            moves: noted_move(x.scope, x.moves, s, new_reference(x.scope, s)),
        }),
    ensures
        folded(st, ss, step) == (RepathState { scope: st.scope, moves: string_moves(st.scope, ss) }),
    decreases ss.len(),
{
    if ss.len() > 0 {
        lemma_string_moves(st, ss.drop_last(), step);
    }
}

/// Rewrite the asset references inside one BIN file: in its strings and in its links.
///
/// Only references to files that the mod ships are rewritten; one to a file of the
/// base game alone would lead nowhere under its new name.
pub fn repath_bin_strings<H: PathHasher>(
    tree: &mut BinTree,
    opts: &RepathOptions,
    index: &WadIndex,
    hasher: &H,
) -> (r: RepathBinResult)
    ensures
        ({
            let scope = RepathScope {
                prefix: opts.prefix@,
                layout: opts.layout,
                skip_vo: opts.skip_vo,
                index: *index,
                hasher: *hasher,
            };
            let os = objects(old(tree).objects);
            let ss = strings_in_objects(os);
            let links = texts(old(tree).linked@);
            &&& objects(final(tree).objects) == rewritten_objects(os, |s: Seq<char>| new_reference(scope, s))
            &&& texts(final(tree).linked@) == new_links(scope, links)
            &&& r.mapping@ == link_moves(scope, string_moves(scope, ss), links)
            &&& r.strings_repathed == capped(
                hits(ss, |s: Seq<char>| new_reference(scope, s)) + relinked(scope, links),
            )
        }),
        final(tree).trailer_files == old(tree).trailer_files,
        final(tree).trailing == old(tree).trailing,
{
    let ghost scope = RepathScope {
        prefix: opts.prefix@,
        layout: opts.layout,
        skip_vo: opts.skip_vo,
        index: *index,
        hasher: *hasher,
    };
    let ghost os = objects(tree.objects);
    let ghost ss = strings_in_objects(os);
    let ghost links = texts(tree.linked@);
    let ghost f = |s: Seq<char>| new_reference(scope, s);
    let mut visitor = Repather {
        prefix: opts.prefix.as_str(),
        layout: opts.layout,
        skip_vo: opts.skip_vo,
        index,
        hasher,
        mapping: PathMapping::new(),
    };
    let ghost st = visitor.state();
    let mut count = walk_tree(tree, &mut visitor);
    proof {
        let step = |x: RepathState<H>, s: Seq<char>| RepathState {
            scope: x.scope,
            moves: noted_move(x.scope, x.moves, s, new_reference(x.scope, s)),
        };
        let ok = |x: RepathState<H>| x.scope == scope;
        assert(rewrites_by::<Repather<H>>(f, step, ok));
        law_walk_rewrites::<Repather<H>>(st, os, f, step, ok);
        lemma_string_moves(st, ss, step);
    }
    let ghost base = visitor.mapping@;
    let ghost n0 = hits(ss, f);
    let ghost g = |l: Seq<char>| new_link(scope, l);
    let mut mapping = visitor.mapping;
    let ghost kept = tree.objects;
    let ghost original = tree.linked@;
    let mut k: usize = 0;
    let len = tree.linked.len();
    while k < len
        invariant
            len == original.len(),
            tree.linked@.len() == len,
            k <= len,
            tree.objects == kept,
            tree.trailer_files == old(tree).trailer_files,
            tree.trailing == old(tree).trailing,
            links == texts(original),
            scope == (RepathScope {
                prefix: opts.prefix@,
                layout: opts.layout,
                skip_vo: opts.skip_vo,
                index: *index,
                hasher: *hasher,
            }),
            g == (|l: Seq<char>| new_link(scope, l)),
            forall|j: int| k <= j < len ==> tree.linked@[j] == original[j],
            forall|j: int| 0 <= j < k ==> (#[trigger] tree.linked@[j])@ == new_links(scope, links)[j],
            mapping@ == link_moves(scope, base, links.take(k as int)),
            count == capped((n0 + hits(links.take(k as int), g)) as nat),
        decreases len - k,
    {
        proof {
            lemma_take_next(links, k as int);
            assert(links[k as int] == original[k as int]@);
        }
        let ghost n1 = (n0 + hits(links.take(k as int), g)) as nat;
        let mut hit: u32 = 0;
        if !is_root_skin_bin(tree.linked[k].as_str()) {
            match new_reference_of(
                tree.linked[k].as_str(),
                opts.prefix.as_str(),
                opts.layout,
                opts.skip_vo,
                index,
                hasher,
            ) {
                Some((new, actual)) => {
                    let lower = normalize(tree.linked[k].as_str());
                    mapping.note(lower.as_str(), new.as_str());
                    mapping.note(actual.as_str(), new.as_str());
                    tree.linked[k] = new;
                    hit = 1;
                },
                None => {},
            }
        }
        proof {
            assert(g(links[k as int]) == new_link(scope, links[k as int]));
            assert(hit == (if g(links[k as int]) is Some { 1u32 } else { 0u32 }));
            assert(hit == capped(hit as nat));
        }
        let ghost c0 = count;
        count = add_count(count, hit);
        assert(count == capped((n1 + hit as nat) as nat)) by {
            assert(c0 == capped(n1));
        }
        k = k + 1;
    }
    proof {
        assert(links.take(k as int) =~= links);
        assert(texts(tree.linked@) =~= new_links(scope, links));
    }
    RepathBinResult { strings_repathed: count, mapping }
}

/// Where an archive entry goes; `None` where it keeps its path.
pub open spec fn wad_path_moved(path: Seq<char>, prefix: Seq<char>, layout: RepathLayout) -> Option<Seq<char>> {
    let lower = normal(path);
    if !under_asset_root(lower) && !modder_root(lower) {
        None
    } else if under_asset_root(lower) && root_skin_bin(path) {
        None
    } else if repathed(path, prefix, layout) == path {
        None
    } else {
        Some(repathed(path, prefix, layout))
    }
}

/// The new path of an archive entry, or `None` if it keeps its path. A BIN that the
/// engine loads from a fixed path is never moved.
pub fn repath_wad_path(path: &str, prefix: &str, layout: RepathLayout) -> (r: Option<String>)
    ensures
        r is Some <==> wad_path_moved(path@, prefix@, layout) is Some,
        r matches Some(p) ==> wad_path_moved(path@, prefix@, layout) == Some(p@),
{
    let lower = normalize(path);
    let canonical = is_under_asset_root(lower.as_str());
    if !canonical && !is_modder_root_path(lower.as_str()) {
        return None;
    }
    if canonical && is_root_skin_bin(path) {
        return None;
    }
    let new = repath_path(path, prefix, layout);
    if same(new.as_str(), path) {
        None
    } else {
        Some(new)
    }
}

/// The texture path that a reference stands for: a `.tex`, also where the reference
/// says `.dds`; `None` for what is no texture.
pub open spec fn texture_path(raw: Seq<char>) -> Option<Seq<char>> {
    let path = lowered(raw);
    match without_suffix(path, ".dds"@) {
        Some(stem) => Some(stem + ".tex"@),
        None => if ends(path, ".tex"@) { Some(path) } else { None },
    }
}

/// The texture paths referenced by `refs`, each once, in order of first reference.
pub open spec fn texture_paths(refs: Seq<Seq<char>>) -> Seq<Seq<char>>
    decreases refs.len(),
{
    if refs.len() == 0 {
        Seq::empty()
    } else {
        let before = texture_paths(refs.drop_last());
        match texture_path(refs.last()) {
            Some(t) => if before.contains(t) { before } else { before.push(t) },
            None => before,
        }
    }
}

/// The paths of `ts` that are not among `existing`.
pub open spec fn not_among(ts: Seq<Seq<char>>, existing: Seq<String>) -> Seq<Seq<char>>
    decreases ts.len(),
{
    if ts.len() == 0 {
        Seq::empty()
    } else {
        let before = not_among(ts.drop_last(), existing);
        if listed(existing, ts.last()) {
            before
        } else {
            before.push(ts.last())
        }
    }
}

/// The paths of a list of placeholders.
pub open spec fn placeholder_paths(v: Seq<(String, Vec<u8>)>) -> Seq<Seq<char>> {
    v.map_values(|e: (String, Vec<u8>)| e.0@)
}

/// Placeholder entries for every texture path that is referenced but absent.
pub fn missing_invis_placeholders(existing_paths: &Vec<String>, referenced_paths: &Vec<String>) -> (r: Vec<(String, Vec<u8>)>)
    ensures
        placeholder_paths(r@) == not_among(texture_paths(texts(referenced_paths@)), existing_paths@),
        forall|i: int| 0 <= i < r@.len() ==> (#[trigger] r@[i]).1@ == invis_tex(),
{
    let ghost refs = texts(referenced_paths@);
    let mut seen: Vec<String> = Vec::new();
    let mut out: Vec<(String, Vec<u8>)> = Vec::new();
    let mut i: usize = 0;
    assert(texts(seen@) =~= texture_paths(refs.take(0)));
    assert(placeholder_paths(out@) =~= not_among(texture_paths(refs.take(0)), existing_paths@));
    while i < referenced_paths.len()
        invariant
            refs == texts(referenced_paths@),
            i <= referenced_paths@.len(),
            texts(seen@) == texture_paths(refs.take(i as int)),
            placeholder_paths(out@) == not_among(texture_paths(refs.take(i as int)), existing_paths@),
            forall|j: int| 0 <= j < out@.len() ==> (#[trigger] out@[j]).1@ == invis_tex(),
        decreases referenced_paths@.len() - i,
    {
        proof {
            lemma_take_next(refs, i as int);
            assert(refs[i as int] == referenced_paths@[i as int]@);
        }
        let path = to_lower(referenced_paths[i].as_str());
        let tex_path = match strip_suffix(path.as_str(), ".dds") {
            Some(stem) => Some(cat(stem.as_str(), ".tex")),
            None => if ends_with(path.as_str(), ".tex") { Some(path) } else { None },
        };
        if let Some(t) = tex_path {
            proof {
                lemma_listed(seen@, t@);
            }
            if !is_listed(&seen, t.as_str()) {
                let ghost before = texture_paths(refs.take(i as int));
                proof {
                    lemma_texts_push(seen@, t);
                    assert(before.push(t@).drop_last() =~= before);
                }
                if !is_listed(existing_paths, t.as_str()) {
                    let ghost o = out@;
                    out.push((t.clone(), invis_tex_bytes()));
                    assert(placeholder_paths(out@) =~= placeholder_paths(o).push(t@));
                }
                seen.push(t);
            }
        }
        i = i + 1;
    }
    assert(refs.take(i as int) =~= refs);
    out
}

/// A path segment: not empty, without a slash of either kind.
pub open spec fn is_segment(s: Seq<char>) -> bool {
    s.len() > 0 && !s.contains('/') && !s.contains('\\')
}

proof fn lemma_non_empty_all(parts: Seq<Seq<char>>)
    requires
        forall|i: int| 0 <= i < parts.len() ==> (#[trigger] parts[i]).len() > 0,
    ensures
        non_empty(parts) == parts,
    decreases parts.len(),
{
    if parts.len() > 0 {
        let head = parts.drop_last();
        assert forall|i: int| 0 <= i < head.len() implies (#[trigger] head[i]).len() > 0 by {
            assert(head[i] == parts[i]);
        }
        lemma_non_empty_all(head);
        assert(parts[parts.len() - 1].len() > 0);
        assert(head.push(parts.last()) =~= parts);
    } else {
        assert(parts =~= Seq::empty());
    }
}

proof fn lemma_joined_prefixed(parts: Seq<Seq<char>>, prefix: Seq<char>, sep: Seq<char>)
    requires
        parts.len() > 0,
    ensures
        joined(parts.update(0, prefix + parts[0]), sep) == prefix + joined(parts, sep),
    decreases parts.len(),
{
    let q = parts.update(0, prefix + parts[0]);
    if parts.len() > 1 {
        lemma_joined_prefixed(parts.drop_last(), prefix, sep);
        assert(q.drop_last() =~= parts.drop_last().update(0, prefix + parts.drop_last()[0]));
        assert(joined(q, sep) =~= prefix + joined(parts, sep));
    }
}

proof fn lemma_joined_plain(parts: Seq<Seq<char>>, sep: Seq<char>, c: char)
    requires
        !sep.contains(c),
        forall|i: int| 0 <= i < parts.len() ==> !(#[trigger] parts[i]).contains(c),
    ensures
        !joined(parts, sep).contains(c),
    decreases parts.len(),
{
    if parts.len() == 1 {
        assert(!parts[0].contains(c));
    } else if parts.len() > 1 {
        let head = parts.drop_last();
        assert forall|i: int| 0 <= i < head.len() implies !(#[trigger] head[i]).contains(c) by {
            assert(head[i] == parts[i]);
        }
        lemma_joined_plain(head, sep, c);
        let a = joined(head, sep);
        let w = a + sep + parts.last();
        assert(!parts[parts.len() - 1].contains(c));
        if w.contains(c) {
            let i = choose|i: int| 0 <= i < w.len() && w[i] == c;
            if i < a.len() {
                assert(a[i] == c);
            } else if i < a.len() + sep.len() {
                assert(sep[i - a.len()] == c);
            } else {
                assert(parts.last()[i - a.len() - sep.len()] == c);
            }
        }
    }
}

proof fn lemma_joined_head(parts: Seq<Seq<char>>, sep: Seq<char>)
    requires
        parts.len() > 0,
        parts[0].len() > 0,
    ensures
        joined(parts, sep).len() > 0,
        joined(parts, sep)[0] == parts[0][0],
    decreases parts.len(),
{
    if parts.len() > 1 {
        lemma_joined_head(parts.drop_last(), sep);
    }
}

proof fn lemma_swapped_plain(s: Seq<char>, a: char, b: char)
    requires
        !s.contains(a),
    ensures
        swapped(s, a, b) == s,
{
    assert(swapped(s, a, b) =~= s);
}

/// The first slash of `root + "/" + rest`, where `root` has none.
proof fn lemma_first_slash(root: Seq<char>, rest: Seq<char>)
    requires
        !root.contains('/'),
    ensures
        position(root + "/"@ + rest, "/"@) == Some(root.len() as int),
        (root + "/"@ + rest).subrange(0, root.len() as int) == root,
        (root + "/"@ + rest).skip(root.len() as int + 1) == rest,
{
    reveal_strlit("/");
    let w = root + "/"@ + rest;
    let n = root.len() as int;
    assert(w.subrange(n, n + 1) =~= "/"@);
    assert(occurs_at(w, "/"@, n));
    assert forall|j: int| 0 <= j < n implies !occurs_at(w, "/"@, j) by {
        if occurs_at(w, "/"@, j) {
            assert(w.subrange(j, j + 1)[0] == '/');
            assert(root[j] == '/');
        }
    }
    lemma_position(w, "/"@, n);
    assert(w.subrange(0, n) =~= root);
    assert(w.skip(n + 1) =~= rest);
}

/// Taking the prefix out undoes putting it in: for every path under an asset root
/// (written in lower case, with forward slashes and without empty segments), every
/// prefix but the empty one, and both layouts.
pub proof fn law_repath_round_trips(assets: bool, segs: Seq<Seq<char>>, prefix: Seq<char>, layout: RepathLayout)
    requires
        segs.len() > 0,
        forall|i: int| 0 <= i < segs.len() ==> is_segment(#[trigger] segs[i]),
        prefix.len() > 0,
    ensures
        ({
            let path = (if assets { "assets"@ } else { "data"@ }) + "/"@ + joined(segs, "/"@);
            unprefixed(repathed(path, prefix, layout), prefix) == path
        }),
{
    reveal_strlit("/");
    reveal_strlit("assets");
    reveal_strlit("data");
    reveal_strlit("assets/");
    reveal_strlit("data/");
    reveal_strlit("ASSETS");
    reveal_strlit("DATA");
    lemma_roots_differ();
    let root = if assets { "assets"@ } else { "data"@ };
    let body = joined(segs, "/"@);
    let path = root + "/"@ + body;
    let n = root.len() as int;
    assert("/"@ =~= seq!['/']);
    // The path is left alone by the turning of backslashes.
    assert forall|i: int| 0 <= i < segs.len() implies !(#[trigger] segs[i]).contains('\\') && !segs[i].contains('/')
        && segs[i].len() > 0 by {
        assert(is_segment(segs[i]));
    }
    lemma_joined_plain(segs, "/"@, '\\');
    assert(!path.contains('\\')) by {
        if path.contains('\\') {
            let i = choose|i: int| 0 <= i < path.len() && path[i] == '\\';
            if i >= n + 1 {
                assert(body[i - n - 1] == '\\');
            }
        }
    }
    lemma_swapped_plain(path, '\\', '/');
    // It lies under its root, and splits into its segments.
    let low = ascii_lowered(path);
    assert(low.subrange(0, n + 1) =~= root + "/"@);
    assert("assets/"@ =~= "assets"@ + "/"@);
    assert("data/"@ =~= "data"@ + "/"@);
    if !assets {
        assert(!begins(low, "assets/"@)) by {
            assert(low[0] == 'd');
            if begins(low, "assets/"@) {
                assert(low.subrange(0, 7)[0] == 'a');
            }
        }
    }
    assert(path.skip(n + 1) =~= body);
    lemma_pieces_joined(segs, "/"@, '/');
    lemma_non_empty_all(segs);
    assert(asset_path(path) == Some((root, segs)));
    let out = repathed(path, prefix, layout);
    lemma_joined_head(segs, "/"@);
    match layout {
        RepathLayout::InFolder => {
            lemma_joined_prefixed(segs, prefix, "/"@);
            let up = root_upper(root);
            assert(!up.contains('/'));
            lemma_first_slash(up, prefix + body);
            assert(ascii_lowered(up) =~= root);
            let rest = prefix + body;
            assert(without_prefix(rest, prefix + "/"@) is None) by {
                if begins(rest, prefix + "/"@) {
                    let k = prefix.len() as int;
                    assert(rest.subrange(0, k + 1)[k] == (prefix + "/"@)[k]);
                    assert(rest[k] == body[0]);
                    assert(segs[0][0] == '/');
                    assert(segs[0].contains('/'));
                }
            }
            lemma_without_prefix(prefix, body);
        },
        RepathLayout::Nested => {
            assert(!root.contains('/'));
            let rest = prefix + "/"@ + body;
            assert(path.subrange(0, n) =~= root);
            assert(out =~= root + "/"@ + rest);
            lemma_first_slash(root, rest);
            assert(ascii_lowered(root) =~= root);
            lemma_without_prefix(prefix + "/"@, body);
        },
    }
}

/// The first segment of `folder + path` is no asset root where that of `folder` is none.
proof fn lemma_no_root_before(folder: Seq<char>, path: Seq<char>, i: int)
    requires
        folder.len() > 0,
        folder.last() == '/',
        asset_path(folder) is None,
        position(folder + path, "/"@) == Some(i),
    ensures
        ascii_lowered((folder + path).subrange(0, i)) != "assets"@,
        ascii_lowered((folder + path).subrange(0, i)) != "data"@,
{
    reveal_strlit("/");
    reveal_strlit("assets");
    reveal_strlit("data");
    reveal_strlit("assets/");
    reveal_strlit("data/");
    let out = folder + path;
    let n = folder.len() - 1;
    assert(first_at(out, "/"@, i));
    assert(out.subrange(n, n + 1) =~= "/"@);
    assert(occurs_at(out, "/"@, n));
    assert(i <= n);
    let root = ascii_lowered(out.subrange(0, i));
    assert(out.subrange(i, i + 1)[0] == '/');
    let low = ascii_lowered(folder);
    assert(low.subrange(0, i + 1) =~= root + "/"@);
    if root == "assets"@ {
        assert(low.subrange(0, 7) =~= "assets/"@);
    }
    if root == "data"@ {
        assert(low.subrange(0, 5) =~= "data/"@);
    }
}

/// Taking the prefix out undoes putting it in also for a path under a modder's own
/// root, where the prefix does not itself begin with the name of an asset root.
pub proof fn law_modder_root_round_trips(path: Seq<char>, prefix: Seq<char>, layout: RepathLayout)
    requires
        modder_root(lowered(path)),
        asset_path(path) is None,
        !path.contains('\\'),
        prefix.len() > 0,
        asset_path(prefix + "/"@) is None,
    ensures
        unprefixed(repathed(path, prefix, layout), prefix) == path,
{
    reveal_strlit("/");
    lemma_swapped_plain(path, '\\', '/');
    let folder = prefix + "/"@;
    let out = folder + path;
    assert(out == repathed(path, prefix, layout));
    lemma_without_prefix(folder, path);
    if let Some(i) = position(out, "/"@) {
        lemma_no_root_before(folder, path, i);
    }
}

/// A path that carries the prefix in none of the three places, at the front or behind an
/// asset root, is returned unchanged.
pub proof fn law_unprefixed_kept(path: Seq<char>, prefix: Seq<char>)
    requires
        !begins(path, prefix + "/"@),
        forall|i: int|
            position(path, "/"@) == Some(i) && (ascii_lowered(path.subrange(0, i)) == "assets"@ || ascii_lowered(
                path.subrange(0, i),
            ) == "data"@) ==> !begins(#[trigger] path.skip(i + 1), prefix),
    ensures
        unprefixed(path, prefix) == path,
{
    if let Some(i) = position(path, "/"@) {
        let rest = path.skip(i + 1);
        if begins(rest, prefix + "/"@) {
            assert(rest.subrange(0, prefix.len() as int) =~= prefix) by {
                let k = (prefix + "/"@).len() as int;
                assert(rest.subrange(0, k).subrange(0, prefix.len() as int) =~= rest.subrange(0, prefix.len() as int));
                assert((prefix + "/"@).subrange(0, prefix.len() as int) =~= prefix);
            }
        }
    }
}

/// A BIN that the engine loads from a fixed path is never moved.
pub proof fn law_root_skin_bins_stay(path: Seq<char>, prefix: Seq<char>, layout: RepathLayout)
    requires
        root_skin_bin(path),
    ensures
        wad_path_moved(path, prefix, layout) is None,
{
    let lower = normal(path);
    reveal_strlit("data/characters/");
    reveal_strlit("data/");
    assert(lower.subrange(0, 16) == "data/characters/"@);
    assert(lower.subrange(0, 5) =~= "data/"@) by {
        assert forall|i: int| 0 <= i < 5 implies lower.subrange(0, 5)[i] == "data/"@[i] by {
            assert(lower.subrange(0, 16)[i] == lower[i]);
        }
    }
}

/// A reference to a file that the mod does not ship is left alone, and so is
/// voice-over where it is skipped.
pub proof fn law_unshipped_kept<H: PathHasher>(scope: RepathScope<H>, value: Seq<char>)
    ensures
        scope.index.actual_path(scope.hasher, value) is None ==> new_reference(scope, value) is None,
        scope.skip_vo && holds(normal(value), "/wwise2016/vo/"@) ==> new_reference(scope, value) is None,
{
}

proof fn lemma_noted_keeps(m: Seq<(Seq<char>, Seq<char>)>, key: Seq<char>, value: Seq<char>, other: Seq<char>)
    ensures
        has_key(noted(m, key, value), key),
        has_key(m, other) ==> has_key(noted(m, key, value), other),
{
    let n = noted(m, key, value);
    if !has_key(m, key) {
        assert(n[n.len() - 1].0 == key);
    }
    if has_key(m, other) {
        let i = choose|i: int| 0 <= i < m.len() && (#[trigger] m[i]).0 == other;
        assert(n[i].0 == other);
    }
}

/// Every rewritten string has a new path on record: under its own normalized form and
/// under the path of the file that it refers to. So the archive entry can follow.
pub proof fn law_moves_recorded<H: PathHasher>(scope: RepathScope<H>, ss: Seq<Seq<char>>, i: int)
    requires
        0 <= i < ss.len(),
        new_reference(scope, ss[i]) is Some,
    ensures
        has_key(string_moves(scope, ss), normal(ss[i])),
        has_key(string_moves(scope, ss), scope.index.actual_path(scope.hasher, ss[i])->0),
    decreases ss.len(),
{
    let head = ss.drop_last();
    let before = string_moves(scope, head);
    let s = ss.last();
    let a = normal(ss[i]);
    let b = scope.index.actual_path(scope.hasher, ss[i])->0;
    if let Some(n) = new_reference(scope, s) {
        let sa = normal(s);
        let sb = scope.index.actual_path(scope.hasher, s)->0;
        lemma_noted_keeps(before, sa, n, a);
        lemma_noted_keeps(before, sa, n, b);
        lemma_noted_keeps(noted(before, sa, n), sb, n, a);
        lemma_noted_keeps(noted(before, sa, n), sb, n, b);
        lemma_noted_keeps(noted(before, sa, n), sb, n, sa);
    }
    if i < ss.len() - 1 {
        assert(head[i] == ss[i]);
        law_moves_recorded(scope, head, i);
    }
}

proof fn lemma_ends_with(stem: Seq<char>, ext: Seq<char>, other: Seq<char>)
    requires
        ext.len() == 4,
        other.len() == 4,
        ascii_lowered(ext) == ext,
    ensures
        ends(ascii_lowered(stem + ext), other) == (ext == other),
        (stem + ext).subrange(0, (stem + ext).len() - 4) == stem,
{
    let w = ascii_lowered(stem + ext);
    let n = stem.len() as int;
    assert(w.subrange(n, n + 4) =~= ext) by {
        assert forall|i: int| 0 <= i < 4 implies w[n + i] == ext[i] by {
            assert(ascii_lowered(ext)[i] == ext[i]);
        }
    }
    assert((stem + ext).subrange(0, n) =~= stem);
}

/// An extension and its twin are always both found or both not found.
pub proof fn law_twins_are_found_together<H: PathHasher>(index: WadIndex, hasher: H, stem: Seq<char>)
    ensures
        index.actual_path(hasher, stem + ".dds"@) is Some <==> index.actual_path(hasher, stem + ".tex"@) is Some,
        index.actual_path(hasher, stem + ".sco"@) is Some <==> index.actual_path(hasher, stem + ".scb"@) is Some,
{
    reveal_strlit(".dds");
    reveal_strlit(".tex");
    reveal_strlit(".sco");
    reveal_strlit(".scb");
    let all = seq![".dds"@, ".tex"@, ".sco"@, ".scb"@];
    assert(".dds"@[1] == 'd' && ".tex"@[1] == 't' && ".sco"@[1] == 's' && ".scb"@[1] == 's');
    assert(".sco"@[3] == 'o' && ".scb"@[3] == 'b');
    assert forall|i: int, j: int| 0 <= i < 4 && 0 <= j < 4 implies ends(
        ascii_lowered(stem + #[trigger] all[i]),
        #[trigger] all[j],
    ) == (all[i] == all[j]) by {
        assert(ascii_lowered(all[i]) =~= all[i]);
        lemma_ends_with(stem, all[i], all[j]);
    }
    assert(all[0] == ".dds"@ && all[1] == ".tex"@ && all[2] == ".sco"@ && all[3] == ".scb"@);
    assert forall|i: int| 0 <= i < 4 implies (stem + #[trigger] all[i]).subrange(0, (stem + all[i]).len() - 4) == stem by {
        assert(ascii_lowered(all[i]) =~= all[i]);
        lemma_ends_with(stem, all[i], all[i]);
    }
}

/// A path that is written as an asset root, in any case, and segments below it.
pub open spec fn written_path(root: Seq<char>, segs: Seq<Seq<char>>) -> Seq<char> {
    root + "/"@ + joined(segs, "/"@)
}

/// An asset root in any case, and at least one segment, none empty or with a slash.
pub open spec fn well_written(root: Seq<char>, segs: Seq<Seq<char>>) -> bool {
    &&& ascii_lowered(root) == "assets"@ || ascii_lowered(root) == "data"@
    &&& segs.len() > 0
    &&& forall|i: int| 0 <= i < segs.len() ==> is_segment(#[trigger] segs[i])
}

proof fn lemma_written(root: Seq<char>, segs: Seq<Seq<char>>)
    requires
        well_written(root, segs),
    ensures
        ({
            let path = written_path(root, segs);
            &&& swapped(path, '\\', '/') == path
            &&& asset_path(path) == Some((ascii_lowered(root), segs))
            &&& path.subrange(0, root.len() as int) == root
            &&& root.len() == ascii_lowered(root).len()
        }),
{
    reveal_strlit("/");
    reveal_strlit("assets");
    reveal_strlit("data");
    reveal_strlit("assets/");
    reveal_strlit("data/");
    lemma_roots_differ();
    let body = joined(segs, "/"@);
    let path = written_path(root, segs);
    let low_root = ascii_lowered(root);
    let n = root.len() as int;
    assert(low_root.len() == n);
    assert("/"@ =~= seq!['/']);
    assert forall|i: int| 0 <= i < segs.len() implies !(#[trigger] segs[i]).contains('\\') && !segs[i].contains('/')
        && segs[i].len() > 0 by {
        assert(is_segment(segs[i]));
    }
    lemma_joined_plain(segs, "/"@, '\\');
    assert(!path.contains('\\')) by {
        if path.contains('\\') {
            let i = choose|i: int| 0 <= i < path.len() && path[i] == '\\';
            if i >= n + 1 {
                assert(body[i - n - 1] == '\\');
            } else if i < n {
                assert(low_root[i] == lower_char(root[i]));
                assert(low_root[i] == '\\');
            }
        }
    }
    lemma_swapped_plain(path, '\\', '/');
    let low = ascii_lowered(path);
    assert(low.subrange(0, n + 1) =~= low_root + "/"@);
    assert("assets/"@ =~= "assets"@ + "/"@);
    assert("data/"@ =~= "data"@ + "/"@);
    if low_root == "data"@ {
        assert(!begins(low, "assets/"@)) by {
            assert(low[0] == low.subrange(0, n + 1)[0]);
            if begins(low, "assets/"@) {
                assert(low.subrange(0, 7)[0] == 'a');
            }
        }
    }
    assert(path.skip(n + 1) =~= body);
    lemma_pieces_joined(segs, "/"@, '/');
    lemma_non_empty_all(segs);
    assert(path.subrange(0, n) =~= root);
}

/// The new form of a path under an asset root: the upper-case root and the prefix directly
/// before the rest, or the root as it came and the prefix as a folder of its own.
pub open spec fn prefixed_form(root: Seq<char>, segs: Seq<Seq<char>>, prefix: Seq<char>, layout: RepathLayout) -> Seq<char> {
    match layout {
        RepathLayout::InFolder => (if ascii_lowered(root) == "assets"@ { "ASSETS/"@ } else { "DATA/"@ }) + prefix + joined(segs, "/"@),
        RepathLayout::Nested => root + "/"@ + prefix + "/"@ + joined(segs, "/"@),
    }
}

/// Repathing puts the prefix into a path where the layout says, keeps every segment, and
/// changes the path unless the prefix is empty.
pub proof fn law_repath_puts_the_prefix_in(root: Seq<char>, segs: Seq<Seq<char>>, prefix: Seq<char>, layout: RepathLayout)
    requires
        well_written(root, segs),
    ensures
        repathed(written_path(root, segs), prefix, layout) == prefixed_form(root, segs, prefix, layout),
        prefix.len() > 0 ==> prefixed_form(root, segs, prefix, layout) != written_path(root, segs),
{
    lemma_written(root, segs);
    lemma_roots_differ();
    reveal_strlit("/");
    reveal_strlit("assets");
    reveal_strlit("data");
    reveal_strlit("ASSETS");
    reveal_strlit("DATA");
    reveal_strlit("ASSETS/");
    reveal_strlit("DATA/");
    lemma_joined_prefixed(segs, prefix, "/"@);
    let path = written_path(root, segs);
    let out = prefixed_form(root, segs, prefix, layout);
    assert(repathed(path, prefix, layout) =~= out);
    assert(out.len() > path.len() || prefix.len() == 0);
}

/// A path under a modder's own root gets the prefix as a new top folder.
pub proof fn law_modder_paths_get_a_top_folder(path: Seq<char>, prefix: Seq<char>, layout: RepathLayout)
    requires
        modder_root(lowered(path)),
        asset_path(path) is None,
        !path.contains('\\'),
    ensures
        repathed(path, prefix, layout) == prefix + "/"@ + path,
{
    lemma_swapped_plain(path, '\\', '/');
}

/// A path with one of the extensions of assets in a folder outside the asset roots is a
/// modder's own.
pub proof fn law_modder_roots_are_recognised(folder: Seq<char>, name: Seq<char>, ext: Seq<char>)
    requires
        ext == ".dds"@ || ext == ".tex"@ || ext == ".skn"@ || ext == ".skl"@ || ext == ".anm"@ || ext == ".bin"@ || ext == ".bnk"@
            || ext == ".wpk"@ || ext == ".wem"@ || ext == ".scb"@ || ext == ".sco"@ || ext == ".scn"@ || ext == ".troybin"@ || ext
            == ".luaobj"@ || ext == ".lua"@ || ext == ".dat"@ || ext == ".png"@ || ext == ".jpg"@ || ext == ".webp"@ || ext
            == ".mapgeo"@,
        !begins(folder + "/"@ + name + ext, "assets/"@),
        !begins(folder + "/"@ + name + ext, "data/"@),
    ensures
        modder_root(folder + "/"@ + name + ext),
{
    reveal_strlit("/");
    reveal(has_asset_extension);
    let w = folder + "/"@ + name + ext;
    assert(w[folder.len() as int] == '/');
    assert(w.subrange(w.len() - ext.len(), w.len() as int) =~= ext);
}

/// The archive lists a path: some entry has it, normalized.
pub open spec fn lists(index: WadIndex, lower: Seq<char>) -> bool {
    exists|i: int| 0 <= i < index.paths@.len() && (#[trigger] index.paths@[i])@ == lower
}

/// A reference to a file that the archive lists is rewritten to the prefixed form of its
/// path, unless it is voice-over that is skipped.
pub proof fn law_shipped_references_are_moved<H: PathHasher>(scope: RepathScope<H>, root: Seq<char>, segs: Seq<Seq<char>>)
    requires
        well_written(root, segs),
        scope.prefix.len() > 0,
        begins(normal(written_path(root, segs)), "assets/"@) || begins(normal(written_path(root, segs)), "data/"@),
        !scope.skip_vo || !holds(normal(written_path(root, segs)), "/wwise2016/vo/"@),
        lists(scope.index, normal(written_path(root, segs))) || scope.index.hashes@.contains(
            scope.hasher.of(normal(written_path(root, segs))),
        ),
    ensures
        new_reference(scope, written_path(root, segs)) == Some(prefixed_form(root, segs, scope.prefix, scope.layout)),
{
    law_repath_puts_the_prefix_in(root, segs, scope.prefix, scope.layout);
}

/// A reference under a modder's own root to a file that the archive lists gets the prefix
/// as a top folder.
pub proof fn law_shipped_modder_references_are_moved<H: PathHasher>(scope: RepathScope<H>, value: Seq<char>)
    requires
        modder_root(lowered(value)),
        modder_root(normal(value)),
        asset_path(value) is None,
        !value.contains('\\'),
        !scope.skip_vo || !holds(normal(value), "/wwise2016/vo/"@),
        lists(scope.index, normal(value)) || scope.index.hashes@.contains(scope.hasher.of(normal(value))),
    ensures
        new_reference(scope, value) == Some(scope.prefix + "/"@ + value),
{
    reveal_strlit("/");
    law_modder_paths_get_a_top_folder(value, scope.prefix, scope.layout);
    assert((scope.prefix + "/"@ + value).len() > value.len());
}

/// A BIN that the engine loads from a fixed path is one directly under `data/characters/`
/// of this shape: `{c}/{c}.bin`, `{c}/skins/skin*.bin` or `{c}/skins/root.bin`.
pub proof fn law_engine_bins_are_known_by_shape(path: Seq<char>, parts: Seq<Seq<char>>)
    requires
        parts.len() > 0,
        forall|i: int| 0 <= i < parts.len() ==> !(#[trigger] parts[i]).contains('/'),
        !ends(joined(parts, "/"@), ".bin"@),
        normal(path) == "data/characters/"@ + joined(parts, "/"@) + ".bin"@,
    ensures
        root_skin_bin(path) <==> {
            ||| parts.len() == 2 && parts[0] == parts[1]
            ||| parts.len() == 3 && parts[1] == "skins"@ && (begins(parts[2], "skin"@) || parts[2] == "root"@)
        },
{
    reveal_strlit("/");
    reveal_strlit(".bin");
    assert("/"@ =~= seq!['/']);
    let body = joined(parts, "/"@);
    let lower = normal(path);
    let rest = body + ".bin"@;
    assert(lower =~= "data/characters/"@ + rest);
    lemma_without_prefix("data/characters/"@, rest);
    assert(lower.subrange(lower.len() - 4, lower.len() as int) =~= ".bin"@);
    assert(rest.subrange(rest.len() - 4, rest.len() as int) =~= ".bin"@);
    assert(rest.subrange(0, rest.len() - 4) =~= body);
    reveal_with_fuel(trimmed_end, 2);
    assert(trimmed_end(rest, ".bin"@) == body);
    lemma_pieces_joined(parts, "/"@, '/');
}

/// Only a BIN under `data/characters/` is one that the engine loads from a fixed path.
pub proof fn law_only_character_bins_are_fixed(path: Seq<char>)
    requires
        root_skin_bin(path),
    ensures
        ends(normal(path), ".bin"@),
        begins(normal(path), "data/characters/"@),
{
}

/// A link to a BIN that the engine loads from a fixed path stays; every other link is
/// rewritten as a reference is.
pub proof fn law_links_follow_references<H: PathHasher>(scope: RepathScope<H>, links: Seq<Seq<char>>, i: int)
    requires
        0 <= i < links.len(),
    ensures
        new_links(scope, links).len() == links.len(),
        root_skin_bin(links[i]) ==> new_links(scope, links)[i] == links[i],
        !root_skin_bin(links[i]) ==> new_links(scope, links)[i] == match new_reference(scope, links[i]) {
            Some(n) => n,
            None => links[i],
        },
{
}

/// A file at a well-written path under an asset root moves to the prefixed form of its
/// path, unless it is a BIN of a character.
pub proof fn law_asset_files_are_moved(root: Seq<char>, segs: Seq<Seq<char>>, prefix: Seq<char>, layout: RepathLayout)
    requires
        well_written(root, segs),
        prefix.len() > 0,
        begins(normal(written_path(root, segs)), "assets/"@) || begins(normal(written_path(root, segs)), "data/"@),
        !(ends(normal(written_path(root, segs)), ".bin"@) && begins(normal(written_path(root, segs)), "data/characters/"@)),
    ensures
        wad_path_moved(written_path(root, segs), prefix, layout) == Some(prefixed_form(root, segs, prefix, layout)),
{
    law_repath_puts_the_prefix_in(root, segs, prefix, layout);
    if root_skin_bin(written_path(root, segs)) {
        law_only_character_bins_are_fixed(written_path(root, segs));
    }
}

/// A file at a path under a modder's own root moves into a top folder with the prefix.
pub proof fn law_modder_files_are_moved(path: Seq<char>, prefix: Seq<char>, layout: RepathLayout)
    requires
        modder_root(lowered(path)),
        modder_root(normal(path)),
        asset_path(path) is None,
        !path.contains('\\'),
    ensures
        wad_path_moved(path, prefix, layout) == Some(prefix + "/"@ + path),
{
    reveal_strlit("/");
    law_modder_paths_get_a_top_folder(path, prefix, layout);
    assert((prefix + "/"@ + path).len() > path.len());
}

/// What ends a path in a dot and three letters ends what is behind its root.
proof fn lemma_dotted_end(root: Seq<char>, body: Seq<char>, stem: Seq<char>, ext: Seq<char>)
    requires
        ascii_lowered(root) == "assets"@ || ascii_lowered(root) == "data"@,
        body.len() > 0,
        root + "/"@ + body == stem + ext,
        ext.len() == 4,
        !ext.contains('/'),
    ensures
        body.len() >= 4,
{
    reveal_strlit("/");
    let w = root + "/"@ + body;
    if body.len() < 4 {
        let k = root.len() as int;
        assert(w[k] == '/');
        assert(w.len() == stem.len() + 4 && k >= stem.len());
        assert((stem + ext)[k] == ext[k - stem.len()]);
    }
}

proof fn lemma_twin_extension(stem: Seq<char>, a: Seq<char>, b: Seq<char>)
    requires
        a == "dds"@ && b == "tex"@ || a == "tex"@ && b == "dds"@ || a == "sco"@ && b == "scb"@ || a == "scb"@ && b == "sco"@,
    ensures
        twin_path(stem + "."@ + a) == Some(stem + "."@ + b),
{
    reveal_strlit(".");
    reveal_strlit("dds");
    reveal_strlit("tex");
    reveal_strlit("sco");
    reveal_strlit("scb");
    reveal_strlit(".dds");
    reveal_strlit(".tex");
    reveal_strlit(".sco");
    reveal_strlit(".scb");
    let ea = "."@ + a;
    let eb = "."@ + b;
    assert(stem + "."@ + a =~= stem + ea);
    assert(stem + "."@ + b =~= stem + eb);
    assert(".dds"@ =~= "."@ + "dds"@ && ".tex"@ =~= "."@ + "tex"@ && ".sco"@ =~= "."@ + "sco"@ && ".scb"@ =~= "."@ + "scb"@);
    assert(".dds"@[1] == 'd' && ".tex"@[1] == 't' && ".sco"@[1] == 's' && ".scb"@[1] == 's');
    assert(".sco"@[3] == 'o' && ".scb"@[3] == 'b');
    assert(ascii_lowered(ea) =~= ea);
    lemma_ends_with(stem, ea, ".dds"@);
    lemma_ends_with(stem, ea, ".tex"@);
    lemma_ends_with(stem, ea, ".sco"@);
    lemma_ends_with(stem, ea, ".scb"@);
}

proof fn lemma_aligned(form: Seq<char>, actual: Seq<char>, a: Seq<char>, b: Seq<char>)
    requires
        a.len() == 3,
        b.len() == 3,
        !a.contains('.'),
        !b.contains('.'),
        form.len() >= 4,
        form.subrange(form.len() - 4, form.len() as int) == "."@ + a,
        ends(actual, "."@ + b),
    ensures
        aligned(form, actual) == form.take(form.len() - 3) + b,
{
    reveal_strlit(".");
    let n = form.len() as int;
    let ea = "."@ + a;
    let eb = "."@ + b;
    assert forall|j: int| n - 4 <= j < n implies form[j] == ea[j - (n - 4)] by {
        assert(form.subrange(n - 4, n)[j - (n - 4)] == form[j]);
    }
    assert(last_at(form, '.', n - 4)) by {
        assert forall|j: int| n - 4 < j < n implies form[j] != '.' by {
            assert(form[j] == a[j - (n - 3)]);
        }
    }
    crate::text::lemma_last_position(form, '.', n - 4);
    let head = actual.subrange(0, actual.len() - 4);
    assert(actual =~= head.push('.') + b) by {
        assert forall|j: int| actual.len() - 4 <= j < actual.len() implies actual[j] == eb[j - (actual.len() - 4)] by {
            assert(actual.subrange(actual.len() - 4, actual.len() as int)[j - (actual.len() - 4)] == actual[j]);
        }
    }
    crate::text::lemma_pieces_push(head, b, '.');
    assert(aligned(form, actual) =~= form.take(n - 3) + b);
}

/// What ends a path in a dot and three letters ends its prefixed form.
proof fn lemma_form_ends(
    root: Seq<char>,
    segs: Seq<Seq<char>>,
    prefix: Seq<char>,
    layout: RepathLayout,
    stem: Seq<char>,
    ext: Seq<char>,
)
    requires
        well_written(root, segs),
        written_path(root, segs) =~= stem + ext,
        ext.len() == 4,
        !ext.contains('/'),
    ensures
        ({
            let form = prefixed_form(root, segs, prefix, layout);
            form.len() >= 4 && form.subrange(form.len() - 4, form.len() as int) == ext
        }),
{
    reveal_strlit("/");
    let value = written_path(root, segs);
    let form = prefixed_form(root, segs, prefix, layout);
    let body = joined(segs, "/"@);
    let n = form.len() as int;
    assert(is_segment(segs[0]));
    lemma_joined_head(segs, "/"@);
    lemma_dotted_end(root, body, stem, ext);
    assert(form.subrange(n - body.len(), n) =~= body);
    assert(value.subrange(value.len() - body.len(), value.len() as int) =~= body);
    assert forall|j: int| 0 <= j < 4 implies form[n - 4 + j] == ext[j] by {
        assert(form[n - 4 + j] == form.subrange(n - body.len(), n)[body.len() - 4 + j]);
        assert(value[value.len() - 4 + j] == value.subrange(value.len() - body.len(), value.len() as int)[body.len() - 4 + j]);
        assert((stem + ext)[value.len() - 4 + j] == ext[j]);
    }
    assert(form.subrange(n - 4, n) =~= ext);
}

/// A reference to a texture or mesh that the archive ships under the twin extension only
/// is rewritten to the prefixed form of its path with that extension.
#[verifier::rlimit(60)]
pub proof fn law_twin_references_are_aligned<H: PathHasher>(
    scope: RepathScope<H>,
    root: Seq<char>,
    segs: Seq<Seq<char>>,
    stem: Seq<char>,
    a: Seq<char>,
    b: Seq<char>,
)
    requires
        well_written(root, segs),
        a == "dds"@ && b == "tex"@ || a == "tex"@ && b == "dds"@ || a == "sco"@ && b == "scb"@ || a == "scb"@ && b == "sco"@,
        written_path(root, segs) == stem + "."@ + a,
        begins(normal(stem + "."@ + a), "assets/"@) || begins(normal(stem + "."@ + a), "data/"@),
        !scope.skip_vo || !holds(normal(stem + "."@ + a), "/wwise2016/vo/"@),
        !lists(scope.index, normal(stem + "."@ + a)),
        !scope.index.hashes@.contains(scope.hasher.of(normal(stem + "."@ + a))),
        lists(scope.index, normal(stem + "."@ + b)) || scope.index.hashes@.contains(scope.hasher.of(normal(stem + "."@ + b))),
        ends(normal(stem + "."@ + b), "."@ + b),
        normal(stem + "."@ + a) != normal(stem + "."@ + b),
    ensures
        ({
            let form = prefixed_form(root, segs, scope.prefix, scope.layout);
            new_reference(scope, stem + "."@ + a) == Some(form.take(form.len() - 3) + b)
        }),
{
    reveal_strlit(".");
    reveal_strlit("/");
    reveal_strlit("dds");
    reveal_strlit("tex");
    reveal_strlit("sco");
    reveal_strlit("scb");
    let value = stem + "."@ + a;
    law_repath_puts_the_prefix_in(root, segs, scope.prefix, scope.layout);
    let form = prefixed_form(root, segs, scope.prefix, scope.layout);
    let ea = "."@ + a;
    let actual = normal(stem + "."@ + b);
    lemma_twin_extension(stem, a, b);
    assert(scope.index.actual_path(scope.hasher, value) == Some(actual));
    lemma_form_ends(root, segs, scope.prefix, scope.layout, stem, ea);
    lemma_aligned(form, actual, a, b);
    let new = aligned(form, actual);
    assert(new != value) by {
        let n = form.len() as int;
        assert(new[n - 1] == b[2]);
        assert(value[value.len() - 1] == a[2]);
        assert(new[n - 3] == b[0] && value[value.len() - 3] == a[0]);
    }
}

proof fn lemma_texture_paths(refs: Seq<Seq<char>>, t: Seq<char>)
    ensures
        texture_paths(refs).contains(t) <==> exists|i: int| 0 <= i < refs.len() && texture_path(#[trigger] refs[i]) == Some(t),
    decreases refs.len(),
{
    if refs.len() > 0 {
        let head = refs.drop_last();
        lemma_texture_paths(head, t);
        assert(refs[refs.len() - 1] == refs.last());
        if let Some(x) = texture_path(refs.last()) {
            lemma_push_contains(texture_paths(head), x, t);
        }
        if exists|i: int| 0 <= i < head.len() && texture_path(#[trigger] head[i]) == Some(t) {
            let i = choose|i: int| 0 <= i < head.len() && texture_path(#[trigger] head[i]) == Some(t);
            assert(texture_path(refs[i]) == Some(t));
        }
        if exists|i: int| 0 <= i < refs.len() && texture_path(#[trigger] refs[i]) == Some(t) {
            let i = choose|i: int| 0 <= i < refs.len() && texture_path(#[trigger] refs[i]) == Some(t);
            if i < head.len() {
                assert(texture_path(head[i]) == Some(t));
            }
        }
    }
}

proof fn lemma_not_among(ts: Seq<Seq<char>>, existing: Seq<String>, t: Seq<char>)
    ensures
        not_among(ts, existing).contains(t) <==> ts.contains(t) && !listed(existing, t),
    decreases ts.len(),
{
    if ts.len() > 0 {
        let head = ts.drop_last();
        lemma_not_among(head, existing, t);
        assert(head.push(ts.last()) =~= ts);
        lemma_push_contains(head, ts.last(), t);
        lemma_push_contains(not_among(head, existing), ts.last(), t);
    }
}

/// A referenced texture whose `.tex` file does not exist gets a placeholder there, whichever
/// of the two extensions the reference has; one whose `.tex` file exists gets none.
pub proof fn law_missing_textures_get_placeholders(refs: Seq<Seq<char>>, existing: Seq<String>, r: int, stem: Seq<char>)
    requires
        0 <= r < refs.len(),
        lowered(refs[r]) == stem + ".dds"@ || lowered(refs[r]) == stem + ".tex"@,
    ensures
        not_among(texture_paths(refs), existing).contains(stem + ".tex"@) <==> forall|i: int|
            0 <= i < existing.len() ==> (#[trigger] existing[i])@ != stem + ".tex"@,
{
    reveal_strlit(".dds");
    reveal_strlit(".tex");
    let t = stem + ".tex"@;
    let path = lowered(refs[r]);
    let n = path.len() - 4;
    if path == stem + ".dds"@ {
        assert(path.subrange(n, path.len() as int) =~= ".dds"@);
        assert(path.subrange(0, n) =~= stem);
    } else {
        assert(path.subrange(n, path.len() as int) =~= ".tex"@);
        assert(path.subrange(n, path.len() as int)[1] == 't');
        assert(".dds"@[1] == 'd');
    }
    assert(texture_path(refs[r]) == Some(t));
    lemma_texture_paths(refs, t);
    lemma_not_among(texture_paths(refs), existing, t);
}

/// A placeholder stands only where a reference leads, and ends in `.tex`.
pub proof fn law_placeholders_are_for_references(refs: Seq<Seq<char>>, existing: Seq<String>, t: Seq<char>)
    requires
        not_among(texture_paths(refs), existing).contains(t),
    ensures
        ends(t, ".tex"@),
        exists|i: int|
            0 <= i < refs.len() && (lowered(#[trigger] refs[i]) == t || lowered(refs[i]) == t.take(t.len() - 4) + ".dds"@),
{
    reveal_strlit(".dds");
    reveal_strlit(".tex");
    lemma_not_among(texture_paths(refs), existing, t);
    lemma_texture_paths(refs, t);
    let i = choose|i: int| 0 <= i < refs.len() && texture_path(#[trigger] refs[i]) == Some(t);
    let path = lowered(refs[i]);
    if ends(path, ".dds"@) {
        let stem = path.subrange(0, path.len() - 4);
        assert(t == stem + ".tex"@);
        assert(t.subrange(t.len() - 4, t.len() as int) =~= ".tex"@);
        assert(t.take(t.len() - 4) =~= stem);
        assert(path =~= stem + path.subrange(path.len() - 4, path.len() as int));
    }
}

proof fn lemma_short_name(s: Seq<char>)
    requires
        forall|i: int| 0 <= i < s.len() ==> is_prefix_char(#[trigger] s[i]),
    ensures
        short_name(s) == s.take(if s.len() < 4 { s.len() as int } else { 4 }).map_values(|c: char| lower_char(c)),
    decreases s.len(),
{
    let n = if s.len() < 4 { s.len() as int } else { 4 };
    let want = s.take(n).map_values(|c: char| lower_char(c));
    if s.len() > 0 {
        let head = s.drop_last();
        assert forall|i: int| 0 <= i < head.len() implies is_prefix_char(#[trigger] head[i]) by {
            assert(head[i] == s[i]);
        }
        lemma_short_name(head);
        assert(is_prefix_char(s[s.len() - 1]));
        assert(short_name(s) =~= want);
    } else {
        assert(short_name(s) =~= want);
    }
}

/// The prefix of a champion and skin is a dot, the first four letters of the name in lower
/// case, the number and an underscore.
pub proof fn law_prefix_is_made_of_name_and_number(champion: Seq<char>, skin_no: u32)
    requires
        champion.len() >= 4,
        forall|i: int| 0 <= i < champion.len() ==> is_prefix_char(#[trigger] champion[i]),
    ensures
        derived_prefix(champion, skin_no) == "."@ + champion.take(4).map_values(|c: char| lower_char(c)) + decimal(skin_no as nat) + "_"@,
{
    lemma_short_name(champion);
}

} // verus!
