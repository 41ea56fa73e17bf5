//! Dead asset references: a path that the file names and that neither the mod nor the
//! game ships.
//!
//! Without a game install nothing is reported: there is no telling what the game ships.

use vstd::prelude::*;
use vstd::string::*;
use crate::bin::{objects, BinTree, Object};
use crate::context::{BinScope, FixContext};
use crate::detect::anm_scope::{clip_form, is_never_loaded, never_loads, normalize as clip_normalize};
use crate::detect::rules::{has_any_prefix, starts_with_any};
use crate::sorting::{sort_texts, texts_ascend};
use crate::text::{
    ascii_lowered, begins, cat, chars, contains, ends, ends_with, find, first_at, holds, lemma_holds_iff_position, lemma_position,
    lemma_take_next, lowered, position, replace_char, same, slice,
    swapped, texts, to_ascii_lower, to_lower,
};
use crate::traits::{GameProvider, HashProvider, WadProvider};
use crate::walk::{str_texts, string_refs, strings_in_objects};

verus! {

/// A path anchored at its `characters/` segment again.
pub open spec fn canonical_path(path: Seq<char>) -> Option<Seq<char>> {
    let plain = swapped(path, '\\', '/');
    match position(ascii_lowered(plain), "characters/"@) {
        Some(i) => Some("ASSETS/"@ + plain.skip(i)),
        None => None,
    }
}

/// Re-anchor a repathed asset path on its `characters/` segment. `None` when the path
/// has no such segment.
pub fn canonical(path: &str) -> (r: Option<String>)
    ensures
        r is Some <==> canonical_path(path@) is Some,
        r matches Some(p) ==> canonical_path(path@) == Some(p@),
{
    let plain = replace_char(path, '\\', '/');
    let lower = to_ascii_lower(plain.as_str());
    match find(lower.as_str(), "characters/") {
        Some(i) => {
            let n = plain.as_str().unicode_len();
            let rest = slice(plain.as_str(), i, n);
            assert(rest@ =~= plain@.skip(i as int));
            Some(cat("ASSETS/", rest.as_str()))
        },
        None => None,
    }
}

/// The text ends in one of the extensions, in any case.
pub open spec fn has_any_extension(s: Seq<char>, extensions: Seq<String>) -> bool {
    exists|i: int| 0 <= i < extensions.len() && ends(lowered(s), lowered((#[trigger] extensions[i])@))
}

fn ends_with_any(lower: &str, extensions: &Vec<String>) -> (r: bool)
    ensures
        r == exists|i: int| 0 <= i < extensions@.len() && ends(lower@, lowered((#[trigger] extensions@[i])@)),
{
    let mut i: usize = 0;
    while i < extensions.len()
        invariant
            i <= extensions@.len(),
            forall|j: int| 0 <= j < i ==> !ends(lower@, lowered((#[trigger] extensions@[j])@)),
        decreases extensions@.len() - i,
    {
        let e = to_lower(extensions[i].as_str());
        if ends_with(lower, e.as_str()) {
            return true;
        }
        i = i + 1;
    }
    false
}

/// `.anm` is one of the extensions.
pub open spec fn looks_at_clips(extensions: Seq<String>) -> bool {
    exists|i: int| 0 <= i < extensions.len() && lowered((#[trigger] extensions[i])@) == ".anm"@
}

fn is_about_clips(extensions: &Vec<String>) -> (r: bool)
    ensures
        r == looks_at_clips(extensions@),
{
    let mut i: usize = 0;
    while i < extensions.len()
        invariant
            i <= extensions@.len(),
            forall|j: int| 0 <= j < i ==> lowered((#[trigger] extensions@[j])@) != ".anm"@,
        decreases extensions@.len() - i,
    {
        let e = to_lower(extensions[i].as_str());
        if same(e.as_str(), ".anm") {
            return true;
        }
        i = i + 1;
    }
    false
}

/// The mod or the game ships the file.
pub open spec fn exists_somewhere<W: WadProvider, G: GameProvider>(wad: W, game: G, path: Seq<char>) -> bool {
    wad.holds_path(path) || game.ships_path(path)
}

/// A reference to a file of these extensions, under one of the prefixes where there are
/// any, that nobody ships: neither as written nor at its stock path. A clip that never
/// loads does not count where `suppress` says so.
pub open spec fn dead_ref<W: WadProvider, G: GameProvider>(
    s: Seq<char>,
    os: Seq<Object>,
    wad: W,
    game: G,
    extensions: Seq<String>,
    prefixes: Seq<String>,
    suppress: bool,
) -> bool {
    &&& has_any_extension(s, extensions)
    &&& prefixes.len() == 0 || has_any_prefix(lowered(s), prefixes)
    &&& !exists_somewhere(wad, game, s)
    &&& (match canonical_path(s) {
        Some(c) => !exists_somewhere(wad, game, c),
        None => true,
    })
    &&& !(suppress && looks_at_clips(extensions) && never_loads(os, clip_form(s)))
}

/// A dead reference of the file.
pub open spec fn dead_in_file<H: HashProvider, W: WadProvider, G: GameProvider>(
    ctx: FixContext<H, W, G>,
    s: Seq<char>,
    extensions: Seq<String>,
    prefixes: Seq<String>,
    suppress: bool,
) -> bool {
    match ctx.game {
        Some(game) => strings_in_objects(objects(ctx.tree.objects)).contains(s) && dead_ref(
            s,
            objects(ctx.tree.objects),
            *ctx.wad,
            *game,
            extensions,
            prefixes,
            suppress,
        ),
        None => false,
    }
}

fn is_dead<W: WadProvider, G: GameProvider>(
    s: &str,
    tree: &BinTree,
    wad: &W,
    game: &G,
    extensions: &Vec<String>,
    prefixes: &Vec<String>,
    suppress: bool,
) -> (r: bool)
    ensures
        r == dead_ref(s@, objects(tree.objects), *wad, *game, extensions@, prefixes@, suppress),
{
    let lower = to_lower(s);
    if !ends_with_any(lower.as_str(), extensions) {
        return false;
    }
    if prefixes.len() > 0 && !starts_with_any(lower.as_str(), prefixes) {
        return false;
    }
    if wad.has_path(s) || game.has_path(s) {
        return false;
    }
    if let Some(c) = canonical(s) {
        if wad.has_path(c.as_str()) || game.has_path(c.as_str()) {
            return false;
        }
    }
    if suppress && is_about_clips(extensions) {
        let form = clip_normalize(s);
        if is_never_loaded(tree, form.as_str()) {
            return false;
        }
    }
    true
}

/// Asset paths that the file names and that exist in neither the mod nor the game,
/// each once, in ascending order.
pub fn dead_refs<H: HashProvider, W: WadProvider, G: GameProvider>(
    ctx: &FixContext<H, W, G>,
    extensions: &Vec<String>,
    path_prefixes: &Vec<String>,
    suppress_never_loaded: bool,
) -> (r: Vec<String>)
    ensures
        texts_ascend(texts(r@)),
        forall|s: Seq<char>| #[trigger] texts(r@).contains(s) <==> dead_in_file(
            *ctx,
            s,
            extensions@,
            path_prefixes@,
            suppress_never_loaded,
        ),
        forall|s: Seq<char>| #[trigger] texts(r@).contains(s) ==> {
            &&& strings_in_objects(objects(ctx.tree.objects)).contains(s)
            &&& !ctx.wad.holds_path(s)
            &&& ctx.game is Some
            &&& !ctx.game->0.ships_path(s)
        },
{
    let game = match ctx.game {
        Some(g) => g,
        None => {
            return Vec::new();
        },
    };
    let refs = string_refs(&ctx.tree);
    let ghost os = objects(ctx.tree.objects);
    let ghost ss = strings_in_objects(os);
    let mut dead: Vec<String> = Vec::new();
    let mut i: usize = 0;
    while i < refs.len()
        invariant
            os == objects(ctx.tree.objects),
            ss == strings_in_objects(os),
            ss == str_texts(refs@),
            ctx.game == Some(game),
            i <= refs@.len(),
            forall|s: Seq<char>| #[trigger] texts(dead@).contains(s) <==> ss.take(i as int).contains(s) && dead_ref(
                s,
                os,
                *ctx.wad,
                *game,
                extensions@,
                path_prefixes@,
                suppress_never_loaded,
            ),
        decreases refs@.len() - i,
    {
        let s = refs[i];
        assert(ss[i as int] == s@);
        let ghost before = dead@;
        let hit = is_dead(s, &ctx.tree, ctx.wad, game, extensions, path_prefixes, suppress_never_loaded);
        if hit {
            dead.push(s.to_owned());
            assert(texts(dead@) =~= texts(before).push(s@));
        }
        proof {
            let now = ss.take(i + 1);
            lemma_take_next(ss, i as int);
            assert forall|x: Seq<char>| #[trigger] texts(dead@).contains(x) <==> now.contains(x) && dead_ref(
                x,
                os,
                *ctx.wad,
                *game,
                extensions@,
                path_prefixes@,
                suppress_never_loaded,
            ) by {
                if texts(before).contains(x) {
                    let k = choose|k: int| 0 <= k < texts(before).len() && texts(before)[k] == x;
                    assert(texts(dead@)[k] == x);
                    let m = choose|m: int| 0 <= m < i && ss.take(i as int)[m] == x;
                    assert(now[m] == x);
                }
                if texts(dead@).contains(x) && !texts(before).contains(x) {
                    assert(x == s@);
                    assert(now[i as int] == x);
                }
                if now.contains(x) {
                    let m = choose|m: int| 0 <= m < now.len() && now[m] == x;
                    if m < i {
                        assert(ss.take(i as int)[m] == x);
                        assert(ss.take(i as int).contains(x));
                    } else if hit {
                        assert(texts(dead@)[dead@.len() - 1] == x);
                    }
                }
            }
        }
        i = i + 1;
    }
    assert(ss.take(i as int) =~= ss);
    sort_texts(dead)
}

/// Boolean verdict for the detection dispatch.
pub fn detect<H: HashProvider, W: WadProvider, G: GameProvider>(
    ctx: &FixContext<H, W, G>,
    extensions: &Vec<String>,
    path_prefixes: &Vec<String>,
    suppress_never_loaded: bool,
) -> (r: bool)
    ensures
        r == exists|s: Seq<char>| dead_in_file(*ctx, s, extensions@, path_prefixes@, suppress_never_loaded),
{
    let dead = dead_refs(ctx, extensions, path_prefixes, suppress_never_loaded);
    proof {
        let d = texts(dead@);
        if dead@.len() > 0 {
            assert(d.contains(d[0]));
        } else {
            assert forall|s: Seq<char>| !dead_in_file(*ctx, s, extensions@, path_prefixes@, suppress_never_loaded) by {
                assert(!d.contains(s));
            }
        }
    }
    dead.len() > 0
}

/// A dead reference in this BIN is reached as the mod is used. What cannot be told
/// counts as reached.
pub open spec fn reached_in_use(scope: BinScope) -> bool {
    match scope.reachable {
        None => true,
        Some(r) => scope.root_slot() is Some || !scope.animation() || r.reachable@.contains(scope.chunk_hash),
    }
}

/// Whether a dead reference in this BIN is reached as the mod is used: in a skin root
/// it is, and in an animation BIN only when something loaded links it.
pub fn is_reached_in_use<H: HashProvider, W: WadProvider, G: GameProvider>(ctx: &FixContext<H, W, G>) -> (r: bool)
    ensures
        r == reached_in_use(ctx.scope),
{
    match ctx.scope.reachable {
        None => true,
        Some(reach) => {
            if ctx.scope.skin_slot().is_some() {
                return true;
            }
            if ctx.scope.is_animation_bin() {
                return reach.loads(ctx.scope.chunk_hash);
            }
            true
        },
    }
}

/// The text up to the first slash of either kind.
pub open spec fn first_segment(s: Seq<char>) -> Seq<char>
    decreases s.len(),
{
    if s.len() == 0 || s[0] == '/' || s[0] == '\\' {
        Seq::empty()
    } else {
        seq![s[0]] + first_segment(s.skip(1))
    }
}

/// The segment behind `characters/`, where it is not empty.
pub open spec fn asset_character(path: Seq<char>) -> Option<Seq<char>> {
    match position(ascii_lowered(path), "characters/"@) {
        Some(i) => {
            let name = first_segment(path.skip(i + "characters/"@.len()));
            if name.len() > 0 {
                Some(name)
            } else {
                None
            }
        },
        None => None,
    }
}

fn segment_end(v: &Vec<char>, from: usize) -> (r: usize)
    requires
        from <= v@.len(),
    ensures
        from <= r <= v@.len(),
        v@.subrange(from as int, r as int) == first_segment(v@.skip(from as int)),
    decreases v@.len() - from,
{
    let ghost s = v@.skip(from as int);
    if from == v.len() {
        assert(v@.subrange(from as int, from as int) =~= first_segment(s));
        return from;
    }
    assert(s[0] == v@[from as int]);
    if v[from] == '/' || v[from] == '\\' {
        assert(v@.subrange(from as int, from as int) =~= first_segment(s));
        return from;
    }
    let r = segment_end(v, from + 1);
    assert(s.skip(1) =~= v@.skip(from + 1));
    assert(v@.subrange(from as int, r as int) =~= seq![v@[from as int]] + v@.subrange(from + 1, r as int));
    r
}

/// The character an asset path belongs to, e.g. `sru_chaosminionmelee`.
pub fn character_of_asset(path: &str) -> (r: Option<String>)
    ensures
        r is Some <==> asset_character(path@) is Some,
        r matches Some(n) ==> asset_character(path@) == Some(n@),
{
    let lower = to_ascii_lower(path);
    match find(lower.as_str(), "characters/") {
        Some(i) => {
            let v = chars(path);
            let total = v.len();
            let start: usize = i + "characters/".unicode_len();
            let end = segment_end(&v, start);
            if end == start {
                None
            } else {
                Some(slice(path, start, end))
            }
        },
        None => None,
    }
}

/// The asset belongs to no playable character: it has none, or its name holds one of
/// the markers.
pub open spec fn map_character(path: Seq<char>, markers: Seq<String>) -> bool {
    match asset_character(path) {
        None => true,
        Some(name) => exists|i: int|
            0 <= i < markers.len() && holds(lowered(name), lowered((#[trigger] markers[i])@)),
    }
}

/// Whether an asset belongs to a map character rather than a playable one.
pub fn is_map_character(path: &str, markers: &Vec<String>) -> (r: bool)
    ensures
        r == map_character(path@, markers@),
{
    let name = match character_of_asset(path) {
        Some(n) => to_lower(n.as_str()),
        None => {
            return true;
        },
    };
    let mut i: usize = 0;
    while i < markers.len()
        invariant
            i <= markers@.len(),
            asset_character(path@) is Some,
            name@ == lowered(asset_character(path@)->0),
            forall|j: int| 0 <= j < i ==> !holds(name@, lowered((#[trigger] markers@[j])@)),
        decreases markers@.len() - i,
    {
        let m = to_lower(markers[i].as_str());
        if contains(name.as_str(), m.as_str()) {
            return true;
        }
        i = i + 1;
    }
    false
}

/// A path that the mod or the game ships is never a dead reference, and neither is one
/// whose part from `characters/` on they ship under the stock root. Without a game
/// nothing is dead.
pub proof fn law_shipped_refs_are_alive<H: HashProvider, W: WadProvider, G: GameProvider>(
    ctx: FixContext<H, W, G>,
    s: Seq<char>,
    extensions: Seq<String>,
    prefixes: Seq<String>,
    suppress: bool,
)
    requires
        dead_in_file(ctx, s, extensions, prefixes, suppress),
    ensures
        ctx.game is Some,
        strings_in_objects(objects(ctx.tree.objects)).contains(s),
        !ctx.wad.holds_path(s),
        !ctx.game->0.ships_path(s),
        forall|i: int| #[trigger]
            first_at(ascii_lowered(swapped(s, '\\', '/')), "characters/"@, i) ==> {
                &&& !ctx.wad.holds_path("ASSETS/"@ + swapped(s, '\\', '/').skip(i))
                &&& !ctx.game->0.ships_path("ASSETS/"@ + swapped(s, '\\', '/').skip(i))
            },
        exists|i: int| 0 <= i < extensions.len() && ends(lowered(s), lowered((#[trigger] extensions[i])@)),
        prefixes.len() > 0 ==> exists|i: int| 0 <= i < prefixes.len() && begins(lowered(s), lowered((#[trigger] prefixes[i])@)),
{
    let plain = swapped(s, '\\', '/');
    assert forall|i: int| #[trigger] first_at(ascii_lowered(plain), "characters/"@, i) implies {
        &&& !ctx.wad.holds_path("ASSETS/"@ + plain.skip(i))
        &&& !ctx.game->0.ships_path("ASSETS/"@ + plain.skip(i))
    } by {
        lemma_position(ascii_lowered(plain), "characters/"@, i);
    }
}

/// A reference that the file holds, of one of the extensions and under one of the
/// prefixes where there are any, is dead where nobody ships it, as it is written or any
/// part of it under the stock root.
pub proof fn law_unshipped_refs_are_dead<H: HashProvider, W: WadProvider, G: GameProvider>(
    ctx: FixContext<H, W, G>,
    s: Seq<char>,
    extensions: Seq<String>,
    prefixes: Seq<String>,
    e: int,
)
    requires
        ctx.game is Some,
        strings_in_objects(objects(ctx.tree.objects)).contains(s),
        0 <= e < extensions.len(),
        ends(lowered(s), lowered(extensions[e]@)),
        prefixes.len() == 0 || exists|i: int| 0 <= i < prefixes.len() && begins(lowered(s), lowered((#[trigger] prefixes[i])@)),
        !ctx.wad.holds_path(s),
        !ctx.game->0.ships_path(s),
        forall|i: int|
            0 <= i <= s.len() ==> {
                &&& !ctx.wad.holds_path("ASSETS/"@ + #[trigger] swapped(s, '\\', '/').skip(i))
                &&& !ctx.game->0.ships_path("ASSETS/"@ + swapped(s, '\\', '/').skip(i))
            },
    ensures
        dead_in_file(ctx, s, extensions, prefixes, false),
{
    let plain = swapped(s, '\\', '/');
    lemma_holds_iff_position(ascii_lowered(plain), "characters/"@);
    if let Some(i) = position(ascii_lowered(plain), "characters/"@) {
        assert(!ctx.wad.holds_path("ASSETS/"@ + plain.skip(i)));
    }
}

/// A mod that ships more has no more dead references, and so has one under a game that
/// ships more.
pub proof fn law_shipping_more_kills_nothing<H: HashProvider, W: WadProvider, G: GameProvider>(
    less: FixContext<H, W, G>,
    more: FixContext<H, W, G>,
    s: Seq<char>,
    extensions: Seq<String>,
    prefixes: Seq<String>,
    suppress: bool,
)
    requires
        less.tree == more.tree,
        less.game is Some,
        forall|p: Seq<char>| #[trigger] less.wad.holds_path(p) ==> more.wad.holds_path(p),
        forall|p: Seq<char>| #[trigger] less.game->0.ships_path(p) ==> more.game is Some && more.game->0.ships_path(p),
        dead_in_file(more, s, extensions, prefixes, suppress),
    ensures
        dead_in_file(less, s, extensions, prefixes, suppress),
{
}

/// An animation that never loads is not reported as dead where such are to be left out, and
/// nothing else is left out on that account.
pub proof fn law_never_loaded_clips_are_left_out<H: HashProvider, W: WadProvider, G: GameProvider>(
    ctx: FixContext<H, W, G>,
    s: Seq<char>,
    extensions: Seq<String>,
    prefixes: Seq<String>,
    e: int,
)
    ensures
        0 <= e < extensions.len() && lowered(extensions[e]@) == ".anm"@ && never_loads(objects(ctx.tree.objects), clip_form(s))
            ==> !dead_in_file(ctx, s, extensions, prefixes, true),
        !never_loads(objects(ctx.tree.objects), clip_form(s)) ==> (dead_in_file(ctx, s, extensions, prefixes, true) <==> dead_in_file(
            ctx,
            s,
            extensions,
            prefixes,
            false,
        )),
        (forall|i: int| 0 <= i < extensions.len() ==> lowered((#[trigger] extensions[i])@) != ".anm"@) ==> (dead_in_file(
            ctx,
            s,
            extensions,
            prefixes,
            true,
        ) <==> dead_in_file(ctx, s, extensions, prefixes, false)),
{
}

proof fn lemma_first_segment(name: Seq<char>, rest: Seq<char>)
    requires
        !name.contains('/'),
        !name.contains('\\'),
        rest.len() > 0 ==> rest[0] == '/' || rest[0] == '\\',
    ensures
        first_segment(name + rest) == name,
    decreases name.len(),
{
    let s = name + rest;
    if name.len() > 0 {
        assert(name.contains(name[0]));
        assert(s[0] == name[0]);
        let tail = name.skip(1);
        assert(s.skip(1) =~= tail + rest);
        assert forall|k: int| 0 <= k < tail.len() implies tail[k] != '/' && tail[k] != '\\' by {
            assert(name.contains(name[k + 1]));
            assert(tail[k] == name[k + 1]);
        }
        lemma_first_segment(tail, rest);
        assert(seq![name[0]] + tail =~= name);
    } else {
        assert(s =~= rest);
    }
}

/// An asset is one of the map, and not of the mod's champion, where its character's name has
/// one of the marks in it, or where it is of no character.
pub proof fn law_map_characters_are_known_by_mark(
    path: Seq<char>,
    before: Seq<char>,
    word: Seq<char>,
    name: Seq<char>,
    rest: Seq<char>,
    markers: Seq<String>,
)
    ensures
        position(ascii_lowered(path), "characters/"@) is None ==> map_character(path, markers),
        path == before + word + name + rest && word.len() == "characters/"@.len() && position(ascii_lowered(path), "characters/"@) == Some(
            before.len() as int,
        ) && name.len() > 0 && !name.contains('/') && !name.contains('\\') && (rest.len() > 0 ==> rest[0] == '/' || rest[0] == '\\')
            ==> (map_character(path, markers) <==> exists|i: int|
            0 <= i < markers.len() && holds(lowered(name), lowered((#[trigger] markers[i])@))),
{
    if path == before + word + name + rest && word.len() == "characters/"@.len() && !name.contains('/') && !name.contains('\\') && (
    rest.len() > 0 ==> rest[0] == '/' || rest[0] == '\\') {
        lemma_first_segment(name, rest);
        assert(path.skip((before.len() + word.len()) as int) =~= name + rest);
    }
}

} // verus!
