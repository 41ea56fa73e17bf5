//! Rewrites dead asset references to a live form, by a ladder: the twin extension in
//! the mod or the game, then the name without its inner tag in the game, then the twin
//! of that. A reference that exists is left alone, and without a game nothing is done.

use vstd::prelude::*;
use vstd::string::*;
use vstd::utf8::*;
use crate::bin::{objects, FieldHash, Object};
use crate::context::{same_but_tree, FixContext};
use crate::strings::{replace_extension, with_extension};
use crate::text::{
    ascii_lowered, cat, ends, ends_with, joined, last_at, last_position, lemma_last_position, lemma_pieces_joined, lowered, pieces,
    rfind_char, slice, split, texts, to_lower,
};
use crate::traits::{GameProvider, HashProvider, WadProvider};
use crate::walk::{
    capped, hits_objects_at, law_rewriting_maps_strings, law_walk_rewrites_at, lemma_fieldless_objects, only_rewrites,
    rewritten_objects_at, strings_in_objects, walk_tree, PropertyVisitor, VisitResult,
};

verus! {

/// The path with its twin extension: `.dds` for `.tex`, `.sco` for `.scb`, and the
/// other way round.
pub open spec fn extension_twin(path: Seq<char>) -> Option<Seq<char>> {
    let lower = lowered(path);
    if ends(lower, ".dds"@) {
        with_extension(path, ".dds"@, ".tex"@)
    } else if ends(lower, ".tex"@) {
        with_extension(path, ".tex"@, ".dds"@)
    } else if ends(lower, ".sco"@) {
        with_extension(path, ".sco"@, ".scb"@)
    } else if ends(lower, ".scb"@) {
        with_extension(path, ".scb"@, ".sco"@)
    } else {
        None
    }
}

/// The path with its twin extension, if there is one.
pub fn ext_twin(path: &str) -> (r: Option<String>)
    ensures
        r is Some <==> extension_twin(path@) is Some,
        r matches Some(t) ==> extension_twin(path@) == Some(t@),
{
    let lower = to_lower(path);
    if ends_with(lower.as_str(), ".dds") {
        replace_extension(path, ".dds", ".tex")
    } else if ends_with(lower.as_str(), ".tex") {
        replace_extension(path, ".tex", ".dds")
    } else if ends_with(lower.as_str(), ".sco") {
        replace_extension(path, ".sco", ".scb")
    } else if ends_with(lower.as_str(), ".scb") {
        replace_extension(path, ".scb", ".sco")
    } else {
        None
    }
}

/// The directory part of a path with its slash.
pub open spec fn directory_part(path: Seq<char>) -> Seq<char> {
    match last_position(path, '/') {
        Some(i) => path.subrange(0, i + 1),
        None => Seq::empty(),
    }
}

/// The file name of a path.
pub open spec fn file_part(path: Seq<char>) -> Seq<char> {
    match last_position(path, '/') {
        Some(i) => path.skip(i + 1),
        None => path,
    }
}

/// The path without the inner tag of its file name: `stem.tag.ext` becomes `stem.ext`.
pub open spec fn without_inner_tag(path: Seq<char>) -> Option<Seq<char>> {
    let parts = pieces(file_part(path), '.');
    if parts.len() == 3 && parts[0].len() > 0 && parts[1].len() > 0 && parts[2].len() > 0 {
        Some(directory_part(path) + parts[0] + "."@ + parts[2])
    } else {
        None
    }
}

/// Strip an inner "tag" segment from a file name: `attack1.matcha.anm` becomes
/// `attack1.anm`. `None` for names that do not have exactly three parts.
pub fn strip_inner_suffix(path: &str) -> (r: Option<String>)
    ensures
        r is Some <==> without_inner_tag(path@) is Some,
        r matches Some(t) ==> without_inner_tag(path@) == Some(t@),
{
    let n = path.unicode_len();
    let (dir, file) = match rfind_char(path, '/') {
        Some(i) => (slice(path, 0, i + 1), slice(path, i + 1, n)),
        None => (String::new(), path.to_owned()),
    };
    assert(dir@ =~= directory_part(path@));
    assert(file@ =~= file_part(path@));
    let parts = split(file.as_str(), '.');
    assert(texts(parts@).len() == parts@.len());
    if parts.len() != 3 {
        return None;
    }
    assert(texts(parts@)[0] == parts@[0]@ && texts(parts@)[1] == parts@[1]@ && texts(parts@)[2] == parts@[2]@);
    if parts[0].as_str().is_empty() || parts[1].as_str().is_empty() || parts[2].as_str().is_empty() {
        return None;
    }
    let mut out = dir;
    out.append(parts[0].as_str());
    out.append(".");
    out.append(parts[2].as_str());
    Some(out)
}

/// The path has one of the extensions (given without their dot), in any case.
pub open spec fn configured_extension(value: Seq<char>, extensions: Seq<String>) -> bool {
    exists|i: int| 0 <= i < extensions.len() && ends(lowered(value), "."@ + lowered((#[trigger] extensions[i])@))
}

/// What the ladder goes by.
pub struct LadderScope<W, G> {
    pub extensions: Seq<String>,
    pub wad: W,
    pub game: G,
}

/// The live form of a dead reference, where the ladder finds one.
pub open spec fn live_form<W: WadProvider, G: GameProvider>(scope: LadderScope<W, G>, value: Seq<char>) -> Option<Seq<char>> {
    let twin = extension_twin(value);
    let stripped = without_inner_tag(value);
    if !configured_extension(value, scope.extensions) || scope.wad.holds_path(value) || scope.game.ships_path(value) {
        None
    } else if twin is Some && (scope.wad.holds_path(twin->0) || scope.game.ships_path(twin->0)) {
        twin
    } else if stripped is Some && scope.game.ships_path(stripped->0) {
        stripped
    } else if stripped is Some && extension_twin(stripped->0) is Some && scope.game.ships_path(
        extension_twin(stripped->0)->0,
    ) {
        extension_twin(stripped->0)
    } else {
        None
    }
}

struct DeadRefResolver<'a, W: WadProvider, G: GameProvider> {
    extensions: &'a Vec<String>,
    wad: &'a W,
    game: &'a G,
}

impl<'a, W: WadProvider, G: GameProvider> DeadRefResolver<'a, W, G> {
    fn matches_configured_extension(&self, value: &str) -> (r: bool)
        ensures
            r == configured_extension(value@, self.extensions@),
    {
        let lower = to_lower(value);
        let mut i: usize = 0;
        while i < self.extensions.len()
            invariant
                lower@ == lowered(value@),
                i <= self.extensions@.len(),
                forall|j: int| 0 <= j < i ==> !ends(lowered(value@), "."@ + lowered((#[trigger] self.extensions@[j])@)),
            decreases self.extensions@.len() - i,
        {
            let ext = to_lower(self.extensions[i].as_str());
            let suffix = cat(".", ext.as_str());
            if ends_with(lower.as_str(), suffix.as_str()) {
                return true;
            }
            i = i + 1;
        }
        false
    }
}

impl<'a, W: WadProvider, G: GameProvider> PropertyVisitor for DeadRefResolver<'a, W, G> {
    type State = LadderScope<W, G>;

    closed spec fn state(&self) -> LadderScope<W, G> {
        LadderScope { extensions: self.extensions@, wad: *self.wad, game: *self.game }
    }

    closed spec fn on_string(st: LadderScope<W, G>, value: Seq<char>, field: u32) -> (LadderScope<W, G>, Option<Seq<char>>) {
        (st, live_form(st, value))
    }

    closed spec fn on_field(st: LadderScope<W, G>, hash: u32) -> (LadderScope<W, G>, Option<u32>) {
        (st, None)
    }

    closed spec fn on_struct(st: LadderScope<W, G>, class: u32) -> (LadderScope<W, G>, bool) {
        (st, true)
    }

    fn visit_string(&mut self, value: &str, field_hash: FieldHash) -> (r: VisitResult) {
        if !self.matches_configured_extension(value) {
            return VisitResult::Skip;
        }
        if self.wad.has_path(value) {
            return VisitResult::Skip;
        }
        if self.game.has_path(value) {
            return VisitResult::Skip;
        }
        if let Some(twin) = ext_twin(value) {
            if self.wad.has_path(twin.as_str()) || self.game.has_path(twin.as_str()) {
                return VisitResult::Mutate(twin);
            }
        }
        if let Some(stripped) = strip_inner_suffix(value) {
            if self.game.has_path(stripped.as_str()) {
                return VisitResult::Mutate(stripped);
            }
            if let Some(twin) = ext_twin(stripped.as_str()) {
                if self.game.has_path(twin.as_str()) {
                    return VisitResult::Mutate(twin);
                }
            }
        }
        VisitResult::Skip
    }

    fn visit_field_hash(&mut self, hash: FieldHash) -> (r: Option<FieldHash>) {
        None
    }

    fn enter_struct(&mut self, class_hash: u32) -> (r: bool) {
        true
    }
}

/// Rewrite dead references ending in a configured extension to a live form. Returns
/// the number of strings rewritten.
pub fn apply<H: HashProvider, W: WadProvider, G: GameProvider>(
    ctx: &mut FixContext<H, W, G>,
    extensions: &Vec<String>,
) -> (n: u32)
    ensures
        match old(ctx).game {
            Some(game) => {
                let scope = LadderScope { extensions: extensions@, wad: *old(ctx).wad, game: *game };
                let f = |s: Seq<char>, field: u32| live_form(scope, s);
                let os = objects(old(ctx).tree.objects);
                objects(final(ctx).tree.objects) == rewritten_objects_at(os, f) && n == capped(hits_objects_at(os, f))
            },
            None => final(ctx).tree == old(ctx).tree && n == 0,
        },
        final(ctx).tree.linked == old(ctx).tree.linked,
        final(ctx).tree.trailer_files == old(ctx).tree.trailer_files,
        final(ctx).tree.trailing == old(ctx).tree.trailing,
        same_but_tree(*final(ctx), *old(ctx)),
{
    let game = match ctx.game {
        Some(g) => g,
        None => {
            return 0;
        },
    };
    let mut visitor = DeadRefResolver { extensions, wad: ctx.wad, game };
    let ghost st = visitor.state();
    let ghost os = objects(ctx.tree.objects);
    let n = walk_tree(&mut ctx.tree, &mut visitor);
    proof {
        let f = |s: Seq<char>, field: u32| live_form(st, s);
        assert(only_rewrites::<DeadRefResolver<W, G>>(st, f));
        law_walk_rewrites_at::<DeadRefResolver<W, G>>(st, os, f);
    }
    n
}

/// A reference is rewritten only to a file that the mod or the game has, and only if it
/// was dead itself.
pub proof fn law_only_dead_refs_become_live<W: WadProvider, G: GameProvider>(scope: LadderScope<W, G>, value: Seq<char>)
    requires
        live_form(scope, value) is Some,
    ensures
        !scope.wad.holds_path(value) && !scope.game.ships_path(value),
        scope.wad.holds_path(live_form(scope, value)->0) || scope.game.ships_path(live_form(scope, value)->0),
{
}

/// Two extensions that stand in for each other.
pub open spec fn twin_extensions(a: Seq<char>, b: Seq<char>) -> bool {
    ||| a == ".dds"@ && b == ".tex"@
    ||| a == ".tex"@ && b == ".dds"@
    ||| a == ".sco"@ && b == ".scb"@
    ||| a == ".scb"@ && b == ".sco"@
}

proof fn lemma_twin_extensions()
    ensures
        ".dds"@.len() == 4 && ".tex"@.len() == 4 && ".sco"@.len() == 4 && ".scb"@.len() == 4,
        ".dds"@ != ".tex"@ && ".dds"@ != ".sco"@ && ".dds"@ != ".scb"@,
        ".tex"@ != ".sco"@ && ".tex"@ != ".scb"@ && ".sco"@ != ".scb"@,
        lowered(".dds"@) == ".dds"@ && lowered(".tex"@) == ".tex"@,
        lowered(".sco"@) == ".sco"@ && lowered(".scb"@) == ".scb"@,
{
    reveal_strlit(".dds");
    reveal_strlit(".tex");
    reveal_strlit(".sco");
    reveal_strlit(".scb");
    assert(".dds"@[1] == 'd' && ".tex"@[1] == 't' && ".sco"@[1] == 's' && ".scb"@[1] == 's');
    assert(".sco"@[3] == 'o' && ".scb"@[3] == 'b');
    assert(ascii_lowered(".dds"@) =~= ".dds"@);
    assert(ascii_lowered(".tex"@) =~= ".tex"@);
    assert(ascii_lowered(".sco"@) =~= ".sco"@);
    assert(ascii_lowered(".scb"@) =~= ".scb"@);
    assert(is_ascii_chars(".dds"@) && is_ascii_chars(".tex"@) && is_ascii_chars(".sco"@) && is_ascii_chars(".scb"@));
}

/// The twin of a path has the twin extension in place of its own, in whatever case that
/// is written.
pub proof fn law_twin_changes_the_extension(path: Seq<char>, a: Seq<char>, b: Seq<char>)
    requires
        twin_extensions(a, b),
        path.len() >= 4,
        ends(lowered(path), a),
    ensures
        extension_twin(path) == Some(path.take(path.len() - 4) + b),
{
    lemma_twin_extensions();
    assert(path.subrange(0, path.len() - 4) =~= path.take(path.len() - 4));
}

/// The reference has one of the extensions that are looked after, and neither the mod nor
/// the game has the file.
pub open spec fn dead_reference<W: WadProvider, G: GameProvider>(scope: LadderScope<W, G>, value: Seq<char>) -> bool {
    &&& exists|i: int|
        0 <= i < scope.extensions.len() && ends(lowered(value), "."@ + lowered((#[trigger] scope.extensions[i])@))
    &&& !scope.wad.holds_path(value)
    &&& !scope.game.ships_path(value)
}

/// A dead reference whose twin the mod or the game has becomes that twin.
pub proof fn law_live_twin_is_taken<W: WadProvider, G: GameProvider>(
    scope: LadderScope<W, G>,
    value: Seq<char>,
    a: Seq<char>,
    b: Seq<char>,
)
    requires
        dead_reference(scope, value),
        twin_extensions(a, b),
        value.len() >= 4,
        ends(lowered(value), a),
        scope.wad.holds_path(value.take(value.len() - 4) + b) || scope.game.ships_path(value.take(value.len() - 4) + b),
    ensures
        live_form(scope, value) == Some(value.take(value.len() - 4) + b),
{
    law_twin_changes_the_extension(value, a, b);
}

/// A part of a file name: not empty, without a dot or a slash.
pub open spec fn name_part(s: Seq<char>) -> bool {
    s.len() > 0 && !s.contains('.') && !s.contains('/')
}

/// The path without the inner tag of its file name keeps the folder, the stem and the
/// extension.
pub proof fn law_inner_tag_is_cut_out(dir: Seq<char>, stem: Seq<char>, tag: Seq<char>, ext: Seq<char>)
    requires
        dir.len() == 0 || dir.last() == '/',
        name_part(stem),
        name_part(tag),
        name_part(ext),
    ensures
        without_inner_tag(dir + stem + "."@ + tag + "."@ + ext) == Some(dir + stem + "."@ + ext),
{
    reveal_strlit(".");
    assert("."@ =~= seq!['.']);
    let parts = seq![stem, tag, ext];
    let file = stem + "."@ + tag + "."@ + ext;
    let path = dir + stem + "."@ + tag + "."@ + ext;
    assert(path =~= dir + file);
    assert(!file.contains('/')) by {
        if file.contains('/') {
            let i = choose|i: int| 0 <= i < file.len() && file[i] == '/';
            let n = stem.len() as int;
            let m = tag.len() as int;
            if i < n {
                assert(stem[i] == '/');
            } else if i == n {
            } else if i < n + 1 + m {
                assert(tag[i - n - 1] == '/');
            } else if i == n + 1 + m {
            } else {
                assert(ext[i - n - m - 2] == '/');
            }
        }
    }
    assert(joined(parts, "."@) =~= file) by {
        reveal_with_fuel(joined, 4);
        assert(parts.drop_last() =~= seq![stem, tag]);
        assert(parts.drop_last().drop_last() =~= seq![stem]);
    }
    lemma_pieces_joined(parts, "."@, '.');
    if dir.len() == 0 {
        assert(path =~= file);
        assert(last_position(path, '/') is None) by {
            if exists|i: int| last_at(path, '/', i) {
                let i = choose|i: int| last_at(path, '/', i);
                assert(file[i] == '/');
            }
        }
        assert(directory_part(path) =~= dir);
    } else {
        let k = dir.len() - 1;
        assert(last_at(path, '/', k)) by {
            assert forall|j: int| k < j < path.len() implies path[j] != '/' by {
                assert(path[j] == file[j - dir.len()]);
            }
        }
        lemma_last_position(path, '/', k);
        assert(path.subrange(0, k + 1) =~= dir);
        assert(path.skip(k + 1) =~= file);
    }
    assert(file_part(path) == file);
    assert(directory_part(path) =~= dir);
}

/// No twin of the path is there.
pub open spec fn no_live_twin<W: WadProvider, G: GameProvider>(scope: LadderScope<W, G>, value: Seq<char>) -> bool {
    forall|a: Seq<char>, b: Seq<char>| #[trigger]
        twin_extensions(a, b) && value.len() >= 4 && ends(lowered(value), a) ==> {
            &&& !scope.wad.holds_path(value.take(value.len() - 4) + b)
            &&& !scope.game.ships_path(value.take(value.len() - 4) + b)
        }
}

proof fn lemma_twin_shape(value: Seq<char>)
    ensures
        extension_twin(value) is Some ==> value.len() >= 4 && exists|a: Seq<char>, b: Seq<char>| #[trigger]
            twin_extensions(a, b) && ends(lowered(value), a) && extension_twin(value) == Some(value.take(value.len() - 4) + b),
{
    lemma_twin_extensions();
    if extension_twin(value) is Some {
        let lower = lowered(value);
        let (a, b) = if ends(lower, ".dds"@) {
            (".dds"@, ".tex"@)
        } else if ends(lower, ".tex"@) {
            (".tex"@, ".dds"@)
        } else if ends(lower, ".sco"@) {
            (".sco"@, ".scb"@)
        } else {
            (".scb"@, ".sco"@)
        };
        assert(twin_extensions(a, b));
        law_twin_changes_the_extension(value, a, b);
    }
}

/// A dead reference without a live twin becomes the path without the inner tag of its file
/// name where the game has that, and the twin of that path where the game has only the
/// twin.
pub proof fn law_untagged_name_is_taken<W: WadProvider, G: GameProvider>(
    scope: LadderScope<W, G>,
    dir: Seq<char>,
    stem: Seq<char>,
    tag: Seq<char>,
    ext: Seq<char>,
)
    requires
        dir.len() == 0 || dir.last() == '/',
        name_part(stem),
        name_part(tag),
        name_part(ext),
        dead_reference(scope, dir + stem + "."@ + tag + "."@ + ext),
        no_live_twin(scope, dir + stem + "."@ + tag + "."@ + ext),
    ensures
        ({
            let value = dir + stem + "."@ + tag + "."@ + ext;
            let plain = dir + stem + "."@ + ext;
            &&& scope.game.ships_path(plain) ==> live_form(scope, value) == Some(plain)
            &&& !scope.game.ships_path(plain) ==> forall|a: Seq<char>, b: Seq<char>| #[trigger]
                twin_extensions(a, b) && plain.len() >= 4 && ends(lowered(plain), a) && scope.game.ships_path(
                    plain.take(plain.len() - 4) + b,
                ) ==> live_form(scope, value) == Some(plain.take(plain.len() - 4) + b)
        }),
{
    let value = dir + stem + "."@ + tag + "."@ + ext;
    let plain = dir + stem + "."@ + ext;
    law_inner_tag_is_cut_out(dir, stem, tag, ext);
    lemma_twin_shape(value);
    assert forall|a: Seq<char>, b: Seq<char>| !scope.game.ships_path(plain) && #[trigger] twin_extensions(a, b) && plain.len() >= 4
        && ends(lowered(plain), a) && scope.game.ships_path(plain.take(plain.len() - 4) + b) implies live_form(scope, value) == Some(
        plain.take(plain.len() - 4) + b,
    ) by {
        law_twin_changes_the_extension(plain, a, b);
    }
}

/// Resolving the references of a tree keeps the number and order of its strings. A string
/// that the mod or the game has, or that is not looked after, stays; a dead one whose twin
/// is there becomes the twin; and whatever a string becomes is there.
pub proof fn law_resolved_tree<W: WadProvider, G: GameProvider>(scope: LadderScope<W, G>, os: Seq<Object>, i: int)
    requires
        0 <= i < strings_in_objects(os).len(),
    ensures
        ({
            let before = strings_in_objects(os);
            let after = strings_in_objects(rewritten_objects_at(os, |s: Seq<char>, field: u32| live_form(scope, s)));
            &&& after.len() == before.len()
            &&& !dead_reference(scope, before[i]) ==> after[i] == before[i]
            &&& after[i] != before[i] ==> scope.wad.holds_path(after[i]) || scope.game.ships_path(after[i])
            &&& forall|a: Seq<char>, b: Seq<char>| #[trigger]
                twin_extensions(a, b) && dead_reference(scope, before[i]) && before[i].len() >= 4 && ends(lowered(before[i]), a) && (
                scope.wad.holds_path(before[i].take(before[i].len() - 4) + b) || scope.game.ships_path(
                    before[i].take(before[i].len() - 4) + b,
                )) ==> after[i] == before[i].take(before[i].len() - 4) + b
        }),
{
    let f = |s: Seq<char>, field: u32| live_form(scope, s);
    let g = |s: Seq<char>| live_form(scope, s);
    let before = strings_in_objects(os);
    lemma_fieldless_objects(os, f, g);
    law_rewriting_maps_strings(os, g);
    assert(g(before[i]) == live_form(scope, before[i]));
    assert forall|a: Seq<char>, b: Seq<char>| #[trigger] twin_extensions(a, b) && dead_reference(scope, before[i])
        && before[i].len() >= 4 && ends(lowered(before[i]), a) && (scope.wad.holds_path(before[i].take(before[i].len() - 4) + b)
        || scope.game.ships_path(before[i].take(before[i].len() - 4) + b)) implies live_form(scope, before[i]) == Some(
        before[i].take(before[i].len() - 4) + b,
    ) by {
        law_live_twin_is_taken(scope, before[i], a, b);
    }
}

} // verus!
