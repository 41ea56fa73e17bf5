//! Replaces file extensions in string values (e.g. `.dds` to `.tex`), but never where
//! the mod ships the file under its present name.

use vstd::prelude::*;
use vstd::string::*;
use crate::bin::{objects, FieldHash, Object};
use crate::context::{same_but_tree, FixContext};
use crate::detect::rules::{has_any_prefix, starts_with_any};
use crate::patterns::{regex_is_match, regex_is_valid, regex_matches, regex_valid};
use crate::strings::{replace_extension, with_extension};
use crate::text::{begins, ends, ends_with, lowered, to_lower};
use crate::traits::{GameProvider, HashProvider, WadProvider};
use crate::walk::{
    capped, hits_objects_at, law_rewriting_maps_strings, law_walk_rewrites_at, lemma_fieldless_objects, only_rewrites,
    rewritten_objects_at, strings_in_objects, walk_tree, PropertyVisitor, VisitResult,
};

verus! {

/// What an extension replacement goes by.
pub struct ExtensionScope<H, W> {
    pub from: Seq<char>,
    pub to: Seq<char>,
    pub wad: W,
    pub hashes: H,
    pub prefixes: Seq<String>,
    /// The pattern that a field name must match.
    pub filter: Option<Seq<char>>,
}

/// A field passes the filter: there is none, or the dictionary names the field and the
/// name matches.
pub open spec fn field_passes<H: HashProvider>(hashes: H, filter: Option<Seq<char>>, field: u32) -> bool {
    match filter {
        None => true,
        Some(p) => match hashes.name_of_field(field) {
            Some(n) => regex_matches(p, n),
            None => false,
        },
    }
}

/// The new form of a string: its extension replaced, where it has that extension, its
/// field passes, the mod does not ship it, and it lies under one of the prefixes where
/// there are any.
pub open spec fn new_extension<H: HashProvider, W: WadProvider>(
    scope: ExtensionScope<H, W>,
    value: Seq<char>,
    field: u32,
) -> Option<Seq<char>> {
    if ends(lowered(value), scope.from) && field_passes(scope.hashes, scope.filter, field) && !scope.wad.holds_path(value)
        && (scope.prefixes.len() == 0 || has_any_prefix(lowered(value), scope.prefixes)) {
        with_extension(value, scope.from, scope.to)
    } else {
        None
    }
}

struct ExtensionReplacer<'a, H: HashProvider, W: WadProvider> {
    from: &'a str,
    to: &'a str,
    wad: &'a W,
    hashes: &'a H,
    path_prefixes: &'a Vec<String>,
    filter: Option<&'a str>,
}

impl<'a, H: HashProvider, W: WadProvider> ExtensionReplacer<'a, H, W> {
    spec fn pattern(&self) -> Option<Seq<char>> {
        match self.filter {
            Some(p) => if regex_valid(p@) { Some(p@) } else { None },
            None => None,
        }
    }

    fn passes(&self, field: FieldHash) -> (r: bool)
        ensures
            r == field_passes(*self.hashes, self.pattern(), field.0),
    {
        match self.filter {
            None => true,
            Some(p) => {
                if !regex_is_valid(p) {
                    return true;
                }
                match self.hashes.resolve_field(field) {
                    Some(name) => regex_is_match(p, name),
                    None => false,
                }
            },
        }
    }
}

impl<'a, H: HashProvider, W: WadProvider> PropertyVisitor for ExtensionReplacer<'a, H, W> {
    type State = ExtensionScope<H, W>;

    closed spec fn state(&self) -> ExtensionScope<H, W> {
        ExtensionScope {
            from: self.from@,
            to: self.to@,
            wad: *self.wad,
            hashes: *self.hashes,
            prefixes: self.path_prefixes@,
            filter: self.pattern(),
        }
    }

    closed spec fn on_string(st: ExtensionScope<H, W>, value: Seq<char>, field: u32) -> (ExtensionScope<H, W>, Option<Seq<char>>) {
        (st, new_extension(st, value, field))
    }

    closed spec fn on_field(st: ExtensionScope<H, W>, hash: u32) -> (ExtensionScope<H, W>, Option<u32>) {
        (st, None)
    }

    closed spec fn on_struct(st: ExtensionScope<H, W>, class: u32) -> (ExtensionScope<H, W>, bool) {
        (st, true)
    }

    fn visit_string(&mut self, value: &str, field_hash: FieldHash) -> (r: VisitResult) {
        let lower = to_lower(value);
        if !ends_with(lower.as_str(), self.from) {
            return VisitResult::Skip;
        }
        if !self.passes(field_hash) {
            return VisitResult::Skip;
        }
        if self.wad.has_path(value) {
            return VisitResult::Skip;
        }
        if self.path_prefixes.len() > 0 && !starts_with_any(lower.as_str(), self.path_prefixes) {
            return VisitResult::Skip;
        }
        match replace_extension(value, self.from, self.to) {
            Some(new) => VisitResult::Mutate(new),
            None => VisitResult::Skip,
        }
    }

    fn visit_field_hash(&mut self, hash: FieldHash) -> (r: Option<FieldHash>) {
        None
    }

    fn enter_struct(&mut self, class_hash: u32) -> (r: bool) {
        true
    }
}

/// The filter, where it is a valid pattern; an invalid one is passed over.
pub open spec fn usable_filter(filter: Option<String>) -> Option<Seq<char>> {
    match filter {
        Some(p) => if regex_valid(p@) { Some(p@) } else { None },
        None => None,
    }
}

/// Replace the extension `from` by `to` in every string that qualifies. Returns the
/// number of strings rewritten.
pub fn apply<H: HashProvider, W: WadProvider, G: GameProvider>(
    ctx: &mut FixContext<H, W, G>,
    from: &str,
    to: &str,
    path_prefixes: &Vec<String>,
    field_filter: &Option<String>,
) -> (n: u32)
    ensures
        ({
            let scope = ExtensionScope {
                from: from@,
                to: to@,
                wad: *old(ctx).wad,
                hashes: *old(ctx).hashes,
                prefixes: path_prefixes@,
                filter: usable_filter(*field_filter),
            };
            let f = |s: Seq<char>, field: u32| new_extension(scope, s, field);
            let os = objects(old(ctx).tree.objects);
            &&& objects(final(ctx).tree.objects) == rewritten_objects_at(os, f)
            &&& n == capped(hits_objects_at(os, f))
        }),
        final(ctx).tree.linked == old(ctx).tree.linked,
        final(ctx).tree.trailer_files == old(ctx).tree.trailer_files,
        final(ctx).tree.trailing == old(ctx).tree.trailing,
        same_but_tree(*final(ctx), *old(ctx)),
{
    let mut visitor = ExtensionReplacer {
        from,
        to,
        wad: ctx.wad,
        hashes: ctx.hashes,
        path_prefixes,
        filter: match field_filter {
            Some(p) => Some(p.as_str()),
            None => None,
        },
    };
    let ghost st = visitor.state();
    let ghost os = objects(ctx.tree.objects);
    let n = walk_tree(&mut ctx.tree, &mut visitor);
    proof {
        let f = |s: Seq<char>, field: u32| new_extension(st, s, field);
        assert(only_rewrites::<ExtensionReplacer<H, W>>(st, f));
        law_walk_rewrites_at::<ExtensionReplacer<H, W>>(st, os, f);
    }
    n
}

/// A string that the mod ships under its present name is never rewritten.
pub proof fn law_shipped_files_keep_their_extension<H: HashProvider, W: WadProvider>(
    scope: ExtensionScope<H, W>,
    value: Seq<char>,
    field: u32,
)
    requires
        scope.wad.holds_path(value),
    ensures
        new_extension(scope, value, field) is None,
{
}

/// A path with the old ending, in whatever case, gets the new one behind the same stem,
/// where the mod does not ship the file and nothing narrows the search.
pub proof fn law_dead_extensions_are_replaced<H: HashProvider, W: WadProvider>(
    scope: ExtensionScope<H, W>,
    stem: Seq<char>,
    tail: Seq<char>,
    field: u32,
)
    requires
        lowered(scope.from) == scope.from,
        tail.len() == scope.from.len(),
        ends(lowered(stem + tail), scope.from),
        !scope.wad.holds_path(stem + tail),
        scope.filter is None,
        scope.prefixes.len() == 0,
    ensures
        new_extension(scope, stem + tail, field) == Some(stem + scope.to),
{
    assert((stem + tail).subrange(0, (stem + tail).len() - tail.len()) =~= stem);
}

/// A filter leaves the values of fields out whose name it does not match or that have none,
/// prefixes leave out the paths that begin with none of them, and neither leaves out more.
pub proof fn law_filters_only_narrow<H: HashProvider, W: WadProvider>(scope: ExtensionScope<H, W>, value: Seq<char>, field: u32)
    ensures
        scope.filter matches Some(p) ==> (match scope.hashes.name_of_field(field) {
            Some(n) => !regex_matches(p, n) ==> new_extension(scope, value, field) is None,
            None => new_extension(scope, value, field) is None,
        }),
        scope.prefixes.len() > 0 && (forall|i: int|
            0 <= i < scope.prefixes.len() ==> !begins(lowered(value), lowered((#[trigger] scope.prefixes[i])@)))
            ==> new_extension(scope, value, field) is None,
        ({
            let named = scope.filter matches Some(p) ==> (scope.hashes.name_of_field(field) is Some && regex_matches(
                p,
                scope.hashes.name_of_field(field)->0,
            ));
            let placed = scope.prefixes.len() == 0 || exists|i: int|
                0 <= i < scope.prefixes.len() && begins(lowered(value), lowered((#[trigger] scope.prefixes[i])@));
            named && placed ==> new_extension(scope, value, field) == new_extension(
                ExtensionScope { prefixes: Seq::empty(), filter: None, ..scope },
                value,
                field,
            )
        }),
        !ends(lowered(value), scope.from) ==> new_extension(scope, value, field) is None,
{
}

/// Of the strings of a file, without a filter and prefixes, those that have the old ending
/// and name no file of the mod end the new way afterwards, and the others stay.
pub proof fn law_every_dead_extension_is_replaced<H: HashProvider, W: WadProvider>(
    scope: ExtensionScope<H, W>,
    os: Seq<Object>,
    i: int,
)
    requires
        lowered(scope.from) == scope.from,
        scope.filter is None,
        scope.prefixes.len() == 0,
        0 <= i < strings_in_objects(os).len(),
        scope.from.len() <= strings_in_objects(os)[i].len(),
    ensures
        ({
            let before = strings_in_objects(os);
            let after = strings_in_objects(rewritten_objects_at(os, |s: Seq<char>, field: u32| new_extension(scope, s, field)));
            &&& after.len() == before.len()
            &&& after[i] == if ends(lowered(before[i]), scope.from) && !scope.wad.holds_path(before[i]) {
                before[i].take(before[i].len() - scope.from.len()) + scope.to
            } else {
                before[i]
            }
        }),
{
    let f = |s: Seq<char>, field: u32| new_extension(scope, s, field);
    let g = |s: Seq<char>| new_extension(scope, s, 0);
    let before = strings_in_objects(os);
    assert forall|s: Seq<char>, k: u32| #[trigger] f(s, k) == g(s) by {}
    lemma_fieldless_objects(os, f, g);
    law_rewriting_maps_strings(os, g);
    assert(g(before[i]) == new_extension(scope, before[i], 0));
    let n = before[i].len() - scope.from.len();
    assert(before[i].take(n) =~= before[i].subrange(0, n));
}

} // verus!
