//! Repairs of a BIN tree.

pub mod merge_linked;
pub mod pull_entries;
pub mod regex_ops;
pub mod rename_hash;
pub mod replace_ext;
pub mod resolve_refs;
pub mod retype_file;
pub mod split_entries;
pub mod vfx_shape;

use vstd::prelude::*;
use crate::bin::{bin, object_keys, objects, trailers, Field, PropertyValue, Val};
use crate::config::TransformAction;
use crate::context::{same_but_tree, same_surroundings, FixContext};
use crate::diagnostic::opt_text;
use crate::detect::dead_links::{dead_entry_links, game_visits};
use crate::detect::rules::target_type;
use crate::hashing::path_hash;
use crate::strings::token_hash;
use crate::text::{ends, lowered, texts};
use crate::traits::{GameProvider, HashProvider, WadProvider};
use crate::transform::merge_linked::{
    law_first_definition_wins, law_linked_files_are_merged, law_merged_files_leave, merge_result, shelf, shelved_at, visits, with_new,
};
use crate::transform::pull_entries::{first_holder, law_dead_links_are_pulled, pull_result, pull_roots};
use crate::transform::regex_ops::{all_pattern_renamed, all_renames_done, law_every_match_is_replaced, regex_rewrite, replace_usable};
use crate::transform::rename_hash::{all_renamed, remembered, rename_of, renamed_next, renamed_objects, renames_next, Rename};
use crate::transform::replace_ext::{law_every_dead_extension_is_replaced, new_extension, usable_filter, ExtensionScope};
use crate::transform::resolve_refs::{dead_reference, law_resolved_tree, live_form, twin_extensions, LadderScope};
use crate::transform::retype_file::{
    law_entry_paths_are_migrated, law_migrated_paths_are_remembered, retype_texts_objects, retyped_objects, target_keys, with_paths,
};
use crate::transform::split_entries::{
    bin_of, filled, law_entries_are_split_by_class, law_source_links_the_new_file, links_after, sorted_out,
};
use crate::transform::vfx_shape::{law_every_emitter_is_migrated, migrated, migration_of, objects_migrated, objects_migrating, vfx_hashes};
use crate::patterns::{regex_matches, regex_replaced_all, regex_valid};
use crate::walk::{capped, hits_objects_at, rewritten_objects_at, strings_in_objects};

verus! {

/// What a repair leaves of a session, and the number of changes that it reports.
pub open spec fn repaired<H: HashProvider, W: WadProvider, G: GameProvider>(
    action: TransformAction,
    entry_type: Option<Seq<char>>,
    before: FixContext<H, W, G>,
    after: FixContext<H, W, G>,
    n: u32,
) -> bool {
    let os = objects(before.tree.objects);
    let out = objects(after.tree.objects);
    let kept_files = after.tree.linked == before.tree.linked && after.tree.trailer_files == before.tree.trailer_files
        && after.tree.trailing == before.tree.trailing
        && same_but_tree(after, before);
    match action {
        TransformAction::ReportOnly => out == os && n == 0 && kept_files,
        TransformAction::RenameHash { from, to, only_asset_paths } => {
            &&& same_surroundings(after, before)
            &&& after.tree.linked == before.tree.linked
            &&& after.tree.trailer_files == before.tree.trailer_files
            &&& after.tree.trailing == before.tree.trailing
            &&& after.files_to_remove == before.files_to_remove
            &&& after.additional_bins == before.additional_bins
            &&& match rename_of(*before.hashes, from@, to@, only_asset_paths) {
                Some(r) => {
                    &&& out == renamed_next(os, before.renames@, r)
                    &&& n == capped(renames_next(os, before.renames@, r))
                    &&& after.renames@ == remembered(before.renames@, r)
                },
                None => out == os && after.renames == before.renames && n == 0,
            }
        },
        TransformAction::ReplaceStringExtension { from, to, path_prefixes, field_filter } => {
            let scope = ExtensionScope {
                from: from@,
                to: to@,
                wad: *before.wad,
                hashes: *before.hashes,
                prefixes: path_prefixes@,
                filter: usable_filter(field_filter),
            };
            let f = |s: Seq<char>, field: u32| new_extension(scope, s, field);
            kept_files && out == rewritten_objects_at(os, f) && n == capped(hits_objects_at(os, f))
        },
        TransformAction::RegexReplace { pattern, replacement, field_filter } => {
            let f = |s: Seq<char>, field: u32| regex_rewrite(
                os,
                *before.hashes,
                pattern@,
                replacement@,
                opt_text(field_filter),
                s,
                field,
            );
            kept_files && if replace_usable(pattern@, field_filter) {
                out == rewritten_objects_at(os, f) && n == capped(hits_objects_at(os, f))
            } else {
                out == os && n == 0
            }
        },
        TransformAction::RegexRenameField { pattern, replacement } => kept_files && if regex_valid(pattern@) {
            out == all_pattern_renamed(os, *before.hashes, pattern@, replacement@) && n == capped(
                all_renames_done(os, *before.hashes, pattern@, replacement@),
            )
        } else {
            out == os && n == 0
        },
        TransformAction::MergeLinkedBins => {
            let w = merge_result(os, texts(before.tree.linked@), shelf(before.linked_trees@));
            &&& same_surroundings(after, before)
            &&& after.additional_bins == before.additional_bins
            &&& after.renames == before.renames
            &&& after.tree.trailer_files == before.tree.trailer_files
            &&& after.tree.trailing == before.tree.trailing
            &&& out == w.0
            &&& texts(after.tree.linked@) == w.1
            &&& texts(after.files_to_remove@) == with_new(texts(before.files_to_remove@), w.2)
            &&& n == capped((w.0.len() - os.len()) as nat)
        },
        TransformAction::SplitEntriesByType { entry_types, output_path, link_in_source } => {
            let moved = sorted_out(os, *before.hashes, entry_types@, true);
            let path = filled(output_path@, before.file_path@);
            &&& same_surroundings(after, before)
            &&& after.files_to_remove == before.files_to_remove
            &&& after.renames == before.renames
            &&& after.tree.trailer_files == before.tree.trailer_files
            &&& after.tree.trailing == before.tree.trailing
            &&& n == capped(moved.len())
            &&& if moved.len() == 0 {
                out == os && after.tree.linked == before.tree.linked && after.additional_bins == before.additional_bins
            } else {
                &&& out == sorted_out(os, *before.hashes, entry_types@, false)
                &&& texts(after.tree.linked@) == links_after(texts(before.tree.linked@), path, link_in_source)
                &&& after.additional_bins@.len() == before.additional_bins@.len() + 1
                &&& after.additional_bins@.drop_last() == before.additional_bins@
                &&& after.additional_bins@.last().0@ == path
                &&& bin(after.additional_bins@.last().1) == bin_of(moved)
            }
        },
        TransformAction::VfxShapeFix => kept_files && match entry_type {
            Some(t) => match migration_of(*before.hashes, t) {
                Some((system, c, shape)) => out == objects_migrated(os, system, c, vfx_hashes(*before.hashes), shape) && n
                    == capped(objects_migrating(os, system, c, vfx_hashes(*before.hashes), shape)),
                None => out == os && n == 0,
            },
            None => out == os && n == 0,
        },
        TransformAction::PullEntriesFromGame { main_entry_type, targets, nuke_fallback_field } => kept_files
            && match before.game {
            Some(game) => {
                let w = pull_result(before, *game, main_entry_type@, targets@, opt_text(nuke_fallback_field));
                out == w.0 && n == capped(w.1)
            },
            None => out == os && n == 0,
        },
        TransformAction::ResolveDeadRefs { extensions } => kept_files && match before.game {
            Some(game) => {
                let scope = LadderScope { extensions: extensions@, wad: *before.wad, game: *game };
                let f = |s: Seq<char>, field: u32| live_form(scope, s);
                out == rewritten_objects_at(os, f) && n == capped(hits_objects_at(os, f))
            },
            None => out == os && n == 0,
        },
        TransformAction::RetypeStringToFile { targets } => {
            let keys = target_keys(targets@);
            &&& same_but_tree(after, before)
            &&& after.tree.linked == before.tree.linked
            &&& after.tree.trailing == before.tree.trailing
            &&& out == retyped_objects(os, keys)
            &&& trailers(after.tree.trailer_files@) == with_paths(
                trailers(before.tree.trailer_files@),
                retype_texts_objects(os, keys),
            )
            &&& n == capped(retype_texts_objects(os, keys).len())
        },
    }
}

/// Carry out a repair. Returns the number of changes.
///
/// `entry_type` is the type that the rule's detection is about, for the repairs that
/// work on the entries of one type.
pub fn apply_transform<H: HashProvider, W: WadProvider, G: GameProvider>(
    action: &TransformAction,
    ctx: &mut FixContext<H, W, G>,
    entry_type: Option<&String>,
) -> (n: u32)
    ensures
        repaired(
            *action,
            match entry_type {
                Some(t) => Some(t@),
                None => None,
            },
            *old(ctx),
            *final(ctx),
            n,
        ),
{
    match action {
        TransformAction::ReportOnly => 0,
        TransformAction::RenameHash { from, to, only_asset_paths } => rename_hash::apply(
            ctx,
            from.as_str(),
            to.as_str(),
            *only_asset_paths,
        ),
        TransformAction::ReplaceStringExtension { from, to, path_prefixes, field_filter } => replace_ext::apply(
            ctx,
            from.as_str(),
            to.as_str(),
            path_prefixes,
            field_filter,
        ),
        TransformAction::RegexReplace { pattern, replacement, field_filter } => regex_ops::apply_replace(
            ctx,
            pattern.as_str(),
            replacement.as_str(),
            field_filter,
        ),
        TransformAction::RegexRenameField { pattern, replacement } => regex_ops::apply_rename(
            ctx,
            pattern.as_str(),
            replacement.as_str(),
        ),
        TransformAction::MergeLinkedBins => merge_linked::apply(ctx),
        TransformAction::SplitEntriesByType { entry_types, output_path, link_in_source } => split_entries::apply(
            ctx,
            entry_types,
            output_path.as_str(),
            *link_in_source,
        ),
        TransformAction::VfxShapeFix => match entry_type {
            Some(t) => vfx_shape::apply(ctx, t.as_str()),
            None => 0,
        },
        TransformAction::PullEntriesFromGame { main_entry_type, targets, nuke_fallback_field } => pull_entries::apply(
            ctx,
            main_entry_type.as_str(),
            targets,
            nuke_fallback_field,
        ),
        TransformAction::ResolveDeadRefs { extensions } => resolve_refs::apply(ctx, extensions),
        TransformAction::RetypeStringToFile { targets } => retype_file::apply(ctx, targets),
    }
}

/// A repair by a pattern, without a filter, turns every string that the pattern matches into
/// what the replacement makes of it, and leaves the others.
pub proof fn law_pattern_repairs_every_string<H: HashProvider, W: WadProvider, G: GameProvider>(
    action: TransformAction,
    entry_type: Option<Seq<char>>,
    before: FixContext<H, W, G>,
    after: FixContext<H, W, G>,
    n: u32,
    i: int,
)
    requires
        repaired(action, entry_type, before, after, n),
        action is RegexReplace,
        action->RegexReplace_field_filter is None,
        regex_valid(action->RegexReplace_pattern@),
        0 <= i < strings_in_objects(objects(before.tree.objects)).len(),
    ensures
        ({
            let was = strings_in_objects(objects(before.tree.objects));
            let is = strings_in_objects(objects(after.tree.objects));
            &&& is.len() == was.len()
            &&& is[i] == if regex_matches(action->RegexReplace_pattern@, was[i]) {
                regex_replaced_all(action->RegexReplace_pattern@, was[i], action->RegexReplace_replacement@)
            } else {
                was[i]
            }
        }),
{
    law_every_match_is_replaced(
        objects(before.tree.objects),
        *before.hashes,
        action->RegexReplace_pattern@,
        action->RegexReplace_replacement@,
        i,
    );
}

/// A repair of extensions, without a filter and prefixes, gives every string with the old
/// ending that names no file of the mod the new one, and leaves the others.
pub proof fn law_extension_repairs_every_string<H: HashProvider, W: WadProvider, G: GameProvider>(
    action: TransformAction,
    entry_type: Option<Seq<char>>,
    before: FixContext<H, W, G>,
    after: FixContext<H, W, G>,
    n: u32,
    i: int,
)
    requires
        repaired(action, entry_type, before, after, n),
        action is ReplaceStringExtension,
        action->ReplaceStringExtension_field_filter is None,
        action->ReplaceStringExtension_path_prefixes@.len() == 0,
        lowered(action->ReplaceStringExtension_from@) == action->ReplaceStringExtension_from@,
        0 <= i < strings_in_objects(objects(before.tree.objects)).len(),
        action->ReplaceStringExtension_from@.len() <= strings_in_objects(objects(before.tree.objects))[i].len(),
    ensures
        ({
            let was = strings_in_objects(objects(before.tree.objects));
            let is = strings_in_objects(objects(after.tree.objects));
            let from = action->ReplaceStringExtension_from@;
            &&& is.len() == was.len()
            &&& is[i] == if ends(lowered(was[i]), from) && !before.wad.holds_path(was[i]) {
                was[i].take(was[i].len() - from.len()) + action->ReplaceStringExtension_to@
            } else {
                was[i]
            }
        }),
{
    let scope = ExtensionScope {
        from: action->ReplaceStringExtension_from@,
        to: action->ReplaceStringExtension_to@,
        wad: *before.wad,
        hashes: *before.hashes,
        prefixes: action->ReplaceStringExtension_path_prefixes@,
        filter: usable_filter(action->ReplaceStringExtension_field_filter),
    };
    law_every_dead_extension_is_replaced(scope, objects(before.tree.objects), i);
}

/// The repair of dead references gives one whose twin is in the mod or the game the twin's
/// extension, and leaves every reference that is alive.
pub proof fn law_reference_repairs_every_string<H: HashProvider, W: WadProvider, G: GameProvider>(
    action: TransformAction,
    entry_type: Option<Seq<char>>,
    before: FixContext<H, W, G>,
    after: FixContext<H, W, G>,
    n: u32,
    i: int,
    a: Seq<char>,
    b: Seq<char>,
)
    requires
        repaired(action, entry_type, before, after, n),
        action is ResolveDeadRefs,
        before.game is Some,
        twin_extensions(a, b),
        0 <= i < strings_in_objects(objects(before.tree.objects)).len(),
    ensures
        ({
            let was = strings_in_objects(objects(before.tree.objects));
            let is = strings_in_objects(objects(after.tree.objects));
            let stem = was[i].take(was[i].len() - 4);
            &&& is.len() == was.len()
            &&& before.wad.holds_path(was[i]) || before.game->0.ships_path(was[i]) ==> is[i] == was[i]
            &&& !before.wad.holds_path(was[i]) && !before.game->0.ships_path(was[i]) && was[i].len() >= 4 && ends(lowered(was[i]), a)
                && (exists|e: int|
                0 <= e < action->ResolveDeadRefs_extensions@.len() && ends(
                    lowered(was[i]),
                    "."@ + lowered((#[trigger] action->ResolveDeadRefs_extensions@[e])@),
                )) && (before.wad.holds_path(stem + b) || before.game->0.ships_path(stem + b)) ==> is[i] == stem + b
        }),
{
    let scope = LadderScope { extensions: action->ResolveDeadRefs_extensions@, wad: *before.wad, game: *before.game->0 };
    let was = strings_in_objects(objects(before.tree.objects));
    let f = |s: Seq<char>, field: u32| live_form(scope, s);
    assert(objects(after.tree.objects) == rewritten_objects_at(objects(before.tree.objects), f));
    law_resolved_tree(scope, objects(before.tree.objects), i);
    assert(dead_reference(scope, was[i]) ==> !before.wad.holds_path(was[i]) && !before.game->0.ships_path(was[i]));
    if !before.wad.holds_path(was[i]) && !before.game->0.ships_path(was[i]) && (exists|e: int|
        0 <= e < action->ResolveDeadRefs_extensions@.len() && ends(
            lowered(was[i]),
            "."@ + lowered((#[trigger] action->ResolveDeadRefs_extensions@[e])@),
        )) {
        let e = choose|e: int|
            0 <= e < action->ResolveDeadRefs_extensions@.len() && ends(
                lowered(was[i]),
                "."@ + lowered((#[trigger] action->ResolveDeadRefs_extensions@[e])@),
            );
        assert(ends(lowered(was[i]), "."@ + lowered(scope.extensions[e]@)));
        assert(dead_reference(scope, was[i]));
    }
}

/// The migration to hashes turns a path in a moved field of an entry into the hash of its
/// file, and the file names a path for that hash.
pub proof fn law_migration_repairs_every_entry<H: HashProvider, W: WadProvider, G: GameProvider>(
    action: TransformAction,
    entry_type: Option<Seq<char>>,
    before: FixContext<H, W, G>,
    after: FixContext<H, W, G>,
    n: u32,
    t: int,
    j: int,
    i: int,
    s: Seq<char>,
)
    requires
        repaired(action, entry_type, before, after, n),
        action is RetypeStringToFile,
        0 <= t < action->RetypeStringToFile_targets@.len(),
        0 <= j < objects(before.tree.objects).len(),
        0 <= i < objects(before.tree.objects)[j].fields.len(),
        objects(before.tree.objects)[j].fields[i].value == Val::Text(s),
        token_hash(action->RetypeStringToFile_targets@[t].class@) == objects(before.tree.objects)[j].class,
        token_hash(action->RetypeStringToFile_targets@[t].field@) == objects(before.tree.objects)[j].fields[i].name,
    ensures
        objects(after.tree.objects).len() == objects(before.tree.objects).len(),
        objects(after.tree.objects)[j].fields[i].value == Val::Leaf(PropertyValue::WadHash(path_hash(s))),
        trailers(after.tree.trailer_files@).dom().contains(path_hash(s)),
        path_hash(trailers(after.tree.trailer_files@)[path_hash(s)]) == path_hash(s),
{
    let os = objects(before.tree.objects);
    let keys = target_keys(action->RetypeStringToFile_targets@);
    assert(keys[t] == (os[j].class, os[j].fields[i].name));
    law_entry_paths_are_migrated(os, keys, j, i, s);
    law_migrated_paths_are_remembered(trailers(before.tree.trailer_files@), retype_texts_objects(os, keys), s, path_hash(s));
}

/// The merge of linked files defines the entries of a file that is at hand and linked, drops
/// the link and marks the file for removal.
pub proof fn law_merge_takes_linked_files_in<H: HashProvider, W: WadProvider, G: GameProvider>(
    action: TransformAction,
    entry_type: Option<Seq<char>>,
    before: FixContext<H, W, G>,
    after: FixContext<H, W, G>,
    n: u32,
    l: int,
    i: int,
    k: int,
)
    requires
        repaired(action, entry_type, before, after, n),
        action is MergeLinkedBins,
        0 <= l < texts(before.tree.linked@).len(),
        shelved_at(shelf(before.linked_trees@), texts(before.tree.linked@)[l], i),
        0 <= k < shelf(before.linked_trees@)[i].1.objects.len(),
    ensures
        object_keys(objects(after.tree.objects)).contains(shelf(before.linked_trees@)[i].1.objects[k].key),
        !texts(after.tree.linked@).contains(texts(before.tree.linked@)[l]),
        texts(after.files_to_remove@).contains(texts(before.tree.linked@)[l]),
        objects(before.tree.objects).is_prefix_of(objects(after.tree.objects)),
{
    let os = objects(before.tree.objects);
    let links = texts(before.tree.linked@);
    let sh = shelf(before.linked_trees@);
    law_linked_files_are_merged(os, links, sh, l, i, k);
    law_merged_files_leave(texts(before.files_to_remove@), merge_result(os, links, sh).2, links[l]);
    law_first_definition_wins(os, sh, visits(sh, links, Seq::empty()));
}

/// A split moves an entry of a wanted class to the new file and keeps an entry of another
/// class, where there is anything to move.
pub proof fn law_split_moves_wanted_classes<H: HashProvider, W: WadProvider, G: GameProvider>(
    action: TransformAction,
    entry_type: Option<Seq<char>>,
    before: FixContext<H, W, G>,
    after: FixContext<H, W, G>,
    n: u32,
    t: int,
    o: int,
)
    requires
        repaired(action, entry_type, before, after, n),
        action is SplitEntriesByType,
        0 <= t < action->SplitEntriesByType_entry_types@.len(),
        0 <= o < objects(before.tree.objects).len(),
        before.hashes.hash_of_type(action->SplitEntriesByType_entry_types@[t]@) == Some(objects(before.tree.objects)[o].class),
    ensures
        after.additional_bins@.len() == before.additional_bins@.len() + 1,
        bin(after.additional_bins@.last().1).tree.objects.contains(objects(before.tree.objects)[o]),
        !objects(after.tree.objects).contains(objects(before.tree.objects)[o]),
        action->SplitEntriesByType_link_in_source ==> texts(after.tree.linked@).contains(after.additional_bins@.last().0@),
{
    let os = objects(before.tree.objects);
    let types = action->SplitEntriesByType_entry_types@;
    law_entries_are_split_by_class(os, *before.hashes, types, os[o]);
    law_source_links_the_new_file(
        texts(before.tree.linked@),
        filled(action->SplitEntriesByType_output_path@, before.file_path@),
        action->SplitEntriesByType_link_in_source,
    );
}

/// A rename that the dictionary knows both names of is made in the file, and then once more
/// what earlier renames of the session had to leave.
pub proof fn law_rename_is_made<H: HashProvider, W: WadProvider, G: GameProvider>(
    action: TransformAction,
    entry_type: Option<Seq<char>>,
    before: FixContext<H, W, G>,
    after: FixContext<H, W, G>,
    n: u32,
    r: Rename,
)
    requires
        repaired(action, entry_type, before, after, n),
        action is RenameHash,
        before.hashes.hash_of_field(action->RenameHash_from@) == Some(r.from),
        before.hashes.hash_of_field(action->RenameHash_to@) == Some(r.to),
        r.only_asset_paths == action->RenameHash_only_asset_paths,
        r.from != r.to,
    ensures
        before.renames@.len() == 0 ==> objects(after.tree.objects) == renamed_objects(objects(before.tree.objects), r),
        objects(after.tree.objects) == all_renamed(renamed_objects(objects(before.tree.objects), r), before.renames@),
        after.renames@.contains(r),
{
    if !before.renames@.contains(r) {
        assert(after.renames@[before.renames@.len() as int] == r);
    }
}

/// A dead link of the main entries whose entry the game defines, with the class of its
/// target, has that entry in the file afterwards, where no fallback is named.
pub proof fn law_pull_brings_entries_in<H: HashProvider, W: WadProvider, G: GameProvider>(
    action: TransformAction,
    entry_type: Option<Seq<char>>,
    before: FixContext<H, W, G>,
    after: FixContext<H, W, G>,
    n: u32,
    paths: Seq<Seq<char>>,
    d: int,
    p: int,
    i: int,
)
    requires
        repaired(action, entry_type, before, after, n),
        action is PullEntriesFromGame,
        action->PullEntriesFromGame_nuke_fallback_field is None,
        before.game is Some,
        paths == game_visits(*before.game->0, pull_roots(before.file_path@, texts(before.tree.linked@)), Seq::empty()),
        ({
            let dead = dead_entry_links(before, action->PullEntriesFromGame_main_entry_type@, action->PullEntriesFromGame_targets@);
            &&& 0 <= d < dead.len()
            &&& first_holder(*before.game->0, paths, dead[d].1, p, i)
            &&& target_type(action->PullEntriesFromGame_targets@[dead[d].0], *before.hashes) == Some(
                before.game->0.bin_at(paths[p])->0.objects[i].class,
            )
        }),
    ensures
        objects(after.tree.objects).contains(before.game->0.bin_at(paths[p])->0.objects[i]),
{
    let dead = dead_entry_links(before, action->PullEntriesFromGame_main_entry_type@, action->PullEntriesFromGame_targets@);
    law_dead_links_are_pulled(
        objects(before.tree.objects),
        *before.game->0,
        *before.hashes,
        paths,
        action->PullEntriesFromGame_targets@,
        dead,
        d,
        p,
        i,
    );
}

/// The repair of effect shapes migrates every emitter in the lists of an entry of the type,
/// and touches no entry of another.
pub proof fn law_shape_repairs_every_emitter<H: HashProvider, W: WadProvider, G: GameProvider>(
    action: TransformAction,
    entry_type: Option<Seq<char>>,
    before: FixContext<H, W, G>,
    after: FixContext<H, W, G>,
    n: u32,
    complex: u32,
    simple: u32,
    shape: u32,
    o: int,
    f: int,
    i: int,
    fs: Seq<Field>,
)
    requires
        repaired(action, entry_type, before, after, n),
        action is VfxShapeFix,
        entry_type is Some,
        before.hashes.hash_of_type("ComplexEmitterDefinitionData"@) == Some(complex),
        before.hashes.hash_of_type("SimpleEmitterDefinitionData"@) == Some(simple),
        before.hashes.hash_of_field("Shape"@) == Some(shape),
        0 <= o < objects(before.tree.objects).len(),
        before.hashes.hash_of_type(entry_type->0) is Some,
    ensures
        ({
            let was = objects(before.tree.objects)[o];
            let is = objects(after.tree.objects)[o];
            let of_type = before.hashes.hash_of_type(entry_type->0) == Some(was.class);
            &&& objects(after.tree.objects).len() == objects(before.tree.objects).len()
            &&& !of_type ==> is == was
            &&& of_type && 0 <= f < was.fields.len() && was.fields[f].value is Container && 0 <= i < was.fields[f].value->Container_0.len() && (
            was.fields[f].value->Container_0[i] == Val::Struct(complex, fs)) ==> is.fields[f].value->Container_0[i] == Val::Struct(
                complex,
                migrated(fs, vfx_hashes(*before.hashes), shape),
            )
            &&& of_type && 0 <= f < was.fields.len() && was.fields[f].value is Container && 0 <= i < was.fields[f].value->Container_0.len() && (
            was.fields[f].value->Container_0[i] == Val::Struct(simple, fs)) ==> is.fields[f].value->Container_0[i] == Val::Struct(
                simple,
                migrated(fs, vfx_hashes(*before.hashes), shape),
            )
        }),
{
    let (system, c, s) = migration_of(*before.hashes, entry_type->0)->0;
    law_every_emitter_is_migrated(objects(before.tree.objects), system, c, vfx_hashes(*before.hashes), s, o, f, i);
}

} // verus!
