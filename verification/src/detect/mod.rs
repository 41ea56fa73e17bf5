//! Issue detection: read-only examination of a BIN tree.

pub mod anm_scope;
pub mod dead_asset;
pub mod dead_links;
pub mod replaced_bin;
pub mod rules;
pub mod shader_link;
pub mod stale_character;

use vstd::prelude::*;
use crate::bin::{objects, Object, PropertyValue, Val};
use crate::config::{DetectionRule, ReplacedBinMode};
use crate::context::FixContext;
use crate::detect::dead_asset::{dead_in_file, law_unshipped_refs_are_dead};
use crate::detect::dead_links::{
    bin_defines, collect_dead_links, dead_entry_links, dead_view, hex_number, law_undefined_links_are_dead,
};
use crate::detect::replaced_bin::{law_one_sided_entries_hit, only_there, replaced_targets};
use crate::detect::rules::{links_invalid_shader, rule_fires};
use crate::detect::shader_link::{
    has_dead_shader, law_dead_shaders_are_the_unknown_ones, law_no_shader_link_is_overlooked, SHADER_PROP_HASH, STATIC_MATERIAL_DEF,
};
use crate::detect::stale_character::{character_root, stale_fields};
use crate::links::{law_no_link_is_overlooked, links_in_fields, Tables};
use crate::strings::token_hash;
use crate::text::{ends, lowered, swapped, texts};
use crate::traits::{GameProvider, HashProvider, WadProvider};
use crate::transform::retype_file::{hits_in_objects, law_detected_iff_migrated, law_entry_paths_are_migrated, target_keys};
use crate::walk::strings_in_objects;

verus! {

/// The rule finds its defect in the file of the session.
pub open spec fn fires<H: HashProvider, W: WadProvider, G: GameProvider>(rule: DetectionRule, ctx: FixContext<H, W, G>) -> bool {
    let os = objects(ctx.tree.objects);
    match rule {
        DetectionRule::DeadEntryLink { main_entry_type, targets } => ctx.game is Some && dead_entry_links(
            ctx,
            main_entry_type@,
            targets@,
        ).len() > 0,
        DetectionRule::ClassFieldIsString { targets } => hits_in_objects(os, target_keys(targets@)).len() > 0,
        DetectionRule::ReplacedBinEntryDiff { targets } => replaced_targets(ctx, targets@).len() > 0,
        DetectionRule::DeadShaderLink => has_dead_shader(os, ctx.game),
        DetectionRule::DeadAssetReference {
            extensions,
            path_prefixes,
            downgrade_markers,
            downgrade_reason,
            latent_reason,
            suppress_never_loaded,
        } => exists|s: Seq<char>| dead_in_file(ctx, s, extensions@, path_prefixes@, suppress_never_loaded),
        DetectionRule::StaleCharacterRecord { entry_type, fields, critical_field, critical_reason } => character_root(
            ctx.file_path@,
        ) && stale_fields(ctx, entry_type@, texts(fields@)).len() > 0,
        DetectionRule::InvalidShaderReference { shader_def_type, shader_link_field } => match ctx.valid_shaders {
            Some(valid) => links_invalid_shader(os, *ctx.hashes, shader_def_type@, valid@),
            None => false,
        },
        _ => rule_fires(rule, os, *ctx.hashes, *ctx.wad),
    }
}

/// Whether the issue of a rule is there, in the file of the session.
pub fn detect_in_context<H: HashProvider, W: WadProvider, G: GameProvider>(
    rule: &DetectionRule,
    ctx: &FixContext<H, W, G>,
) -> (r: bool)
    ensures
        r == fires(*rule, *ctx),
{
    match rule {
        DetectionRule::DeadEntryLink { main_entry_type, targets } => {
            if ctx.game.is_none() {
                return false;
            }
            let dead = collect_dead_links(ctx, main_entry_type.as_str(), targets);
            assert(dead_view(dead@).len() == dead@.len());
            dead.len() > 0
        },
        DetectionRule::ClassFieldIsString { targets } => crate::transform::retype_file::detect(&ctx.tree, targets),
        DetectionRule::ReplacedBinEntryDiff { targets } => replaced_bin::detect(ctx, targets),
        DetectionRule::DeadShaderLink => shader_link::detect(ctx),
        DetectionRule::DeadAssetReference {
            extensions,
            path_prefixes,
            downgrade_markers: _,
            downgrade_reason: _,
            latent_reason: _,
            suppress_never_loaded,
        } => dead_asset::detect(ctx, extensions, path_prefixes, *suppress_never_loaded),
        DetectionRule::StaleCharacterRecord { entry_type, fields, critical_field: _, critical_reason: _ } =>
            stale_character::detect(ctx, entry_type.as_str(), fields),
        DetectionRule::InvalidShaderReference { shader_def_type, shader_link_field: _ } => match ctx.valid_shaders {
            Some(valid) => rules::detect_invalid_shader(&ctx.tree, ctx.hashes, shader_def_type.as_str(), valid),
            None => false,
        },
        _ => rules::detect_issue(rule, &ctx.tree, ctx.hashes, ctx.wad),
    }
}

/// Where no game is installed, no rule that compares with the game fires, and where no list
/// of valid shaders is available, no shader is invalid: what cannot be known is never held
/// against a mod.
pub proof fn law_unknown_is_not_guilty<H: HashProvider, W: WadProvider, G: GameProvider>(
    rule: DetectionRule,
    ctx: FixContext<H, W, G>,
)
    ensures
        ctx.game is None && (rule is DeadEntryLink || rule is ReplacedBinEntryDiff || rule is DeadShaderLink
            || rule is DeadAssetReference || rule is StaleCharacterRecord) ==> !fires(rule, ctx),
        ctx.valid_shaders is None && rule is InvalidShaderReference ==> !fires(rule, ctx),
{
}

/// A string of the file that names an asset of a watched kind, which neither the mod nor the
/// game has under any of its names, fires the rule on dead references.
pub proof fn law_dead_references_fire<H: HashProvider, W: WadProvider, G: GameProvider>(
    rule: DetectionRule,
    ctx: FixContext<H, W, G>,
    s: Seq<char>,
    e: int,
)
    requires
        rule is DeadAssetReference,
        !rule->DeadAssetReference_suppress_never_loaded,
        ctx.game is Some,
        strings_in_objects(objects(ctx.tree.objects)).contains(s),
        0 <= e < rule->DeadAssetReference_extensions@.len(),
        ends(lowered(s), lowered(rule->DeadAssetReference_extensions@[e]@)),
        rule->DeadAssetReference_path_prefixes@.len() == 0,
        !ctx.wad.holds_path(s),
        !ctx.game->0.ships_path(s),
        forall|i: int|
            0 <= i <= s.len() ==> {
                &&& !ctx.wad.holds_path("ASSETS/"@ + #[trigger] swapped(s, '\\', '/').skip(i))
                &&& !ctx.game->0.ships_path("ASSETS/"@ + swapped(s, '\\', '/').skip(i))
            },
    ensures
        fires(rule, ctx),
{
    law_unshipped_refs_are_dead(ctx, s, rule->DeadAssetReference_extensions@, rule->DeadAssetReference_path_prefixes@, e);
}

/// A link of a main entry, in the field of a target, to an entry that neither the file, nor
/// the files it links, nor any BIN of the game defines, fires the rule on dead links.
pub proof fn law_dead_links_fire<H: HashProvider, W: WadProvider, G: GameProvider>(
    rule: DetectionRule,
    ctx: FixContext<H, W, G>,
    t: int,
    o: int,
    i: int,
    key: u32,
)
    requires
        rule is DeadEntryLink,
        ctx.game is Some,
        0 <= t < rule->DeadEntryLink_targets@.len(),
        0 <= o < objects(ctx.tree.objects).len(),
        ctx.hashes.hash_of_type(rule->DeadEntryLink_main_entry_type@) == Some(objects(ctx.tree.objects)[o].class),
        0 <= i < objects(ctx.tree.objects)[o].fields.len(),
        hex_number(rule->DeadEntryLink_targets@[t].link_field@) == Some(objects(ctx.tree.objects)[o].fields[i].name),
        objects(ctx.tree.objects)[o].fields[i].value == Val::Leaf(PropertyValue::Link(key)),
        key != 0,
        forall|j: int| 0 <= j < ctx.tree.objects.entries@.len() ==> (#[trigger] ctx.tree.objects.entries@[j]).0 != key,
        forall|b: int, j: int|
            0 <= b < ctx.linked_trees@.len() && 0 <= j < ctx.linked_trees@[b].1.objects.entries@.len() ==> (
            #[trigger] ctx.linked_trees@[b].1.objects.entries@[j]).0 != key,
        forall|p: Seq<char>| ctx.game is Some ==> !#[trigger] bin_defines(*ctx.game->0, p, key),
    ensures
        fires(rule, ctx),
{
    law_no_link_is_overlooked(Tables::Values, objects(ctx.tree.objects)[o].fields[i].value, 0, key);
    law_undefined_links_are_dead(ctx, rule->DeadEntryLink_main_entry_type@, rule->DeadEntryLink_targets@, t, o, i, key);
}

/// A text in a field that the game moved to hashes, right under an entry, fires the rule on
/// such fields.
pub proof fn law_texts_in_moved_fields_fire<H: HashProvider, W: WadProvider, G: GameProvider>(
    rule: DetectionRule,
    ctx: FixContext<H, W, G>,
    t: int,
    j: int,
    i: int,
    s: Seq<char>,
)
    requires
        rule is ClassFieldIsString,
        0 <= t < rule->ClassFieldIsString_targets@.len(),
        0 <= j < objects(ctx.tree.objects).len(),
        0 <= i < objects(ctx.tree.objects)[j].fields.len(),
        objects(ctx.tree.objects)[j].fields[i].value == Val::Text(s),
        token_hash(rule->ClassFieldIsString_targets@[t].class@) == objects(ctx.tree.objects)[j].class,
        token_hash(rule->ClassFieldIsString_targets@[t].field@) == objects(ctx.tree.objects)[j].fields[i].name,
    ensures
        fires(rule, ctx),
{
    let os = objects(ctx.tree.objects);
    let keys = target_keys(rule->ClassFieldIsString_targets@);
    assert(keys[t] == (os[j].class, os[j].fields[i].name));
    law_entry_paths_are_migrated(os, keys, j, i, s);
    law_detected_iff_migrated(os, keys);
}

/// An entry that only one of the mod's file and the game's has fires the rule on replaced
/// files, where it is one that counts for a target.
pub proof fn law_one_sided_entries_fire<H: HashProvider, W: WadProvider, G: GameProvider>(
    rule: DetectionRule,
    ctx: FixContext<H, W, G>,
    live: Seq<Object>,
    t: int,
    i: int,
)
    requires
        rule is ReplacedBinEntryDiff,
        ctx.game matches Some(g) && g.bin_at(ctx.file_path@) matches Some(b) && b.objects == live,
        0 <= t < rule->ReplacedBinEntryDiff_targets@.len(),
        match rule->ReplacedBinEntryDiff_targets@[t].mode {
            ReplacedBinMode::Added => only_there(objects(ctx.tree.objects), live, rule->ReplacedBinEntryDiff_targets@[t], i),
            ReplacedBinMode::Dropped => only_there(live, objects(ctx.tree.objects), rule->ReplacedBinEntryDiff_targets@[t], i),
        },
    ensures
        fires(rule, ctx),
{
    law_one_sided_entries_hit(ctx, rule->ReplacedBinEntryDiff_targets@, live, t, i);
}

/// A link of a shader definition to no valid shader fires the rule on shader references.
pub proof fn law_invalid_shaders_fire<H: HashProvider, W: WadProvider, G: GameProvider>(
    rule: DetectionRule,
    ctx: FixContext<H, W, G>,
    o: int,
    key: u32,
)
    requires
        rule is InvalidShaderReference,
        ctx.valid_shaders is Some,
        ctx.hashes.loaded(),
        0 <= o < objects(ctx.tree.objects).len(),
        ctx.hashes.hash_of_type(rule->InvalidShaderReference_shader_def_type@) == Some(objects(ctx.tree.objects)[o].class),
        links_in_fields(Tables::Skip, objects(ctx.tree.objects)[o].fields).contains(key),
        key != 0,
        !ctx.valid_shaders->0@.contains(key),
    ensures
        fires(rule, ctx),
{
    let links = links_in_fields(Tables::Skip, objects(ctx.tree.objects)[o].fields);
    let k = choose|k: int| 0 <= k < links.len() && links[k] == key;
    assert(links[k] == key);
}

/// A material that links to a shader which neither the game knows nor the file defines fires
/// the rule on shader links.
pub proof fn law_unknown_shaders_fire<H: HashProvider, W: WadProvider, G: GameProvider>(
    ctx: FixContext<H, W, G>,
    valid: Set<u32>,
    o: int,
    i: int,
    h: u32,
)
    requires
        ctx.game is Some,
        ctx.game->0.shader_set() == Some(valid),
        valid.len() > 0,
        0 <= o < objects(ctx.tree.objects).len(),
        objects(ctx.tree.objects)[o].class == STATIC_MATERIAL_DEF,
        0 <= i < objects(ctx.tree.objects)[o].fields.len(),
        objects(ctx.tree.objects)[o].fields[i].key == SHADER_PROP_HASH,
        objects(ctx.tree.objects)[o].fields[i].value == Val::Leaf(PropertyValue::Link(h)),
        h != 0,
        !valid.contains(h),
        forall|k: int| 0 <= k < objects(ctx.tree.objects).len() ==> (#[trigger] objects(ctx.tree.objects)[k]).path != h,
    ensures
        fires(DetectionRule::DeadShaderLink, ctx),
{
    let os = objects(ctx.tree.objects);
    law_no_shader_link_is_overlooked(os[o].fields[i].key, os[o].fields[i].value, 0, h);
    law_dead_shaders_are_the_unknown_ones(os, valid, o, i, h);
}

} // verus!
