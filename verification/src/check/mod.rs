//! Detect-only mode: what is wrong with a mod, without changing anything.
//!
//! The same rules run as in the repair pipeline, and each rule that fires becomes one
//! or more findings. A rule is reported only under a reason; without one it is silent.

pub mod asset_ratio;
pub mod loose_textures;
pub mod required_texture;
pub mod signature_vfx;
pub mod vfx_ratio;

use vstd::prelude::*;
use vstd::string::*;
use crate::bin::{objects, Object};
use crate::config::{ClassFieldTarget, DetectionRule, FixConfig, FixRule, ReplacedBinTarget};
use crate::context::{CharacterRelations, FixContext};
use crate::detect::dead_asset::{dead_in_file, dead_refs, is_map_character, is_reached_in_use, map_character, reached_in_use};
use crate::detect::replaced_bin::{
    detect_hits as replaced_hits, differences, hit_is_right, hit_targets, hit_text, lemma_hit_keys, replaced_targets, vanilla_objects,
};
use crate::detect::shader_link::{can_validate, known_shaders};
use crate::detect::stale_character::{missing_fields, stale_fields};
use crate::detect::{detect_in_context, fires};
use crate::diagnostic::{
    finding, findings, opt_text, skips, undefined_ids, CheckReport, Diagnostic, Finding, ReasonCatalog, SkipReason,
};
use crate::seeds::{character_in, character_of};
use crate::sorting::{lemma_ascend_unique, texts_ascend};
use crate::text::{
    ascii_lowered, cat, decimal, decimal_text, join, joined, lemma_push_contains, lemma_take_next, lemma_texts_push, listed, lowered, same, texts,
    to_ascii_lower,
};
use crate::traits::{GameProvider, HashProvider, WadProvider};
use crate::transform::retype_file::{detect_hits, find_hit, first_hit, hit_view, hits_in_objects, is_first_hit, key_of, target_key, target_keys};

verus! {

/// The detection cannot work without a hash dictionary.
pub open spec fn hashes_needed(rule: DetectionRule) -> bool {
    rule is MissingOrWrongField || rule is FieldHashExists || rule is StringExtensionNotInWad || rule is EntryTypeExistsAny
        || rule is UnreferencedEntryOfType || rule is InvalidShaderReference || rule is VfxShapeNeedsFix
}

fn needs_hashes(rule: &DetectionRule) -> (r: bool)
    ensures
        r == hashes_needed(*rule),
{
    match rule {
        DetectionRule::MissingOrWrongField { .. } => true,
        DetectionRule::FieldHashExists { .. } => true,
        DetectionRule::StringExtensionNotInWad { .. } => true,
        DetectionRule::EntryTypeExistsAny { .. } => true,
        DetectionRule::UnreferencedEntryOfType { .. } => true,
        DetectionRule::InvalidShaderReference { .. } => true,
        DetectionRule::VfxShapeNeedsFix { .. } => true,
        _ => false,
    }
}

/// Why a rule cannot run in a session, if it cannot.
pub open spec fn skipped_for<H: HashProvider, W: WadProvider, G: GameProvider>(
    rule: DetectionRule,
    ctx: FixContext<H, W, G>,
) -> Option<SkipReason> {
    if rule is InvalidShaderReference && ctx.valid_shaders is None {
        Some(SkipReason::NoShaderList)
    } else if (rule is ReplacedBinEntryDiff || rule is DeadEntryLink) && ctx.game is None {
        Some(SkipReason::NoGameDir)
    } else if rule is DeadShaderLink && known_shaders(ctx.game) is None {
        Some(
            if ctx.game is None {
                SkipReason::NoGameDir
            } else {
                SkipReason::NoShaderList
            },
        )
    } else if !ctx.hashes.loaded() && hashes_needed(rule) {
        Some(SkipReason::NoHashDictionary)
    } else {
        None
    }
}

/// Why a rule cannot run in this session, if it cannot.
///
/// A rule whose prerequisites are missing detects nothing knowable, which is not a pass.
pub fn skip_reason<H: HashProvider, W: WadProvider, G: GameProvider>(
    rule: &FixRule,
    ctx: &FixContext<H, W, G>,
) -> (r: Option<SkipReason>)
    ensures
        r == skipped_for(rule.detect, *ctx),
{
    match &rule.detect {
        DetectionRule::InvalidShaderReference { .. } => {
            if ctx.valid_shaders.is_none() {
                return Some(SkipReason::NoShaderList);
            }
        },
        DetectionRule::ReplacedBinEntryDiff { .. } => {
            if ctx.game.is_none() {
                return Some(SkipReason::NoGameDir);
            }
        },
        DetectionRule::DeadEntryLink { .. } => {
            if ctx.game.is_none() {
                return Some(SkipReason::NoGameDir);
            }
        },
        DetectionRule::DeadShaderLink => {
            if !can_validate(ctx) {
                return Some(
                    if ctx.game.is_none() {
                        SkipReason::NoGameDir
                    } else {
                        SkipReason::NoShaderList
                    },
                );
            }
        },
        _ => {},
    }
    if !ctx.hashes.is_loaded() && needs_hashes(&rule.detect) {
        Some(SkipReason::NoHashDictionary)
    } else {
        None
    }
}

/// The character that the first of the links with one names.
pub open spec fn first_character(links: Seq<Seq<char>>) -> Option<Seq<char>>
    decreases links.len(),
{
    if links.len() == 0 {
        None
    } else {
        match first_character(links.drop_last()) {
            Some(c) => Some(c),
            None => character_in(links.last()),
        }
    }
}

/// The character that a BIN belongs to: by its links, or else by its path.
pub open spec fn character_of_bin(links: Seq<Seq<char>>, path: Seq<char>) -> Option<Seq<char>> {
    match first_character(links) {
        Some(c) => Some(c),
        None => character_in(path),
    }
}

/// Character a BIN belongs to, from its links first and its path second.
pub fn bin_character(linked: &Vec<String>, file_path: &str) -> (r: Option<String>)
    ensures
        r is Some <==> character_of_bin(texts(linked@), file_path@) is Some,
        r matches Some(n) ==> character_of_bin(texts(linked@), file_path@) == Some(n@),
{
    let ghost links = texts(linked@);
    let mut i: usize = 0;
    while i < linked.len()
        invariant
            links == texts(linked@),
            i <= linked@.len(),
            first_character(links.take(i as int)) is None,
        decreases linked@.len() - i,
    {
        proof {
            lemma_take_next(links, i as int);
        }
        if let Some(name) = character_of(linked[i].as_str()) {
            proof {
                lemma_first_character_stays(links, i + 1);
            }
            return Some(name);
        }
        i = i + 1;
    }
    assert(links.take(i as int) =~= links);
    character_of(file_path)
}

proof fn lemma_first_character_stays(links: Seq<Seq<char>>, n: int)
    requires
        0 <= n <= links.len(),
        first_character(links.take(n)) is Some,
    ensures
        first_character(links) == first_character(links.take(n)),
    decreases links.len(),
{
    if n < links.len() {
        assert(links.drop_last().take(n) =~= links.take(n));
        lemma_first_character_stays(links.drop_last(), n);
    } else {
        assert(links.take(n) =~= links);
    }
}

/// The BIN belongs to a character that is no playable champion. A BIN that names no
/// character does not.
pub open spec fn summoned(links: Seq<Seq<char>>, path: Seq<char>, champions: Seq<String>) -> bool {
    match character_of_bin(links, path) {
        Some(name) => !listed(champions, lowered(name)),
        None => false,
    }
}

/// Whether a BIN belongs to a summoned form rather than a playable champion.
pub fn is_summoned_form(linked: &Vec<String>, file_path: &str, champions: &CharacterRelations) -> (r: bool)
    ensures
        r == summoned(texts(linked@), file_path@, champions.champions@),
{
    match bin_character(linked, file_path) {
        Some(name) => !champions.is_champion(name.as_str()),
        None => false,
    }
}

/// The BIN of the session belongs to a summoned form.
pub open spec fn subcharacter<H: HashProvider, W: WadProvider, G: GameProvider>(ctx: FixContext<H, W, G>) -> bool {
    summoned(texts(ctx.tree.linked@), ctx.file_path@, ctx.champions.champions@)
}

/// Whether the BIN under inspection belongs to a summoned form.
pub fn is_subcharacter<H: HashProvider, W: WadProvider, G: GameProvider>(ctx: &FixContext<H, W, G>) -> (r: bool)
    ensures
        r == subcharacter(*ctx),
{
    is_summoned_form(&ctx.tree.linked, ctx.file_path.as_str(), ctx.champions)
}

/// The first of two optional texts that is there.
pub open spec fn or_text(a: Option<String>, b: Option<String>) -> Option<Seq<char>> {
    match a {
        Some(s) => Some(s@),
        None => opt_text(b),
    }
}

fn either<'a>(a: &'a Option<String>, b: &'a Option<String>) -> (r: Option<&'a String>)
    ensures
        r is Some <==> or_text(*a, *b) is Some,
        r matches Some(s) ==> or_text(*a, *b) == Some(s@),
{
    match a {
        Some(s) => Some(s),
        None => match b {
            Some(s) => Some(s),
            None => None,
        },
    }
}

/// What findings of one rule in one file have in common.
pub struct FindingScope {
    pub catalog: ReasonCatalog,
    pub fix_id: Seq<char>,
    pub file: Seq<char>,
    /// The rule's own reason.
    pub reason: Option<String>,
}

/// A finding in the file, with a detail.
pub open spec fn detailed(sc: FindingScope, reason: Seq<char>, detail: Seq<char>) -> Finding {
    Finding { entry: Some(sc.file), detail: Some(detail), ..finding(sc.catalog, reason, sc.fix_id) }
}

/// One finding per target of a migration that still holds text and has a reason: its
/// own, or else the rule's.
pub open spec fn migration_findings(
    sc: FindingScope,
    targets: Seq<ClassFieldTarget>,
    hits: Seq<((u32, u32), Seq<char>)>,
) -> Seq<Finding>
    decreases targets.len(),
{
    if targets.len() == 0 {
        Seq::empty()
    } else {
        let before = migration_findings(sc, targets.drop_last(), hits);
        let t = targets.last();
        match (first_hit(hits, key_of(t)), or_text(t.reason, sc.reason)) {
            (Some(sample), Some(reason)) => before.push(
                Finding { field: Some(t.class@ + "."@ + t.field@), ..detailed(sc, reason, sample) },
            ),
            _ => before,
        }
    }
}

/// One finding per target at which a replaced BIN differs and that has a reason.
pub open spec fn replaced_findings(
    sc: FindingScope,
    targets: Seq<ReplacedBinTarget>,
    hit: Seq<int>,
    ours: Seq<Object>,
    live: Seq<Object>,
) -> Seq<Finding>
    decreases hit.len(),
{
    if hit.len() == 0 {
        Seq::empty()
    } else {
        let before = replaced_findings(sc, targets, hit.drop_last(), ours, live);
        let t = targets[hit.last()];
        match or_text(t.reason, sc.reason) {
            Some(reason) => before.push(detailed(sc, reason, hit_text(t, differences(ours, live, t)))),
            None => before,
        }
    }
}

/// Those of the paths of which it holds, or not, that they belong to a map character.
pub open spec fn sorted_by_character(paths: Seq<Seq<char>>, markers: Seq<String>, yes: bool) -> Seq<Seq<char>>
    decreases paths.len(),
{
    if paths.len() == 0 {
        Seq::empty()
    } else {
        let before = sorted_by_character(paths.drop_last(), markers, yes);
        if map_character(paths.last(), markers) == yes {
            before.push(paths.last())
        } else {
            before
        }
    }
}

/// A list of paths in one line: the path where it is one, else the number and the first.
pub open spec fn summary(paths: Seq<Seq<char>>) -> Seq<char> {
    if paths.len() == 1 {
        paths[0]
    } else {
        decimal(paths.len()) + " missing, including "@ + paths[0]
    }
}

/// The finding about a group of paths, where there are any and there is a reason.
pub open spec fn group_finding(sc: FindingScope, paths: Seq<Seq<char>>, reason: Option<Seq<char>>) -> Seq<Finding> {
    match reason {
        Some(r) => if paths.len() > 0 { seq![detailed(sc, r, summary(paths))] } else { Seq::empty() },
        None => Seq::empty(),
    }
}

/// `s` lists the dead references of the file, in ascending order.
pub open spec fn lists_dead<H: HashProvider, W: WadProvider, G: GameProvider>(
    ctx: FixContext<H, W, G>,
    s: Seq<Seq<char>>,
    extensions: Seq<String>,
    prefixes: Seq<String>,
    suppress: bool,
) -> bool {
    texts_ascend(s) && forall|p: Seq<char>| #[trigger] s.contains(p) <==> dead_in_file(ctx, p, extensions, prefixes, suppress)
}

/// The dead references of the file, in ascending order.
pub open spec fn dead_list<H: HashProvider, W: WadProvider, G: GameProvider>(
    ctx: FixContext<H, W, G>,
    extensions: Seq<String>,
    prefixes: Seq<String>,
    suppress: bool,
) -> Seq<Seq<char>> {
    choose|s: Seq<Seq<char>>| lists_dead(ctx, s, extensions, prefixes, suppress)
}

/// The findings about dead references: one for those of playable characters, under the
/// rule's reason or, where the BIN is not reached, the latent one; one for those of map
/// characters, where they are told apart.
pub open spec fn dead_findings(
    sc: FindingScope,
    dead: Seq<Seq<char>>,
    markers: Seq<String>,
    downgrade_reason: Option<String>,
    latent_reason: Option<String>,
    reached: bool,
) -> Seq<Finding> {
    let apart = downgrade_reason is Some && markers.len() > 0;
    let primary = if apart { sorted_by_character(dead, markers, false) } else { dead };
    let downgraded = if apart { sorted_by_character(dead, markers, true) } else { Seq::empty() };
    let reason = if reached { opt_text(sc.reason) } else { or_text(latent_reason, sc.reason) };
    group_finding(sc, primary, reason) + group_finding(sc, downgraded, opt_text(downgrade_reason))
}

/// One of the names is `name`, in any case.
pub open spec fn names_any_case(names: Seq<Seq<char>>, name: Seq<char>) -> bool {
    exists|i: int| 0 <= i < names.len() && ascii_lowered(#[trigger] names[i]) == ascii_lowered(name)
}

/// The first of `names`, four at most.
pub open spec fn first_four(names: Seq<Seq<char>>) -> Seq<Seq<char>> {
    names.take(if names.len() < 4 { names.len() as int } else { 4 })
}

/// The finding about a stale record: the critical field decides it where it is missing,
/// and the number of missing fields is told otherwise.
pub open spec fn stale_findings(
    sc: FindingScope,
    missing: Seq<Seq<char>>,
    critical_field: Option<String>,
    critical_reason: Option<String>,
) -> Seq<Finding> {
    if missing.len() == 0 {
        Seq::empty()
    } else if critical_field is Some && names_any_case(missing, critical_field->0@) {
        match opt_text(critical_reason) {
            Some(r) => seq![detailed(sc, r, "missing "@ + critical_field->0@)],
            None => Seq::empty(),
        }
    } else {
        match opt_text(sc.reason) {
            Some(r) => seq![
                detailed(sc, r, decimal(missing.len()) + " missing: "@ + joined(first_four(missing), ", "@)),
            ],
            None => Seq::empty(),
        }
    }
}

/// The findings of a rule that has fired.
pub open spec fn rule_findings<H: HashProvider, W: WadProvider, G: GameProvider>(
    fix_id: Seq<char>,
    rule: FixRule,
    catalog: ReasonCatalog,
    ctx: FixContext<H, W, G>,
) -> Seq<Finding> {
    let sc = FindingScope { catalog, fix_id, file: ctx.file_path@, reason: rule.reason };
    let os = objects(ctx.tree.objects);
    if rule.main_character_only && subcharacter(ctx) {
        Seq::empty()
    } else if !ctx.scope.inspected(rule.loaded_bins_only) {
        Seq::empty()
    } else {
        match rule.detect {
            DetectionRule::ClassFieldIsString { targets } => migration_findings(
                sc,
                targets@,
                hits_in_objects(os, target_keys(targets@)),
            ),
            DetectionRule::ReplacedBinEntryDiff { targets } => replaced_findings(
                sc,
                targets@,
                replaced_targets(ctx, targets@),
                os,
                vanilla_objects(ctx)->0,
            ),
            DetectionRule::DeadAssetReference {
                extensions,
                path_prefixes,
                downgrade_markers,
                downgrade_reason,
                latent_reason,
                suppress_never_loaded,
            } => dead_findings(
                sc,
                dead_list(ctx, extensions@, path_prefixes@, suppress_never_loaded),
                downgrade_markers@,
                downgrade_reason,
                latent_reason,
                reached_in_use(ctx.scope),
            ),
            DetectionRule::StaleCharacterRecord { entry_type, fields, critical_field, critical_reason } => stale_findings(
                sc,
                stale_fields(ctx, entry_type@, texts(fields@)),
                critical_field,
                critical_reason,
            ),
            _ => match opt_text(rule.reason) {
                Some(r) => seq![Finding { entry: Some(ctx.file_path@), ..finding(catalog, r, fix_id) }],
                None => Seq::empty(),
            },
        }
    }
}

fn diagnose_migration<H: HashProvider, W: WadProvider, G: GameProvider>(
    fix_id: &str,
    rule: &FixRule,
    catalog: &ReasonCatalog,
    ctx: &FixContext<H, W, G>,
    targets: &Vec<ClassFieldTarget>,
) -> (r: Vec<Diagnostic>)
    ensures
        findings(r@) == migration_findings(
            (FindingScope { catalog: *catalog, fix_id: fix_id@, file: ctx.file_path@, reason: rule.reason }),
            targets@,
            hits_in_objects(objects(ctx.tree.objects), target_keys(targets@)),
        ),
{
    let ghost sc = FindingScope { catalog: *catalog, fix_id: fix_id@, file: ctx.file_path@, reason: rule.reason };
    let hits = detect_hits(&ctx.tree, targets);
    let ghost h = hit_view(hits@);
    let mut out: Vec<Diagnostic> = Vec::new();
    let mut i: usize = 0;
    assert(findings(out@) =~= migration_findings(sc, targets@.take(0), h));
    while i < targets.len()
        invariant
            sc == (FindingScope { catalog: *catalog, fix_id: fix_id@, file: ctx.file_path@, reason: rule.reason }),
            h == hit_view(hits@),
            i <= targets@.len(),
            findings(out@) == migration_findings(sc, targets@.take(i as int), h),
        decreases targets@.len() - i,
    {
        proof {
            lemma_take_next(targets@, i as int);
        }
        let t = &targets[i];
        if let Some(sample) = find_hit(&hits, target_key(t)) {
            if let Some(reason) = either(&t.reason, &rule.reason) {
                let mut field = t.class.clone();
                field.append(".");
                field.append(t.field.as_str());
                let d = Diagnostic::new(catalog, reason.as_str(), fix_id).with_entry(ctx.file_path.as_str()).with_field(
                    field.as_str(),
                ).with_detail(sample.as_str());
                let ghost before = out@;
                out.push(d);
                assert(findings(out@) =~= findings(before).push(d@));
            }
        }
        i = i + 1;
    }
    assert(targets@.take(i as int) =~= targets@);
    out
}

fn diagnose_replaced<H: HashProvider, W: WadProvider, G: GameProvider>(
    fix_id: &str,
    rule: &FixRule,
    catalog: &ReasonCatalog,
    ctx: &FixContext<H, W, G>,
    targets: &Vec<ReplacedBinTarget>,
) -> (r: Vec<Diagnostic>)
    ensures
        findings(r@) == replaced_findings(
            (FindingScope { catalog: *catalog, fix_id: fix_id@, file: ctx.file_path@, reason: rule.reason }),
            targets@,
            replaced_targets(*ctx, targets@),
            objects(ctx.tree.objects),
            vanilla_objects(*ctx)->0,
        ),
{
    let ghost sc = FindingScope { catalog: *catalog, fix_id: fix_id@, file: ctx.file_path@, reason: rule.reason };
    let ghost ours = objects(ctx.tree.objects);
    let ghost live = vanilla_objects(*ctx)->0;
    let hits = replaced_hits(ctx, targets);
    let ghost all = hit_targets(hits@);
    let mut out: Vec<Diagnostic> = Vec::new();
    let mut i: usize = 0;
    assert(findings(out@) =~= replaced_findings(sc, targets@, all.take(0), ours, live));
    while i < hits.len()
        invariant
            sc == (FindingScope { catalog: *catalog, fix_id: fix_id@, file: ctx.file_path@, reason: rule.reason }),
            ours == objects(ctx.tree.objects),
            live == vanilla_objects(*ctx)->0,
            all == hit_targets(hits@),
            forall|k: int| 0 <= k < hits@.len() ==> hit_is_right(*ctx, targets@, #[trigger] hits@[k]),
            i <= hits@.len(),
            findings(out@) == replaced_findings(sc, targets@, all.take(i as int), ours, live),
        decreases hits@.len() - i,
    {
        let hit = &hits[i];
        proof {
            lemma_take_next(all, i as int);
            assert(hit_is_right(*ctx, targets@, hits@[i as int]));
            lemma_hit_keys(*ctx, targets@, *hit);
        }
        let t = &targets[hit.target_index];
        if let Some(reason) = either(&t.reason, &rule.reason) {
            let text = hit.describe(t);
            let d = Diagnostic::new(catalog, reason.as_str(), fix_id).with_entry(ctx.file_path.as_str()).with_detail(
                text.as_str(),
            );
            let ghost before = out@;
            out.push(d);
            assert(findings(out@) =~= findings(before).push(d@));
        }
        i = i + 1;
    }
    assert(all.take(i as int) =~= all);
    out
}

fn sort_by_character(paths: &Vec<String>, markers: &Vec<String>, yes: bool) -> (r: Vec<String>)
    ensures
        texts(r@) == sorted_by_character(texts(paths@), markers@, yes),
{
    let ghost all = texts(paths@);
    let mut out: Vec<String> = Vec::new();
    let mut i: usize = 0;
    assert(texts(out@) =~= sorted_by_character(all.take(0), markers@, yes));
    while i < paths.len()
        invariant
            all == texts(paths@),
            i <= paths@.len(),
            texts(out@) == sorted_by_character(all.take(i as int), markers@, yes),
        decreases paths@.len() - i,
    {
        proof {
            lemma_take_next(all, i as int);
        }
        if is_map_character(paths[i].as_str(), markers) == yes {
            let ghost o = out@;
            out.push(paths[i].clone());
            proof {
                lemma_texts_push(o, out@.last());
                assert(out@ =~= o.push(out@.last()));
            }
        }
        i = i + 1;
    }
    assert(all.take(i as int) =~= all);
    out
}

fn summarise(paths: &Vec<String>) -> (r: String)
    requires
        paths@.len() > 0,
    ensures
        r@ == summary(texts(paths@)),
{
    assert(texts(paths@)[0] == paths@[0]@);
    if paths.len() == 1 {
        paths[0].clone()
    } else {
        let mut s = decimal_text(paths.len() as u64);
        s.append(" missing, including ");
        s.append(paths[0].as_str());
        s
    }
}

fn push_group<H: HashProvider, W: WadProvider, G: GameProvider>(
    out: &mut Vec<Diagnostic>,
    fix_id: &str,
    catalog: &ReasonCatalog,
    ctx: &FixContext<H, W, G>,
    own_reason: &Option<String>,
    paths: &Vec<String>,
    reason: Option<&String>,
)
    ensures
        findings(final(out)@) == findings(old(out)@) + group_finding(
            (FindingScope { catalog: *catalog, fix_id: fix_id@, file: ctx.file_path@, reason: *own_reason }),
            texts(paths@),
            match reason {
                Some(s) => Some(s@),
                None => None,
            },
        ),
{
    let ghost before = out@;
    assert(texts(paths@).len() == paths@.len());
    if let Some(r) = reason {
        if paths.len() > 0 {
            let text = summarise(paths);
            let d = Diagnostic::new(catalog, r.as_str(), fix_id).with_entry(ctx.file_path.as_str()).with_detail(
                text.as_str(),
            );
            out.push(d);
            assert(findings(out@) =~= findings(before) + seq![d@]);
            return;
        }
    }
    assert(findings(out@) =~= findings(before) + Seq::<Finding>::empty());
}

fn diagnose_dead<H: HashProvider, W: WadProvider, G: GameProvider>(
    fix_id: &str,
    rule: &FixRule,
    catalog: &ReasonCatalog,
    ctx: &FixContext<H, W, G>,
    dead: &Vec<String>,
    markers: &Vec<String>,
    downgrade_reason: &Option<String>,
    latent_reason: &Option<String>,
) -> (r: Vec<Diagnostic>)
    ensures
        findings(r@) == dead_findings(
            (FindingScope { catalog: *catalog, fix_id: fix_id@, file: ctx.file_path@, reason: rule.reason }),
            texts(dead@),
            markers@,
            *downgrade_reason,
            *latent_reason,
            reached_in_use(ctx.scope),
        ),
{
    let apart = downgrade_reason.is_some() && markers.len() > 0;
    let reached = is_reached_in_use(ctx);
    let none: Option<String> = None;
    let primary_reason = if reached { either(&rule.reason, &none) } else { either(latent_reason, &rule.reason) };
    let mut out: Vec<Diagnostic> = Vec::new();
    assert(findings(out@) =~= Seq::empty());
    if apart {
        let primary = sort_by_character(dead, markers, false);
        push_group(&mut out, fix_id, catalog, ctx, &rule.reason, &primary, primary_reason);
        let downgraded = sort_by_character(dead, markers, true);
        push_group(&mut out, fix_id, catalog, ctx, &rule.reason, &downgraded, either(downgrade_reason, &none));
    } else {
        push_group(&mut out, fix_id, catalog, ctx, &rule.reason, dead, primary_reason);
        let nothing: Vec<String> = Vec::new();
        assert(texts(nothing@) =~= Seq::empty());
        push_group(&mut out, fix_id, catalog, ctx, &rule.reason, &nothing, either(downgrade_reason, &none));
    }
    assert(findings(out@) =~= dead_findings(
        (FindingScope { catalog: *catalog, fix_id: fix_id@, file: ctx.file_path@, reason: rule.reason }),
        texts(dead@),
        markers@,
        *downgrade_reason,
        *latent_reason,
        reached_in_use(ctx.scope),
    ));
    out
}

fn is_named_any_case(names: &Vec<String>, name: &str) -> (r: bool)
    ensures
        r == names_any_case(texts(names@), name@),
{
    let low = to_ascii_lower(name);
    let ghost all = texts(names@);
    let mut i: usize = 0;
    while i < names.len()
        invariant
            all == texts(names@),
            low@ == ascii_lowered(name@),
            i <= names@.len(),
            forall|j: int| 0 <= j < i ==> ascii_lowered(#[trigger] all[j]) != ascii_lowered(name@),
        decreases names@.len() - i,
    {
        assert(all[i as int] == names@[i as int]@);
        let x = to_ascii_lower(names[i].as_str());
        if same(x.as_str(), low.as_str()) {
            return true;
        }
        i = i + 1;
    }
    false
}

fn diagnose_stale<H: HashProvider, W: WadProvider, G: GameProvider>(
    fix_id: &str,
    rule: &FixRule,
    catalog: &ReasonCatalog,
    ctx: &FixContext<H, W, G>,
    missing: &Vec<String>,
    critical_field: &Option<String>,
    critical_reason: &Option<String>,
) -> (r: Vec<Diagnostic>)
    ensures
        findings(r@) == stale_findings(
            (FindingScope { catalog: *catalog, fix_id: fix_id@, file: ctx.file_path@, reason: rule.reason }),
            texts(missing@),
            *critical_field,
            *critical_reason,
        ),
{
    let mut out: Vec<Diagnostic> = Vec::new();
    assert(findings(out@) =~= Seq::empty());
    assert(texts(missing@).len() == missing@.len());
    if missing.len() == 0 {
        return out;
    }
    if let Some(c) = critical_field {
        if is_named_any_case(missing, c.as_str()) {
            if let Some(reason) = critical_reason {
                let text = cat("missing ", c.as_str());
                let d = Diagnostic::new(catalog, reason.as_str(), fix_id).with_entry(ctx.file_path.as_str()).with_detail(
                    text.as_str(),
                );
                out.push(d);
                assert(findings(out@) =~= seq![d@]);
            }
            return out;
        }
    }
    if let Some(reason) = &rule.reason {
        let n: usize = if missing.len() < 4 { missing.len() } else { 4 };
        let mut names: Vec<String> = Vec::new();
        let mut i: usize = 0;
        while i < n
            invariant
                n <= missing@.len(),
                i <= n,
                names@.len() == i,
                forall|j: int| 0 <= j < i ==> (#[trigger] names@[j])@ == missing@[j]@,
            decreases n - i,
        {
            names.push(missing[i].clone());
            i = i + 1;
        }
        assert(texts(names@) =~= first_four(texts(missing@)));
        let mut text = decimal_text(missing.len() as u64);
        text.append(" missing: ");
        text.append(join(&names, ", ").as_str());
        let d = Diagnostic::new(catalog, reason.as_str(), fix_id).with_entry(ctx.file_path.as_str()).with_detail(
            text.as_str(),
        );
        out.push(d);
        assert(findings(out@) =~= seq![d@]);
    }
    out
}

/// The findings of a rule that has already been detected as firing. None where the rule
/// has no reason.
pub fn diagnose_fired_rule<H: HashProvider, W: WadProvider, G: GameProvider>(
    fix_id: &str,
    rule: &FixRule,
    config: &FixConfig,
    ctx: &FixContext<H, W, G>,
) -> (r: Vec<Diagnostic>)
    ensures
        findings(r@) == rule_findings(fix_id@, *rule, config.reasons, *ctx),
{
    let catalog = &config.reasons;
    let mut out: Vec<Diagnostic> = Vec::new();
    assert(findings(out@) =~= Seq::empty());
    if rule.main_character_only && is_subcharacter(ctx) {
        return out;
    }
    if !ctx.scope.should_inspect(rule.loaded_bins_only) {
        return out;
    }
    match &rule.detect {
        DetectionRule::ClassFieldIsString { targets } => diagnose_migration(fix_id, rule, catalog, ctx, targets),
        DetectionRule::ReplacedBinEntryDiff { targets } => diagnose_replaced(fix_id, rule, catalog, ctx, targets),
        DetectionRule::DeadAssetReference {
            extensions,
            path_prefixes,
            downgrade_markers,
            downgrade_reason,
            latent_reason,
            suppress_never_loaded,
        } => {
            let dead = dead_refs(ctx, extensions, path_prefixes, *suppress_never_loaded);
            proof {
                let d = texts(dead@);
                assert(lists_dead(*ctx, d, extensions@, path_prefixes@, *suppress_never_loaded));
                let e = dead_list(*ctx, extensions@, path_prefixes@, *suppress_never_loaded);
                assert(lists_dead(*ctx, e, extensions@, path_prefixes@, *suppress_never_loaded));
                assert forall|y: Seq<char>| d.contains(y) <==> e.contains(y) by {
                    assert(d.contains(y) <==> dead_in_file(*ctx, y, extensions@, path_prefixes@, *suppress_never_loaded));
                    assert(e.contains(y) <==> dead_in_file(*ctx, y, extensions@, path_prefixes@, *suppress_never_loaded));
                }
                lemma_ascend_unique(d, e);
            }
            diagnose_dead(fix_id, rule, catalog, ctx, &dead, downgrade_markers, downgrade_reason, latent_reason)
        },
        DetectionRule::StaleCharacterRecord { entry_type, fields, critical_field, critical_reason } => {
            let missing = missing_fields(ctx, entry_type.as_str(), fields);
            diagnose_stale(fix_id, rule, catalog, ctx, &missing, critical_field, critical_reason)
        },
        _ => {
            if let Some(reason) = &rule.reason {
                let d = Diagnostic::new(catalog, reason.as_str(), fix_id).with_entry(ctx.file_path.as_str());
                out.push(d);
                assert(findings(out@) =~= seq![d@]);
            }
            out
        },
    }
}

/// What a check of one file reports: findings, skipped checks, and checks that ran.
pub struct TreeCheck {
    pub found: Seq<Finding>,
    pub skipped: Seq<(Seq<char>, SkipReason)>,
    pub ran: Seq<Seq<char>>,
}

/// The report of a check with the rules in order.
pub open spec fn checked<H: HashProvider, W: WadProvider, G: GameProvider>(
    rules: Seq<(String, FixRule)>,
    config: FixConfig,
    ctx: FixContext<H, W, G>,
) -> TreeCheck
    decreases rules.len(),
{
    if rules.len() == 0 {
        TreeCheck { found: Seq::empty(), skipped: Seq::empty(), ran: Seq::empty() }
    } else {
        let before = checked(rules.drop_last(), config, ctx);
        let (id, rule) = rules.last();
        if !config.enabled(id@) {
            before
        } else {
            match skipped_for(rule.detect, ctx) {
                Some(why) => TreeCheck { skipped: before.skipped.push((id@, why)), ..before },
                None => TreeCheck {
                    found: if fires(rule.detect, ctx) {
                        before.found + rule_findings(id@, rule, config.reasons, ctx)
                    } else {
                        before.found
                    },
                    ran: before.ran.push(id@),
                    ..before
                },
            }
        }
    }
}

/// Add findings to a report, in order.
pub fn push_all(report: &mut CheckReport, found: Vec<Diagnostic>)
    ensures
        findings(final(report).diagnostics@) == findings(old(report).diagnostics@) + findings(found@),
        final(report).skipped == old(report).skipped,
        final(report).ran == old(report).ran,
        final(report).reasons == old(report).reasons,
{
    let ghost base = findings(report.diagnostics@);
    let ghost all = findings(found@);
    let mut i: usize = 0;
    assert(base + all.take(0) =~= base);
    while i < found.len()
        invariant
            all == findings(found@),
            i <= found@.len(),
            findings(report.diagnostics@) == base + all.take(i as int),
            report.skipped == old(report).skipped,
            report.ran == old(report).ran,
            report.reasons == old(report).reasons,
        decreases found@.len() - i,
    {
        report.push(found[i].copy());
        assert(findings(report.diagnostics@) =~= base + all.take(i + 1));
        i = i + 1;
    }
    assert(all.take(i as int) =~= all);
}

/// Run every enabled rule against one file in detect-only mode. The report carries the
/// meaning of its reasons.
pub fn check_tree<H: HashProvider, W: WadProvider, G: GameProvider>(
    config: &FixConfig,
    ctx: &FixContext<H, W, G>,
) -> (r: CheckReport)
    ensures
        ({
            let w = checked(config.fixes@, *config, *ctx);
            findings(r.diagnostics@) == w.found && skips(r.skipped@) == w.skipped && texts(r.ran@) == w.ran
        }),
        r.reasons@ == config.reasons@,
{
    let mut report = CheckReport::new();
    let mut i: usize = 0;
    assert(findings(report.diagnostics@) =~= Seq::empty());
    assert(skips(report.skipped@) =~= Seq::empty());
    assert(texts(report.ran@) =~= Seq::empty());
    while i < config.fixes.len()
        invariant
            i <= config.fixes@.len(),
            ({
                let w = checked(config.fixes@.take(i as int), *config, *ctx);
                findings(report.diagnostics@) == w.found && skips(report.skipped@) == w.skipped && texts(report.ran@)
                    == w.ran
            }),
        decreases config.fixes@.len() - i,
    {
        proof {
            lemma_take_next(config.fixes@, i as int);
        }
        let id = config.fixes[i].0.as_str();
        let rule = &config.fixes[i].1;
        if config.is_fix_enabled(id) {
            match skip_reason(rule, ctx) {
                Some(why) => {
                    report.mark_skipped(id, why);
                },
                None => {
                    if detect_in_context(&rule.detect, ctx) {
                        let found = diagnose_fired_rule(id, rule, config, ctx);
                        push_all(&mut report, found);
                    }
                    report.mark_ran(id);
                },
            }
        }
        i = i + 1;
    }
    assert(config.fixes@.take(i as int) =~= config.fixes@);
    report.attach_catalog(&config.reasons);
    report
}

/// The reasons that a list of migration targets names.
pub open spec fn class_reasons(ts: Seq<ClassFieldTarget>) -> Seq<Seq<char>>
    decreases ts.len(),
{
    if ts.len() == 0 {
        Seq::empty()
    } else {
        let before = class_reasons(ts.drop_last());
        match ts.last().reason {
            Some(r) => before.push(r@),
            None => before,
        }
    }
}

/// The reasons that a list of replacement targets names.
pub open spec fn replaced_reasons(ts: Seq<ReplacedBinTarget>) -> Seq<Seq<char>>
    decreases ts.len(),
{
    if ts.len() == 0 {
        Seq::empty()
    } else {
        let before = replaced_reasons(ts.drop_last());
        match ts.last().reason {
            Some(r) => before.push(r@),
            None => before,
        }
    }
}

/// The reasons that a rule names: its own, then those of its targets.
pub open spec fn rule_reasons(rule: FixRule) -> Seq<Seq<char>> {
    let own = match rule.reason {
        Some(r) => seq![r@],
        None => Seq::empty(),
    };
    own + match rule.detect {
        DetectionRule::ClassFieldIsString { targets } => class_reasons(targets@),
        DetectionRule::ReplacedBinEntryDiff { targets } => replaced_reasons(targets@),
        _ => Seq::empty(),
    }
}

/// The reasons that the rules name, in order.
pub open spec fn all_reasons(rules: Seq<(String, FixRule)>) -> Seq<Seq<char>>
    decreases rules.len(),
{
    if rules.len() == 0 {
        Seq::empty()
    } else {
        all_reasons(rules.drop_last()) + rule_reasons(rules.last().1)
    }
}

fn push_class_reasons(out: &mut Vec<String>, ts: &Vec<ClassFieldTarget>)
    ensures
        texts(final(out)@) == texts(old(out)@) + class_reasons(ts@),
{
    let ghost base = texts(out@);
    let mut i: usize = 0;
    assert(base + class_reasons(ts@.take(0)) =~= base);
    while i < ts.len()
        invariant
            i <= ts@.len(),
            texts(out@) == base + class_reasons(ts@.take(i as int)),
        decreases ts@.len() - i,
    {
        proof {
            lemma_take_next(ts@, i as int);
        }
        if let Some(r) = &ts[i].reason {
            let ghost o = out@;
            out.push(r.clone());
            proof {
                lemma_texts_push(o, out@.last());
                assert(out@ =~= o.push(out@.last()));
            }
        }
        assert(texts(out@) =~= base + class_reasons(ts@.take(i + 1)));
        i = i + 1;
    }
    assert(ts@.take(i as int) =~= ts@);
}

fn push_replaced_reasons(out: &mut Vec<String>, ts: &Vec<ReplacedBinTarget>)
    ensures
        texts(final(out)@) == texts(old(out)@) + replaced_reasons(ts@),
{
    let ghost base = texts(out@);
    let mut i: usize = 0;
    assert(base + replaced_reasons(ts@.take(0)) =~= base);
    while i < ts.len()
        invariant
            i <= ts@.len(),
            texts(out@) == base + replaced_reasons(ts@.take(i as int)),
        decreases ts@.len() - i,
    {
        proof {
            lemma_take_next(ts@, i as int);
        }
        if let Some(r) = &ts[i].reason {
            let ghost o = out@;
            out.push(r.clone());
            proof {
                lemma_texts_push(o, out@.last());
                assert(out@ =~= o.push(out@.last()));
            }
        }
        assert(texts(out@) =~= base + replaced_reasons(ts@.take(i + 1)));
        i = i + 1;
    }
    assert(ts@.take(i as int) =~= ts@);
}

/// Reason ids that rules or targets name and that the catalog does not define, each
/// once.
pub fn unknown_reason_ids(config: &FixConfig) -> (r: Vec<String>)
    ensures
        texts(r@) == undefined_ids(config.reasons, all_reasons(config.fixes@)),
{
    let mut named: Vec<String> = Vec::new();
    let mut i: usize = 0;
    assert(texts(named@) =~= all_reasons(config.fixes@.take(0)));
    while i < config.fixes.len()
        invariant
            i <= config.fixes@.len(),
            texts(named@) == all_reasons(config.fixes@.take(i as int)),
        decreases config.fixes@.len() - i,
    {
        proof {
            lemma_take_next(config.fixes@, i as int);
        }
        let rule = &config.fixes[i].1;
        let ghost base = texts(named@);
        if let Some(r) = &rule.reason {
            let ghost o = named@;
            named.push(r.clone());
            proof {
                lemma_texts_push(o, named@.last());
                assert(named@ =~= o.push(named@.last()));
            }
        }
        match &rule.detect {
            DetectionRule::ClassFieldIsString { targets } => push_class_reasons(&mut named, targets),
            DetectionRule::ReplacedBinEntryDiff { targets } => push_replaced_reasons(&mut named, targets),
            _ => {},
        }
        assert(texts(named@) =~= base + rule_reasons(*rule));
        i = i + 1;
    }
    assert(config.fixes@.take(i as int) =~= config.fixes@);
    config.reasons.unknown_ids(&named)
}

/// A rule without a reason, on itself or on its targets, finds nothing to report.
pub proof fn law_no_reason_no_finding<H: HashProvider, W: WadProvider, G: GameProvider>(
    fix_id: Seq<char>,
    rule: FixRule,
    catalog: ReasonCatalog,
    ctx: FixContext<H, W, G>,
)
    requires
        rule.reason is None,
        !(rule.detect is ClassFieldIsString),
        !(rule.detect is ReplacedBinEntryDiff),
        !(rule.detect is DeadAssetReference),
        !(rule.detect is StaleCharacterRecord),
    ensures
        rule_findings(fix_id, rule, catalog, ctx).len() == 0,
{
}

/// A check that cannot run is recorded as skipped and not as having run, so a clean
/// report and an incomplete one can be told apart.
pub proof fn law_skipped_is_not_ran<H: HashProvider, W: WadProvider, G: GameProvider>(
    rules: Seq<(String, FixRule)>,
    config: FixConfig,
    ctx: FixContext<H, W, G>,
    i: int,
)
    requires
        0 <= i < rules.len(),
        config.enabled(rules[i].0@),
    ensures
        skipped_for(rules[i].1.detect, ctx) matches Some(why) ==> checked(rules, config, ctx).skipped.contains(
            (rules[i].0@, why),
        ),
        skipped_for(rules[i].1.detect, ctx) is None ==> checked(rules, config, ctx).ran.contains(rules[i].0@),
    decreases rules.len(),
{
    let head = rules.drop_last();
    let before = checked(head, config, ctx);
    let now = checked(rules, config, ctx);
    if i < head.len() {
        assert(head[i] == rules[i]);
        law_skipped_is_not_ran(head, config, ctx, i);
        if let Some(why) = skipped_for(rules[i].1.detect, ctx) {
            let k = choose|k: int| 0 <= k < before.skipped.len() && before.skipped[k] == (rules[i].0@, why);
            assert(now.skipped[k] == before.skipped[k]);
        } else {
            let k = choose|k: int| 0 <= k < before.ran.len() && before.ran[k] == rules[i].0@;
            assert(now.ran[k] == before.ran[k]);
        }
    } else {
        if let Some(why) = skipped_for(rules[i].1.detect, ctx) {
            assert(now.skipped[now.skipped.len() - 1] == (rules[i].0@, why));
        } else {
            assert(now.ran[now.ran.len() - 1] == rules[i].0@);
        }
    }
}

/// A rule is passed over for what it needs and does not get: a list of shaders, the game or
/// the dictionary, each for its own kinds of rule.
pub proof fn law_rules_are_skipped_for_what_is_missing<H: HashProvider, W: WadProvider, G: GameProvider>(
    rule: DetectionRule,
    ctx: FixContext<H, W, G>,
)
    ensures
        rule is InvalidShaderReference && ctx.valid_shaders is None ==> skipped_for(rule, ctx) == Some(SkipReason::NoShaderList),
        (rule is ReplacedBinEntryDiff || rule is DeadEntryLink) && ctx.game is None ==> skipped_for(rule, ctx) == Some(
            SkipReason::NoGameDir,
        ),
        (rule is MissingOrWrongField || rule is FieldHashExists || rule is StringExtensionNotInWad || rule is EntryTypeExistsAny
            || rule is UnreferencedEntryOfType || rule is VfxShapeNeedsFix) && !ctx.hashes.loaded() ==> skipped_for(rule, ctx) == Some(
            SkipReason::NoHashDictionary,
        ),
        ctx.hashes.loaded() && ctx.valid_shaders is Some && ctx.game is Some && !(rule is DeadShaderLink) ==> skipped_for(rule, ctx) is None,
        rule is RecursiveStringExtensionNotInWad || rule is ClassFieldIsString || rule is DeadAssetReference
            || rule is StaleCharacterRecord ==> skipped_for(rule, ctx) is None,
{
}

proof fn lemma_checked_grows<H: HashProvider, W: WadProvider, G: GameProvider>(
    rules: Seq<(String, FixRule)>,
    config: FixConfig,
    ctx: FixContext<H, W, G>,
    n: int,
)
    requires
        0 <= n <= rules.len(),
    ensures
        checked(rules.take(n), config, ctx).found.is_prefix_of(checked(rules, config, ctx).found),
    decreases rules.len(),
{
    let a = checked(rules.take(n), config, ctx).found;
    let b = checked(rules, config, ctx).found;
    if n < rules.len() {
        let head = rules.drop_last();
        assert(head.take(n) =~= rules.take(n));
        lemma_checked_grows(head, config, ctx, n);
        let m = checked(head, config, ctx).found;
        assert(a =~= b.subrange(0, a.len() as int)) by {
            assert(a =~= m.subrange(0, a.len() as int));
        }
    } else {
        assert(rules.take(n) =~= rules);
        assert(b =~= b.subrange(0, b.len() as int));
    }
}

/// Every finding of an enabled rule that can be checked and that fires is in the report; for
/// a rule with a reason and no findings of its own kind that is one finding for the file,
/// with the reason.
pub proof fn law_defects_are_reported<H: HashProvider, W: WadProvider, G: GameProvider>(
    rules: Seq<(String, FixRule)>,
    config: FixConfig,
    ctx: FixContext<H, W, G>,
    i: int,
    k: int,
)
    requires
        0 <= i < rules.len(),
        config.enabled(rules[i].0@),
        skipped_for(rules[i].1.detect, ctx) is None,
        fires(rules[i].1.detect, ctx),
    ensures
        ({
            let own = rule_findings(rules[i].0@, rules[i].1, config.reasons, ctx);
            0 <= k < own.len() ==> checked(rules, config, ctx).found.contains(own[k])
        }),
        rules[i].1.reason is Some && !(rules[i].1.main_character_only && subcharacter(ctx)) && ctx.scope.inspected(
            rules[i].1.loaded_bins_only,
        ) && !(rules[i].1.detect is ClassFieldIsString) && !(rules[i].1.detect is ReplacedBinEntryDiff) && !(
        rules[i].1.detect is DeadAssetReference) && !(rules[i].1.detect is StaleCharacterRecord) ==> checked(
            rules,
            config,
            ctx,
        ).found.contains(
            (Finding {
                reason: rules[i].1.reason->0@,
                severity: config.reasons.severity_of(rules[i].1.reason->0@),
                fix_id: rules[i].0@,
                entry: Some(ctx.file_path@),
                field: None,
                detail: None,
            }),
        ),
{
    let some = rules.take(i + 1);
    assert(some.drop_last() =~= rules.take(i));
    assert(some.last() == rules[i]);
    lemma_checked_grows(rules, config, ctx, i + 1);
    let before = checked(rules.take(i), config, ctx).found;
    let a = checked(some, config, ctx).found;
    let all = checked(rules, config, ctx).found;
    let own = rule_findings(rules[i].0@, rules[i].1, config.reasons, ctx);
    let rule = rules[i].1;
    if rule.reason is Some && !(rule.main_character_only && subcharacter(ctx)) && ctx.scope.inspected(rule.loaded_bins_only) && !(
    rule.detect is ClassFieldIsString) && !(rule.detect is ReplacedBinEntryDiff) && !(rule.detect is DeadAssetReference) && !(
    rule.detect is StaleCharacterRecord) {
        assert(own.len() == 1);
        assert(all.contains(own[0])) by {
            assert(a[before.len() as int] == own[0]);
            assert(all.subrange(0, a.len() as int)[before.len() as int] == all[before.len() as int]);
        }
    }
    assert forall|n: int| 0 <= n < own.len() implies all.contains(#[trigger] own[n]) by {
        assert(a[before.len() + n] == own[n]);
        assert(all.subrange(0, a.len() as int)[before.len() + n] == all[before.len() + n]);
    }
}

/// A rule that is not enabled leaves no trace in the report.
pub proof fn law_disabled_rules_are_not_run<H: HashProvider, W: WadProvider, G: GameProvider>(
    rules: Seq<(String, FixRule)>,
    config: FixConfig,
    ctx: FixContext<H, W, G>,
    id: Seq<char>,
)
    requires
        !config.enabled(id),
    ensures
        !checked(rules, config, ctx).ran.contains(id),
        forall|k: int| 0 <= k < checked(rules, config, ctx).skipped.len() ==> (#[trigger] checked(rules, config, ctx).skipped[k]).0 != id,
    decreases rules.len(),
{
    if rules.len() > 0 {
        let head = rules.drop_last();
        law_disabled_rules_are_not_run(head, config, ctx, id);
        lemma_push_contains(checked(head, config, ctx).ran, rules.last().0@, id);
    }
}

/// The character of a file is that of its first link that names one, and where none does,
/// that of its path. A file is one of a summoned form where that character is no champion.
pub proof fn law_first_link_names_the_character(links: Seq<Seq<char>>, path: Seq<char>, champions: Seq<String>, i: int)
    ensures
        0 <= i < links.len() && character_in(links[i]) is Some && (forall|j: int|
            0 <= j < i ==> character_in(#[trigger] links[j]) is None) ==> character_of_bin(links, path) == character_in(links[i]),
        (forall|j: int| 0 <= j < links.len() ==> character_in(#[trigger] links[j]) is None) ==> character_of_bin(links, path)
            == character_in(path),
        character_of_bin(links, path) matches Some(c) ==> (summoned(links, path, champions) <==> forall|k: int|
            0 <= k < champions.len() ==> (#[trigger] champions[k])@ != lowered(c)),
        character_of_bin(links, path) is None ==> !summoned(links, path, champions),
{
    if 0 <= i < links.len() && character_in(links[i]) is Some && (forall|j: int|
        0 <= j < i ==> character_in(#[trigger] links[j]) is None) {
        lemma_first_character(links, i);
    }
    if forall|j: int| 0 <= j < links.len() ==> character_in(#[trigger] links[j]) is None {
        lemma_no_character(links);
    }
}

proof fn lemma_no_character(links: Seq<Seq<char>>)
    requires
        forall|j: int| 0 <= j < links.len() ==> character_in(#[trigger] links[j]) is None,
    ensures
        first_character(links) is None,
    decreases links.len(),
{
    if links.len() > 0 {
        let head = links.drop_last();
        assert(forall|j: int| 0 <= j < head.len() ==> #[trigger] head[j] == links[j]);
        lemma_no_character(head);
        assert(character_in(links[links.len() - 1]) is None);
    }
}

proof fn lemma_first_character(links: Seq<Seq<char>>, i: int)
    requires
        0 <= i < links.len(),
        character_in(links[i]) is Some,
        forall|j: int| 0 <= j < i ==> character_in(#[trigger] links[j]) is None,
    ensures
        first_character(links) == character_in(links[i]),
    decreases links.len(),
{
    let head = links.drop_last();
    assert(forall|j: int| 0 <= j < head.len() ==> #[trigger] head[j] == links[j]);
    if i < head.len() {
        assert(head[i] == links[i]);
        lemma_first_character(head, i);
    } else {
        lemma_no_character(head);
    }
}

/// A class and field that hold a text where they should not, with a reason of their own or
/// of the rule, are reported with the first such text.
pub proof fn law_migration_targets_are_reported(
    sc: FindingScope,
    targets: Seq<ClassFieldTarget>,
    hits: Seq<((u32, u32), Seq<char>)>,
    t: int,
    h: int,
    reason: Seq<char>,
)
    requires
        0 <= t < targets.len(),
        is_first_hit(hits, key_of(targets[t]), h),
        targets[t].reason matches Some(own) ==> own@ == reason,
        targets[t].reason is None ==> sc.reason is Some && sc.reason->0@ == reason,
    ensures
        migration_findings(sc, targets, hits).contains(
            (Finding {
                reason,
                severity: sc.catalog.severity_of(reason),
                fix_id: sc.fix_id,
                entry: Some(sc.file),
                field: Some(targets[t].class@ + "."@ + targets[t].field@),
                detail: Some(hits[h].1),
            }),
        ),
    decreases targets.len(),
{
    let head = targets.drop_last();
    let before = migration_findings(sc, head, hits);
    let now = migration_findings(sc, targets, hits);
    let key = key_of(targets[t]);
    let x = Finding {
        reason,
        severity: sc.catalog.severity_of(reason),
        fix_id: sc.fix_id,
        entry: Some(sc.file),
        field: Some(targets[t].class@ + "."@ + targets[t].field@),
        detail: Some(hits[h].1),
    };
    if t < head.len() {
        assert(head[t] == targets[t]);
        law_migration_targets_are_reported(sc, head, hits, t, h, reason);
        if now.len() > before.len() {
            lemma_push_contains(before, now.last(), x);
        }
    } else {
        let k = choose|k: int| is_first_hit(hits, key, k);
        assert(hits[k].0 == key && hits[h].0 == key);
        assert(k == h);
        assert(now[before.len() as int] == x);
    }
}

/// Dead paths are told apart by their character without one being lost.
pub proof fn law_dead_paths_are_told_apart(paths: Seq<Seq<char>>, markers: Seq<String>, p: Seq<char>)
    ensures
        sorted_by_character(paths, markers, true).contains(p) <==> paths.contains(p) && map_character(p, markers),
        sorted_by_character(paths, markers, false).contains(p) <==> paths.contains(p) && !map_character(p, markers),
    decreases paths.len(),
{
    if paths.len() > 0 {
        let head = paths.drop_last();
        law_dead_paths_are_told_apart(head, markers, p);
        assert(head.push(paths.last()) =~= paths);
        lemma_push_contains(head, paths.last(), p);
        lemma_push_contains(sorted_by_character(head, markers, true), paths.last(), p);
        lemma_push_contains(sorted_by_character(head, markers, false), paths.last(), p);
    }
}

/// Dead paths give a finding with the rule's reason where they are in use; where they are
/// not, the milder reason stands in, if there is one.
pub proof fn law_dead_paths_are_reported(
    sc: FindingScope,
    dead: Seq<Seq<char>>,
    latent_reason: Option<String>,
    reached: bool,
)
    requires
        dead.len() > 0,
        sc.reason is Some,
    ensures
        ({
            let found = dead_findings(sc, dead, Seq::empty(), None, latent_reason, reached);
            &&& found.len() == 1
            &&& found[0].entry == Some(sc.file) && found[0].fix_id == sc.fix_id
            &&& reached || latent_reason is None ==> found[0].reason == sc.reason->0@
            &&& !reached && latent_reason is Some ==> found[0].reason == latent_reason->0@
            &&& dead.len() == 1 ==> found[0].detail == Some(dead[0])
        }),
{
}

/// A record that lacks the critical field is reported for it; another that lacks any field
/// is reported with the rule's reason.
pub proof fn law_stale_records_are_reported(
    sc: FindingScope,
    missing: Seq<Seq<char>>,
    critical_field: Option<String>,
    critical_reason: Option<String>,
    i: int,
)
    ensures
        ({
            let found = stale_findings(sc, missing, critical_field, critical_reason);
            let critical = critical_field is Some && 0 <= i < missing.len() && ascii_lowered(missing[i]) == ascii_lowered(
                critical_field->0@,
            );
            &&& missing.len() == 0 ==> found.len() == 0
            &&& critical && critical_reason is Some ==> found.len() == 1 && found[0].reason == critical_reason->0@
            &&& critical && critical_reason is None ==> found.len() == 0
            &&& missing.len() > 0 && critical_field is None && sc.reason is Some ==> found.len() == 1 && found[0].reason == sc.reason->0@
        }),
{
}

/// Where a milder reason is given for the characters of the map, dead paths of those are
/// reported with it and the others with the rule's own.
pub proof fn law_map_characters_are_reported_apart(
    sc: FindingScope,
    dead: Seq<Seq<char>>,
    markers: Seq<String>,
    downgrade_reason: Option<String>,
    latent_reason: Option<String>,
    p: Seq<char>,
)
    requires
        sc.reason is Some,
        downgrade_reason is Some,
        markers.len() > 0,
        dead.contains(p),
    ensures
        ({
            let found = dead_findings(sc, dead, markers, downgrade_reason, latent_reason, true);
            &&& map_character(p, markers) ==> found.len() > 0 && found.last().reason == downgrade_reason->0@
            &&& !map_character(p, markers) ==> found.len() > 0 && found[0].reason == sc.reason->0@
        }),
{
    law_dead_paths_are_told_apart(dead, markers, p);
    let primary = sorted_by_character(dead, markers, false);
    let mild = sorted_by_character(dead, markers, true);
    if map_character(p, markers) {
        let k = choose|k: int| 0 <= k < mild.len() && mild[k] == p;
        let a = group_finding(sc, primary, opt_text(sc.reason));
        let b = group_finding(sc, mild, opt_text(downgrade_reason));
        assert(b.len() == 1);
        assert((a + b).last() == b[0]);
    } else {
        let k = choose|k: int| 0 <= k < primary.len() && primary[k] == p;
    }
}

/// A rule on moved fields reports a target that a text of the file is found for, with the
/// first such text, unless the file is none that it is for.
pub proof fn law_moved_fields_are_reported<H: HashProvider, W: WadProvider, G: GameProvider>(
    fix_id: Seq<char>,
    rule: FixRule,
    catalog: ReasonCatalog,
    ctx: FixContext<H, W, G>,
    t: int,
    h: int,
    reason: Seq<char>,
)
    requires
        rule.detect is ClassFieldIsString,
        !(rule.main_character_only && subcharacter(ctx)),
        ctx.scope.inspected(rule.loaded_bins_only),
        0 <= t < rule.detect->ClassFieldIsString_targets@.len(),
        is_first_hit(
            hits_in_objects(objects(ctx.tree.objects), target_keys(rule.detect->ClassFieldIsString_targets@)),
            key_of(rule.detect->ClassFieldIsString_targets@[t]),
            h,
        ),
        rule.detect->ClassFieldIsString_targets@[t].reason matches Some(own) ==> own@ == reason,
        rule.detect->ClassFieldIsString_targets@[t].reason is None ==> rule.reason is Some && rule.reason->0@ == reason,
    ensures
        exists|k: int|
            0 <= k < rule_findings(fix_id, rule, catalog, ctx).len() && (#[trigger] rule_findings(fix_id, rule, catalog, ctx)[k]).reason
                == reason && rule_findings(fix_id, rule, catalog, ctx)[k].entry == Some(ctx.file_path@),
{
    let sc = FindingScope { catalog, fix_id, file: ctx.file_path@, reason: rule.reason };
    let targets = rule.detect->ClassFieldIsString_targets@;
    let hits = hits_in_objects(objects(ctx.tree.objects), target_keys(targets));
    law_migration_targets_are_reported(sc, targets, hits, t, h, reason);
    let found = migration_findings(sc, targets, hits);
    let x = Finding {
        reason,
        severity: sc.catalog.severity_of(reason),
        fix_id: sc.fix_id,
        entry: Some(sc.file),
        field: Some(targets[t].class@ + "."@ + targets[t].field@),
        detail: Some(hits[h].1),
    };
    let k = choose|k: int| 0 <= k < found.len() && found[k] == x;
    assert(rule_findings(fix_id, rule, catalog, ctx)[k] == x);
}

/// A rule says nothing of a file that it is not for: one of a summoned form where it is for
/// champions only, and one that does not load where it is for loaded files only.
pub proof fn law_files_out_of_scope_are_silent<H: HashProvider, W: WadProvider, G: GameProvider>(
    fix_id: Seq<char>,
    rule: FixRule,
    catalog: ReasonCatalog,
    ctx: FixContext<H, W, G>,
)
    requires
        (rule.main_character_only && subcharacter(ctx)) || !ctx.scope.inspected(rule.loaded_bins_only),
    ensures
        rule_findings(fix_id, rule, catalog, ctx).len() == 0,
{
}

} // verus!
