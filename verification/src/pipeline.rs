//! Fix orchestration: detect, repair, and tell what was done.

use vstd::prelude::*;
use vstd::string::*;
use crate::check::{diagnose_fired_rule, is_subcharacter, push_all, rule_findings, skip_reason, skipped_for, subcharacter};
use crate::config::{find_rule, rule_of, DetectionRule, FixConfig, FixPhase, TransformAction};
use crate::context::{same_surroundings, FixContext};
use crate::detect::{detect_in_context, fires};
use crate::diagnostic::{findings, skips, Finding, SkipReason};
use crate::result::{repairs, Applied, AppliedFix, ProcessResult};
use crate::text::{cat, lemma_take_next, lemma_texts_push, texts};
use crate::traits::{GameProvider, HashProvider, WadProvider};
use crate::transform::{apply_transform, repaired};
use crate::walk::{add_count, capped};

verus! {

/// The entry type that a detection is about, if it is about one.
pub open spec fn entry_type_of(rule: DetectionRule) -> Option<Seq<char>> {
    match rule {
        DetectionRule::MissingOrWrongField { entry_type, .. } => Some(entry_type@),
        DetectionRule::FieldHashExists { entry_type, .. } => Some(entry_type@),
        DetectionRule::StringExtensionNotInWad { entry_type, .. } => Some(entry_type@),
        DetectionRule::VfxShapeNeedsFix { entry_type } => Some(entry_type@),
        DetectionRule::InvalidShaderReference { shader_def_type, .. } => Some(shader_def_type@),
        DetectionRule::UnreferencedEntryOfType { main_entry_type, .. } => Some(main_entry_type@),
        DetectionRule::DeadEntryLink { main_entry_type, .. } => Some(main_entry_type@),
        _ => None,
    }
}

/// Extract the entry type from a detection rule, if it has one.
pub fn extract_entry_type(rule: &DetectionRule) -> (r: Option<&String>)
    ensures
        r is Some <==> entry_type_of(*rule) is Some,
        r matches Some(t) ==> entry_type_of(*rule) == Some(t@),
{
    match rule {
        DetectionRule::MissingOrWrongField { entry_type, .. } => Some(entry_type),
        DetectionRule::FieldHashExists { entry_type, .. } => Some(entry_type),
        DetectionRule::StringExtensionNotInWad { entry_type, .. } => Some(entry_type),
        DetectionRule::VfxShapeNeedsFix { entry_type } => Some(entry_type),
        DetectionRule::InvalidShaderReference { shader_def_type, .. } => Some(shader_def_type),
        DetectionRule::UnreferencedEntryOfType { main_entry_type, .. } => Some(main_entry_type),
        DetectionRule::DeadEntryLink { main_entry_type, .. } => Some(main_entry_type),
        _ => None,
    }
}

/// What becomes of one selected rule.
pub enum Verdict {
    /// No rule of either kind has this name, and this is the phase that says so.
    NoRule,
    /// The rule is not for this run: of another kind or phase, switched off, for
    /// champions only, or in need of a game that is not there.
    Passed,
    /// The rule cannot be checked.
    CannotRun(SkipReason),
    /// The rule finds nothing.
    Clean,
    /// The rule finds its defect.
    Fires,
}

/// What becomes of the rule named `id` in a session.
pub open spec fn verdict<H: HashProvider, W: WadProvider, G: GameProvider>(
    config: FixConfig,
    id: Seq<char>,
    phase: FixPhase,
    ctx: FixContext<H, W, G>,
) -> Verdict {
    match rule_of(config.fixes@, id) {
        None => if phase == FixPhase::Standard && rule_of(config.wad_fixes@, id) is None {
            Verdict::NoRule
        } else {
            Verdict::Passed
        },
        Some(rule) => if !config.enabled(id) || rule.phase != phase {
            Verdict::Passed
        } else if rule.main_character_only && subcharacter(ctx) {
            Verdict::Passed
        } else if ctx.game is None && rule.apply is PullEntriesFromGame {
            Verdict::Passed
        } else {
            match skipped_for(rule.detect, ctx) {
                Some(why) => Verdict::CannotRun(why),
                None => if fires(rule.detect, ctx) {
                    Verdict::Fires
                } else {
                    Verdict::Clean
                },
            }
        },
    }
}

/// What a run over some rules has told so far.
#[verifier::ext_equal]
pub struct Tally {
    pub found: Seq<Finding>,
    pub skipped: Seq<(Seq<char>, SkipReason)>,
    pub applied: Seq<Applied>,
    /// The number of repairs that changed nothing.
    pub failed: nat,
    pub errors: Seq<Seq<char>>,
}

/// Nothing told yet.
pub open spec fn no_tally() -> Tally {
    Tally { found: Seq::empty(), skipped: Seq::empty(), applied: Seq::empty(), failed: 0, errors: Seq::empty() }
}

/// The rule is to be repaired in a session.
pub open spec fn to_repair<H: HashProvider, W: WadProvider, G: GameProvider>(
    config: FixConfig,
    id: Seq<char>,
    phase: FixPhase,
    dry_run: bool,
    ctx: FixContext<H, W, G>,
) -> bool {
    &&& verdict(config, id, phase, ctx) is Fires
    &&& !dry_run
    &&& !(rule_of(config.fixes@, id)->0.apply is ReportOnly)
}

/// What one more rule adds. A finding is taken from the session as the repair meets it,
/// since the repair removes the evidence.
pub open spec fn told<H: HashProvider, W: WadProvider, G: GameProvider>(
    before: Tally,
    config: FixConfig,
    id: Seq<char>,
    phase: FixPhase,
    dry_run: bool,
    ctx: FixContext<H, W, G>,
    changes: u32,
) -> Tally {
    let rule = rule_of(config.fixes@, id)->0;
    match verdict(config, id, phase, ctx) {
        Verdict::NoRule => Tally { errors: before.errors.push("Fix rule not found: "@ + id), ..before },
        Verdict::Passed => before,
        Verdict::CannotRun(why) => if rule.reason is Some {
            Tally { skipped: before.skipped.push((id, why)), ..before }
        } else {
            before
        },
        Verdict::Clean => before,
        Verdict::Fires => {
            let seen = Tally { found: before.found + rule_findings(id, rule, config.reasons, ctx), ..before };
            if dry_run {
                Tally {
                    applied: before.applied.push(
                        Applied { fix_id: id, fix_name: rule.name@, changes: 0, file: ctx.file_path@ },
                    ),
                    ..seen
                }
            } else if rule.apply is ReportOnly {
                seen
            } else if changes > 0 {
                Tally {
                    applied: before.applied.push(
                        Applied { fix_id: id, fix_name: rule.name@, changes, file: ctx.file_path@ },
                    ),
                    ..seen
                }
            } else {
                Tally {
                    failed: before.failed + 1,
                    errors: before.errors.push("Fix '"@ + id + "' detected but no changes applied"@),
                    ..seen
                }
            }
        },
    }
}

/// What a run over the rules `ids` tells, where the session goes through the states
/// `trace` and the repairs report `changes`.
pub open spec fn tally<H: HashProvider, W: WadProvider, G: GameProvider>(
    config: FixConfig,
    ids: Seq<Seq<char>>,
    phase: FixPhase,
    dry_run: bool,
    trace: Seq<FixContext<H, W, G>>,
    changes: Seq<u32>,
) -> Tally
    decreases ids.len(),
{
    if ids.len() == 0 {
        no_tally()
    } else {
        let i = ids.len() - 1;
        told(
            tally(config, ids.drop_last(), phase, dry_run, trace, changes),
            config,
            ids.last(),
            phase,
            dry_run,
            trace[i],
            changes[i],
        )
    }
}

/// The session goes through the states `trace`: each rule that is to be repaired is, in
/// order, and nothing else changes it.
pub open spec fn traced<H: HashProvider, W: WadProvider, G: GameProvider>(
    config: FixConfig,
    ids: Seq<Seq<char>>,
    phase: FixPhase,
    dry_run: bool,
    trace: Seq<FixContext<H, W, G>>,
    changes: Seq<u32>,
) -> bool {
    &&& trace.len() == ids.len() + 1
    &&& changes.len() == ids.len()
    &&& forall|i: int|
        0 <= i < ids.len() ==> #[trigger] step(config, ids[i], phase, dry_run, trace[i], trace[i + 1], changes[i])
}

/// What one rule does to the session.
pub open spec fn step<H: HashProvider, W: WadProvider, G: GameProvider>(
    config: FixConfig,
    id: Seq<char>,
    phase: FixPhase,
    dry_run: bool,
    before: FixContext<H, W, G>,
    after: FixContext<H, W, G>,
    changes: u32,
) -> bool {
    if to_repair(config, id, phase, dry_run, before) {
        let rule = rule_of(config.fixes@, id)->0;
        repaired(rule.apply, entry_type_of(rule.detect), before, after, changes)
    } else {
        after == before
    }
}

/// The result of a run is what it tells.
pub open spec fn tells(r: ProcessResult, t: Tally) -> bool {
    &&& findings(r.report.diagnostics@) == t.found
    &&& skips(r.report.skipped@) == t.skipped
    &&& r.report.ran@.len() == 0
    &&& repairs(r.applied_fixes@) == t.applied
    &&& r.fixes_applied == capped(t.applied.len())
    &&& r.fixes_failed == capped(t.failed)
    &&& texts(r.errors@) == t.errors
}

/// Run one rule.
fn run_rule<H: HashProvider, W: WadProvider, G: GameProvider>(
    ctx: &mut FixContext<H, W, G>,
    result: &mut ProcessResult,
    config: &FixConfig,
    id: &str,
    dry_run: bool,
    phase: FixPhase,
    Ghost(before): Ghost<Tally>,
) -> (changes: u32)
    requires
        tells(*old(result), before),
    ensures
        step(*config, id@, phase, dry_run, *old(ctx), *final(ctx), changes),
        tells(*final(result), told(before, *config, id@, phase, dry_run, *old(ctx), changes)),
        final(result).files_processed == old(result).files_processed,
        final(result).check_info == old(result).check_info,
{
    let ghost start = *ctx;
    let ghost r0 = *result;
    let rule = match find_rule(&config.fixes, id) {
        Some(rule) => rule,
        None => {
            if phase == FixPhase::Standard && find_rule(&config.wad_fixes, id).is_none() {
                let message = cat("Fix rule not found: ", id);
                result.errors.push(message);
                proof {
                    lemma_texts_push(r0.errors@, message);
                }
            }
            return 0;
        },
    };
    if !config.is_fix_enabled(id) || rule.phase != phase {
        return 0;
    }
    if rule.main_character_only && is_subcharacter(ctx) {
        return 0;
    }
    let pulls = match &rule.apply {
        TransformAction::PullEntriesFromGame { .. } => true,
        _ => false,
    };
    if ctx.game.is_none() && pulls {
        return 0;
    }
    if let Some(why) = skip_reason(rule, ctx) {
        if rule.reason.is_some() {
            result.report.mark_skipped(id, why);
        }
        return 0;
    }
    if !detect_in_context(&rule.detect, ctx) {
        return 0;
    }
    let found = diagnose_fired_rule(id, rule, config, ctx);
    push_all(&mut result.report, found);
    if dry_run {
        note_applied(result, id, rule.name.as_str(), 0, ctx.file_path.as_str());
        proof {
            assert(before.applied.len() == repairs(r0.applied_fixes@).len());
        }
        return 0;
    }
    let report_only = match &rule.apply {
        TransformAction::ReportOnly => true,
        _ => false,
    };
    if report_only {
        return 0;
    }
    let entry_type = extract_entry_type(&rule.detect);
    let changes = apply_transform(&rule.apply, ctx, entry_type);
    assert(repaired(rule.apply, entry_type_of(rule.detect), start, *ctx, changes));
    assert(ctx.file_path == start.file_path);
    if changes > 0 {
        note_applied(result, id, rule.name.as_str(), changes, ctx.file_path.as_str());
    } else {
        result.fixes_failed = add_count(result.fixes_failed, 1);
        assert(capped(1) == 1u32);
        let mut message = cat("Fix '", id);
        message.append("' detected but no changes applied");
        result.errors.push(message);
        proof {
            lemma_texts_push(r0.errors@, message);
        }
    }
    changes
}

/// Note a repair in a result.
fn note_applied(result: &mut ProcessResult, id: &str, name: &str, changes: u32, file: &str)
    ensures
        repairs(final(result).applied_fixes@) == repairs(old(result).applied_fixes@).push(
            (Applied { fix_id: id@, fix_name: name@, changes, file: file@ }),
        ),
        forall|n: nat| old(result).fixes_applied == #[trigger] capped(n) ==> final(result).fixes_applied == capped(n + 1),
        final(result).files_processed == old(result).files_processed,
        final(result).fixes_failed == old(result).fixes_failed,
        final(result).files_removed == old(result).files_removed,
        final(result).errors == old(result).errors,
        final(result).report == old(result).report,
        final(result).check_info == old(result).check_info,
{
    let ghost before = result.applied_fixes@;
    result.fixes_applied = add_count(result.fixes_applied, 1);
    assert(capped(1) == 1u32);
    let fix = AppliedFix {
        fix_id: id.to_owned(),
        fix_name: name.to_owned(),
        changes_count: changes,
        file_path: file.to_owned(),
    };
    result.applied_fixes.push(fix);
    assert(repairs(result.applied_fixes@) =~= repairs(before).push(fix@));
}

/// Run the selected fixes that belong to one pipeline phase.
///
/// The session goes through a trace of states, one per rule, and the result tells what
/// was found, repaired and skipped on the way. A dry run leaves the session as it is.
pub fn apply_fixes_in_phase<H: HashProvider, W: WadProvider, G: GameProvider>(
    ctx: &mut FixContext<H, W, G>,
    config: &FixConfig,
    selected_fix_ids: &Vec<String>,
    dry_run: bool,
    phase: FixPhase,
) -> (r: ProcessResult)
    ensures
        phase_done(*config, texts(selected_fix_ids@), phase, dry_run, *old(ctx), *final(ctx), r),
        dry_run ==> *final(ctx) == *old(ctx),
{
    let ghost ids = texts(selected_fix_ids@);
    let ghost mut trace: Seq<FixContext<H, W, G>> = seq![*ctx];
    let ghost mut changes: Seq<u32> = Seq::empty();
    let mut result = ProcessResult::new();
    result.files_processed = 1;
    proof {
        assert(findings(result.report.diagnostics@) =~= Seq::empty());
        assert(skips(result.report.skipped@) =~= Seq::empty());
        assert(repairs(result.applied_fixes@) =~= Seq::empty());
        assert(texts(result.errors@) =~= Seq::empty());
        assert(ids.take(0) =~= Seq::empty());
    }
    let mut i: usize = 0;
    while i < selected_fix_ids.len()
        invariant
            ids == texts(selected_fix_ids@),
            i <= selected_fix_ids@.len(),
            traced(*config, ids.take(i as int), phase, dry_run, trace, changes),
            trace[0] == *old(ctx),
            trace[i as int] == *ctx,
            tells(result, tally(*config, ids.take(i as int), phase, dry_run, trace, changes)),
            result.files_processed == 1,
            result.check_info is None,
            dry_run ==> *ctx == *old(ctx),
        decreases selected_fix_ids@.len() - i,
    {
        let ghost told_so_far = tally(*config, ids.take(i as int), phase, dry_run, trace, changes);
        let n = run_rule(ctx, &mut result, config, selected_fix_ids[i].as_str(), dry_run, phase, Ghost(told_so_far));
        proof {
            lemma_take_next(ids, i as int);
            let longer = trace.push(*ctx);
            let more = changes.push(n);
            let now = ids.take(i + 1);
            assert(now[i as int] == selected_fix_ids@[i as int]@);
            assert forall|k: int| 0 <= k < now.len() implies #[trigger] step(
                *config,
                now[k],
                phase,
                dry_run,
                longer[k],
                longer[k + 1],
                more[k],
            ) by {
                if k < i {
                    assert(step(*config, ids.take(i as int)[k], phase, dry_run, trace[k], trace[k + 1], changes[k]));
                }
            }
            lemma_tally_grows(*config, ids.take(i as int), phase, dry_run, trace, changes, *ctx, n);
            trace = longer;
            changes = more;
        }
        i = i + 1;
    }
    assert(ids.take(i as int) =~= ids);
    result.files_removed = ctx.files_to_remove.len() as u32;
    result.report.attach_catalog(&config.reasons);
    proof {
        assert(traced(*config, ids, phase, dry_run, trace, changes));
    }
    result
}

/// One phase of a run over the rules `ids` is done.
pub open spec fn phase_done<H: HashProvider, W: WadProvider, G: GameProvider>(
    config: FixConfig,
    ids: Seq<Seq<char>>,
    phase: FixPhase,
    dry_run: bool,
    before: FixContext<H, W, G>,
    after: FixContext<H, W, G>,
    r: ProcessResult,
) -> bool {
    &&& r.files_processed == 1
    &&& r.files_removed == after.files_to_remove@.len() as u32
    &&& r.report.reasons@ == config.reasons@
    &&& r.check_info is None
    &&& exists|trace: Seq<FixContext<H, W, G>>, changes: Seq<u32>|
        {
            &&& #[trigger] traced(config, ids, phase, dry_run, trace, changes)
            &&& trace[0] == before
            &&& trace[ids.len() as int] == after
            &&& tells(r, tally(config, ids, phase, dry_run, trace, changes))
        }
}

/// What was told does not depend on what comes later.
proof fn lemma_tally_grows<H: HashProvider, W: WadProvider, G: GameProvider>(
    config: FixConfig,
    ids: Seq<Seq<char>>,
    phase: FixPhase,
    dry_run: bool,
    trace: Seq<FixContext<H, W, G>>,
    changes: Seq<u32>,
    next: FixContext<H, W, G>,
    n: u32,
)
    requires
        ids.len() < trace.len(),
        ids.len() <= changes.len(),
    ensures
        tally(config, ids, phase, dry_run, trace.push(next), changes.push(n)) == tally(
            config,
            ids,
            phase,
            dry_run,
            trace,
            changes,
        ),
    decreases ids.len(),
{
    if ids.len() > 0 {
        lemma_tally_grows(config, ids.drop_last(), phase, dry_run, trace, changes, next, n);
    }
}

/// No rule changes the path of the file that a session is on.
pub proof fn lemma_phase_keeps_path<H: HashProvider, W: WadProvider, G: GameProvider>(
    config: FixConfig,
    ids: Seq<Seq<char>>,
    phase: FixPhase,
    dry_run: bool,
    before: FixContext<H, W, G>,
    after: FixContext<H, W, G>,
    r: ProcessResult,
)
    requires
        phase_done(config, ids, phase, dry_run, before, after, r),
    ensures
        same_surroundings(after, before),
{
    let (trace, changes) = choose|trace: Seq<FixContext<H, W, G>>, changes: Seq<u32>|
        {
            &&& #[trigger] traced(config, ids, phase, dry_run, trace, changes)
            &&& trace[0] == before
            &&& trace[ids.len() as int] == after
            &&& tells(r, tally(config, ids, phase, dry_run, trace, changes))
        };
    lemma_trace_keeps_path(config, ids, phase, dry_run, trace, changes, ids.len() as int);
}

proof fn lemma_trace_keeps_path<H: HashProvider, W: WadProvider, G: GameProvider>(
    config: FixConfig,
    ids: Seq<Seq<char>>,
    phase: FixPhase,
    dry_run: bool,
    trace: Seq<FixContext<H, W, G>>,
    changes: Seq<u32>,
    n: int,
)
    requires
        traced(config, ids, phase, dry_run, trace, changes),
        0 <= n <= ids.len(),
    ensures
        same_surroundings(trace[n], trace[0]),
    decreases n,
{
    if n > 0 {
        lemma_trace_keeps_path(config, ids, phase, dry_run, trace, changes, n - 1);
        assert(step(config, ids[n - 1], phase, dry_run, trace[n - 1], trace[n - 1 + 1], changes[n - 1]));
    }
}

/// Run the standard-phase fixes against a BIN tree. Rules of the later phase are left to
/// [`apply_fixes_in_phase`].
pub fn apply_fixes<H: HashProvider, W: WadProvider, G: GameProvider>(
    ctx: &mut FixContext<H, W, G>,
    config: &FixConfig,
    selected_fix_ids: &Vec<String>,
    dry_run: bool,
) -> (r: ProcessResult)
    ensures
        phase_done(*config, texts(selected_fix_ids@), FixPhase::Standard, dry_run, *old(ctx), *final(ctx), r),
        dry_run ==> *final(ctx) == *old(ctx),
{
    apply_fixes_in_phase(ctx, config, selected_fix_ids, dry_run, FixPhase::Standard)
}

/// A rule is acted on in its own phase only.
pub proof fn law_one_phase_per_rule<H: HashProvider, W: WadProvider, G: GameProvider>(
    config: FixConfig,
    id: Seq<char>,
    phase: FixPhase,
    ctx: FixContext<H, W, G>,
)
    requires
        verdict(config, id, phase, ctx) is Fires,
    ensures
        rule_of(config.fixes@, id) is Some,
        rule_of(config.fixes@, id)->0.phase == phase,
        forall|other: FixPhase| other != phase ==> #[trigger] verdict(config, id, other, ctx) is Passed,
{
}

/// Detecting and repairing agree about summoned forms: a rule for champions only neither
/// reports on nor repairs one.
pub proof fn law_summoned_forms_are_left_alone<H: HashProvider, W: WadProvider, G: GameProvider>(
    config: FixConfig,
    id: Seq<char>,
    phase: FixPhase,
    dry_run: bool,
    ctx: FixContext<H, W, G>,
)
    requires
        rule_of(config.fixes@, id) is Some,
        rule_of(config.fixes@, id)->0.main_character_only,
        subcharacter(ctx),
    ensures
        !to_repair(config, id, phase, dry_run, ctx),
        rule_findings(id, rule_of(config.fixes@, id)->0, config.reasons, ctx).len() == 0,
{
}

/// A rule that only reports counts neither as a repair nor as a failure.
pub proof fn law_report_only_is_neither<H: HashProvider, W: WadProvider, G: GameProvider>(
    before: Tally,
    config: FixConfig,
    id: Seq<char>,
    phase: FixPhase,
    ctx: FixContext<H, W, G>,
    changes: u32,
)
    requires
        verdict(config, id, phase, ctx) is Fires,
        rule_of(config.fixes@, id)->0.apply is ReportOnly,
    ensures
        ({
            let now = told(before, config, id, phase, false, ctx, changes);
            now.applied == before.applied && now.failed == before.failed && now.errors == before.errors
        }),
        !to_repair(config, id, phase, false, ctx),
{
}

/// A rule that is known, enabled and of this phase, that may be applied to this file, that
/// can be checked and that finds its defect fires; outside a dry run it is repaired, unless
/// it only reports.
pub proof fn law_found_defects_are_repaired<H: HashProvider, W: WadProvider, G: GameProvider>(
    config: FixConfig,
    id: Seq<char>,
    phase: FixPhase,
    ctx: FixContext<H, W, G>,
)
    requires
        rule_of(config.fixes@, id) is Some,
        config.enabled(id),
        rule_of(config.fixes@, id)->0.phase == phase,
        rule_of(config.fixes@, id)->0.main_character_only ==> !subcharacter(ctx),
        rule_of(config.fixes@, id)->0.apply is PullEntriesFromGame ==> ctx.game is Some,
        skipped_for(rule_of(config.fixes@, id)->0.detect, ctx) is None,
        fires(rule_of(config.fixes@, id)->0.detect, ctx),
    ensures
        verdict(config, id, phase, ctx) is Fires,
        !(rule_of(config.fixes@, id)->0.apply is ReportOnly) ==> to_repair(config, id, phase, false, ctx),
        !to_repair(config, id, phase, true, ctx),
{
}

/// A rule that finds nothing, is switched off or belongs to another phase changes nothing.
pub proof fn law_other_rules_change_nothing<H: HashProvider, W: WadProvider, G: GameProvider>(
    config: FixConfig,
    id: Seq<char>,
    phase: FixPhase,
    dry_run: bool,
    before: FixContext<H, W, G>,
    after: FixContext<H, W, G>,
    changes: u32,
)
    requires
        step(config, id, phase, dry_run, before, after, changes),
        dry_run || !config.enabled(id) || rule_of(config.fixes@, id) is None || rule_of(config.fixes@, id)->0.phase != phase || !fires(
            rule_of(config.fixes@, id)->0.detect,
            before,
        ),
    ensures
        after == before,
{
}

proof fn lemma_tally_prefix<H: HashProvider, W: WadProvider, G: GameProvider>(
    config: FixConfig,
    ids: Seq<Seq<char>>,
    phase: FixPhase,
    dry_run: bool,
    trace: Seq<FixContext<H, W, G>>,
    changes: Seq<u32>,
    n: int,
)
    requires
        0 <= n <= ids.len(),
    ensures
        ({
            let a = tally(config, ids.take(n), phase, dry_run, trace, changes);
            let b = tally(config, ids, phase, dry_run, trace, changes);
            &&& a.found.is_prefix_of(b.found)
            &&& a.skipped.is_prefix_of(b.skipped)
            &&& a.applied.is_prefix_of(b.applied)
            &&& a.errors.is_prefix_of(b.errors)
            &&& a.failed <= b.failed
        }),
    decreases ids.len(),
{
    if n < ids.len() {
        let head = ids.drop_last();
        assert(head.take(n) =~= ids.take(n));
        lemma_tally_prefix(config, head, phase, dry_run, trace, changes, n);
        let a = tally(config, ids.take(n), phase, dry_run, trace, changes);
        let m = tally(config, head, phase, dry_run, trace, changes);
        let b = tally(config, ids, phase, dry_run, trace, changes);
        assert(a.found =~= b.found.subrange(0, a.found.len() as int)) by {
            assert(a.found =~= m.found.subrange(0, a.found.len() as int));
        }
        assert(a.skipped =~= b.skipped.subrange(0, a.skipped.len() as int)) by {
            assert(a.skipped =~= m.skipped.subrange(0, a.skipped.len() as int));
        }
        assert(a.applied =~= b.applied.subrange(0, a.applied.len() as int)) by {
            assert(a.applied =~= m.applied.subrange(0, a.applied.len() as int));
        }
        assert(a.errors =~= b.errors.subrange(0, a.errors.len() as int)) by {
            assert(a.errors =~= m.errors.subrange(0, a.errors.len() as int));
        }
    } else {
        assert(ids.take(n) =~= ids);
        let b = tally(config, ids, phase, dry_run, trace, changes);
        assert(b.found =~= b.found.subrange(0, b.found.len() as int));
        assert(b.skipped =~= b.skipped.subrange(0, b.skipped.len() as int));
        assert(b.applied =~= b.applied.subrange(0, b.applied.len() as int));
        assert(b.errors =~= b.errors.subrange(0, b.errors.len() as int));
    }
}

/// What a run tells of a rule that fires: its findings; that it was applied, with the number
/// of changes, where there were any, or in a dry run with none; and an error where a repair
/// changed nothing. A rule that no one knows is an error of the standard phase.
pub proof fn law_runs_tell_what_was_done<H: HashProvider, W: WadProvider, G: GameProvider>(
    config: FixConfig,
    ids: Seq<Seq<char>>,
    phase: FixPhase,
    dry_run: bool,
    trace: Seq<FixContext<H, W, G>>,
    changes: Seq<u32>,
    i: int,
    k: int,
)
    requires
        0 <= i < ids.len(),
    ensures
        ({
            let t = tally(config, ids, phase, dry_run, trace, changes);
            let rule = rule_of(config.fixes@, ids[i])->0;
            let found = rule_findings(ids[i], rule, config.reasons, trace[i]);
            let fired = verdict(config, ids[i], phase, trace[i]) is Fires;
            &&& fired && 0 <= k < found.len() ==> t.found.contains(found[k])
            &&& fired && dry_run ==> t.applied.contains(
                (Applied { fix_id: ids[i], fix_name: rule.name@, changes: 0, file: trace[i].file_path@ }),
            )
            &&& fired && !dry_run && !(rule.apply is ReportOnly) && changes[i] > 0 ==> t.applied.contains(
                (Applied { fix_id: ids[i], fix_name: rule.name@, changes: changes[i], file: trace[i].file_path@ }),
            )
            &&& fired && !dry_run && !(rule.apply is ReportOnly) && changes[i] == 0 ==> t.failed > 0 && t.errors.contains(
                "Fix '"@ + ids[i] + "' detected but no changes applied"@,
            )
            &&& phase == FixPhase::Standard && rule_of(config.fixes@, ids[i]) is None && rule_of(config.wad_fixes@, ids[i]) is None
                ==> t.errors.contains("Fix rule not found: "@ + ids[i])
        }),
{
    let some = ids.take(i + 1);
    assert(some.drop_last() =~= ids.take(i));
    assert(some.last() == ids[i]);
    lemma_tally_prefix(config, ids, phase, dry_run, trace, changes, i + 1);
    let before = tally(config, ids.take(i), phase, dry_run, trace, changes);
    let a = tally(config, some, phase, dry_run, trace, changes);
    let t = tally(config, ids, phase, dry_run, trace, changes);
    let rule = rule_of(config.fixes@, ids[i])->0;
    let found = rule_findings(ids[i], rule, config.reasons, trace[i]);
    if verdict(config, ids[i], phase, trace[i]) is Fires && 0 <= k < found.len() {
        assert(a.found[before.found.len() + k] == found[k]);
        assert(t.found.subrange(0, a.found.len() as int)[before.found.len() + k] == t.found[before.found.len() + k]);
    }
    if a.applied.len() > before.applied.len() {
        let n = before.applied.len() as int;
        assert(t.applied.subrange(0, a.applied.len() as int)[n] == t.applied[n]);
    }
    if a.errors.len() > before.errors.len() {
        let n = before.errors.len() as int;
        assert(t.errors.subrange(0, a.errors.len() as int)[n] == t.errors[n]);
    }
}

} // verus!
