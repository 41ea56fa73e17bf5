//! How much of a mod's referenced art actually resolves.
//!
//! Each check has a warn level, which must be exceeded, and a fail level, which must be
//! reached. References are counted by file name, not by path: a repathed mod writes the
//! same art under several paths.

use vstd::prelude::*;
use vstd::string::*;
use crate::config::RatioCheckConfig;
use crate::detect::dead_asset::canonical_path;
use crate::diagnostic::{finding, findings, opt_text, Diagnostic, Finding, ReasonCatalog};
use crate::strings::{replace_extension, with_extension};
use crate::text::{
    after_last, decimal, decimal_text, distinct, ends, ends_with, last_at, lemma_distinct, lemma_last_position, lemma_push_contains, lemma_take_next, lemma_texts_push, lowered, push_distinct,
    replace_char, swapped, tail_after, texts, to_lower,
};
use crate::traits::NameSet;

verus! {

/// A whole, in parts per million.
pub const WHOLE: u32 = 1_000_000;

/// One measurement.
#[derive(Clone, Copy, Debug, PartialEq, Eq, Structural)]
pub struct RatioVerdict {
    /// References that resolve nowhere.
    pub missing: usize,
    /// References counted.
    pub total: usize,
}

/// A share in whole percent, truncated; of nothing it is zero.
pub open spec fn percent_of(part: nat, total: nat) -> nat {
    if total == 0 {
        0
    } else if part * 100 / total > u32::MAX {
        u32::MAX as nat
    } else {
        part * 100 / total
    }
}

/// A share in whole percent, truncated.
pub fn percent_share(part: usize, total: usize) -> (r: u32)
    ensures
        r == percent_of(part as nat, total as nat),
{
    if total == 0 {
        return 0;
    }
    let q: u128 = (part as u128) * 100 / (total as u128);
    if q > u32::MAX as u128 {
        u32::MAX
    } else {
        q as u32
    }
}

/// `{part}/{total} ({percent}%)`
pub open spec fn share_text(part: nat, total: nat) -> Seq<char> {
    decimal(part) + "/"@ + decimal(total) + " ("@ + decimal(percent_of(part, total)) + "%)"@
}

/// `{part}/{total} ({percent}%)`
pub fn describe_share(part: usize, total: usize) -> (r: String)
    ensures
        r@ == share_text(part as nat, total as nat),
{
    let mut s = decimal_text(part as u64);
    s.append("/");
    s.append(decimal_text(total as u64).as_str());
    s.append(" (");
    s.append(decimal_text(percent_share(part, total) as u64).as_str());
    s.append("%)");
    s
}

/// The share is at least `level` parts per million.
pub open spec fn reaches(part: nat, total: nat, level: u32) -> bool {
    part * WHOLE >= total * level
}

/// The share is more than `level` parts per million.
pub open spec fn exceeds(part: nat, total: nat, level: u32) -> bool {
    part * WHOLE > total * level
}

/// Whether the share is at least `level` parts per million.
pub fn share_reaches(part: usize, total: usize, level: u32) -> (r: bool)
    ensures
        r == reaches(part as nat, total as nat, level),
{
    assert(part * WHOLE <= u64::MAX as int * 1_000_000) by (nonlinear_arith)
        requires
            part <= u64::MAX,
            WHOLE == 1_000_000,
    ;
    assert(total * level <= u64::MAX as int * u32::MAX as int) by (nonlinear_arith)
        requires
            total <= u64::MAX,
            level <= u32::MAX,
    ;
    (part as u128) * (WHOLE as u128) >= (total as u128) * (level as u128)
}

/// Whether the share is more than `level` parts per million.
pub fn share_exceeds(part: usize, total: usize, level: u32) -> (r: bool)
    ensures
        r == exceeds(part as nat, total as nat, level),
{
    assert(part * WHOLE <= u64::MAX as int * 1_000_000) by (nonlinear_arith)
        requires
            part <= u64::MAX,
            WHOLE == 1_000_000,
    ;
    assert(total * level <= u64::MAX as int * u32::MAX as int) by (nonlinear_arith)
        requires
            total <= u64::MAX,
            level <= u32::MAX,
    ;
    (part as u128) * (WHOLE as u128) > (total as u128) * (level as u128)
}

impl RatioVerdict {
    /// Whole-percent share missing, truncated.
    pub fn percent(&self) -> (r: u32)
        ensures
            r == percent_of(self.missing as nat, self.total as nat),
    {
        percent_share(self.missing, self.total)
    }

    /// `{missing}/{total} ({percent}%)`
    pub fn describe(&self) -> (r: String)
        ensures
            r@ == share_text(self.missing as nat, self.total as nat),
    {
        describe_share(self.missing, self.total)
    }
}

/// Which side of the two thresholds a measurement fell on.
#[derive(Clone, Copy, Debug, PartialEq, Eq, Structural)]
pub enum RatioTier {
    /// At or above the fail level.
    Fail,
    /// Above the warn level but below fail.
    Warn,
}

/// The tier of a measurement; none below the warn level, or for a sample too small.
pub open spec fn ratio_tier(v: RatioVerdict, min_total: usize, warn_at: u32, fail_at: u32) -> Option<RatioTier> {
    if v.total < min_total {
        None
    } else if share_at_least(v.missing as nat, v.total as nat, fail_at) {
        Some(RatioTier::Fail)
    } else if share_above(v.missing as nat, v.total as nat, warn_at) {
        Some(RatioTier::Warn)
    } else {
        None
    }
}

/// The share, which of nothing is zero, is at least `level`.
pub open spec fn share_at_least(part: nat, total: nat, level: u32) -> bool {
    if total == 0 {
        level == 0
    } else {
        reaches(part, total, level)
    }
}

/// The share, which of nothing is zero, is above `level`.
pub open spec fn share_above(part: nat, total: nat, level: u32) -> bool {
    total > 0 && exceeds(part, total, level)
}

/// Classify a measurement. `warn_at` is exclusive and `fail_at` inclusive, both in
/// parts per million.
pub fn classify(verdict: &RatioVerdict, min_total: usize, warn_at: u32, fail_at: u32) -> (r: Option<RatioTier>)
    ensures
        r == ratio_tier(*verdict, min_total, warn_at, fail_at),
{
    if verdict.total < min_total {
        return None;
    }
    let fails = if verdict.total == 0 {
        fail_at == 0
    } else {
        share_reaches(verdict.missing, verdict.total, fail_at)
    };
    if fails {
        return Some(RatioTier::Fail);
    }
    if verdict.total > 0 && share_exceeds(verdict.missing, verdict.total, warn_at) {
        return Some(RatioTier::Warn);
    }
    None
}

/// The file name of a path, in lower case.
pub open spec fn basename(path: Seq<char>) -> Seq<char> {
    lowered(after_last(swapped(path, '\\', '/'), '/'))
}

/// Basename of an asset path, lowercased.
pub fn asset_basename(path: &str) -> (r: String)
    ensures
        r@ == basename(path@),
{
    let plain = replace_char(path, '\\', '/');
    let file = tail_after(plain.as_str(), '/');
    to_lower(file.as_str())
}

/// Re-anchor a repathed asset path on its `characters/` segment.
pub fn canonical(path: &str) -> (r: Option<String>)
    ensures
        r is Some <==> canonical_path(path@) is Some,
        r matches Some(p) ==> canonical_path(path@) == Some(p@),
{
    crate::detect::dead_asset::canonical(path)
}

/// The path or its stock form is there.
pub open spec fn there<S: NameSet>(path: Seq<char>, resolves: S) -> bool {
    resolves.holds(path) || match canonical_path(path) {
        Some(c) => resolves.holds(c),
        None => false,
    }
}

/// A reference resolves: it or its stock form is there, or, for a `.dds`, the same with
/// `.tex`, which is what the client loads.
pub open spec fn resolved<S: NameSet>(reference: Seq<char>, resolves: S) -> bool {
    there(reference, resolves) || match with_extension(reference, ".dds"@, ".tex"@) {
        Some(twin) => there(twin, resolves),
        None => false,
    }
}

fn is_there<S: NameSet>(path: &str, resolves: &S) -> (r: bool)
    ensures
        r == there(path@, *resolves),
{
    if resolves.contains(path) {
        return true;
    }
    match canonical(path) {
        Some(c) => resolves.contains(c.as_str()),
        None => false,
    }
}

/// Whether a reference resolves.
pub fn satisfied<S: NameSet>(reference: &str, resolves: &S) -> (r: bool)
    ensures
        r == resolved(reference@, *resolves),
{
    if is_there(reference, resolves) {
        return true;
    }
    match replace_extension(reference, ".dds", ".tex") {
        Some(twin) => is_there(twin.as_str(), resolves),
        None => false,
    }
}

/// The file names of the references.
pub open spec fn basenames(refs: Seq<Seq<char>>) -> Seq<Seq<char>> {
    refs.map_values(|r: Seq<char>| basename(r))
}

/// Some reference to this file name resolves.
pub open spec fn name_resolves<S: NameSet>(refs: Seq<Seq<char>>, resolves: S, name: Seq<char>) -> bool {
    exists|i: int| 0 <= i < refs.len() && basename(#[trigger] refs[i]) == name && resolved(refs[i], resolves)
}

/// How many of the names have no reference that resolves.
pub open spec fn unresolved<S: NameSet>(names: Seq<Seq<char>>, refs: Seq<Seq<char>>, resolves: S) -> nat
    decreases names.len(),
{
    if names.len() == 0 {
        0
    } else {
        unresolved(names.drop_last(), refs, resolves) + (if name_resolves(refs, resolves, names.last()) { 0nat } else { 1nat })
    }
}

fn is_name_resolved<S: NameSet>(references: &Vec<String>, resolves: &S, name: &str) -> (r: bool)
    ensures
        r == name_resolves(texts(references@), *resolves, name@),
{
    let ghost refs = texts(references@);
    let mut i: usize = 0;
    while i < references.len()
        invariant
            refs == texts(references@),
            i <= references@.len(),
            forall|j: int| 0 <= j < i ==> !(basename(#[trigger] refs[j]) == name@ && resolved(refs[j], *resolves)),
        decreases references@.len() - i,
    {
        assert(refs[i as int] == references@[i as int]@);
        let b = asset_basename(references[i].as_str());
        if crate::text::same(b.as_str(), name) && satisfied(references[i].as_str(), resolves) {
            return true;
        }
        i = i + 1;
    }
    false
}

/// Count references by file name, and how many file names resolve nowhere: one is
/// missing only when no reference to it resolves.
pub fn measure<S: NameSet>(references: &Vec<String>, resolves: &S) -> (r: RatioVerdict)
    ensures
        ({
            let refs = texts(references@);
            let names = distinct(basenames(refs));
            r.total == names.len() && r.missing == unresolved(names, refs, *resolves)
        }),
        r.missing <= r.total,
{
    let ghost refs = texts(references@);
    let ghost all = basenames(refs);
    let mut names: Vec<String> = Vec::new();
    let mut i: usize = 0;
    assert(texts(names@) =~= distinct(all.take(0)));
    while i < references.len()
        invariant
            refs == texts(references@),
            all == basenames(refs),
            i <= references@.len(),
            texts(names@) == distinct(all.take(i as int)),
        decreases references@.len() - i,
    {
        proof {
            lemma_take_next(all, i as int);
            assert(all[i as int] == basename(references@[i as int]@));
        }
        push_distinct(&mut names, asset_basename(references[i].as_str()));
        i = i + 1;
    }
    assert(all.take(i as int) =~= all);
    let ghost ns = texts(names@);
    let mut missing: usize = 0;
    let mut k: usize = 0;
    while k < names.len()
        invariant
            refs == texts(references@),
            ns == texts(names@),
            k <= names@.len(),
            missing <= k,
            missing == unresolved(ns.take(k as int), refs, *resolves),
        decreases names@.len() - k,
    {
        proof {
            lemma_take_next(ns, k as int);
        }
        if !is_name_resolved(references, resolves, names[k].as_str()) {
            missing = missing + 1;
        }
        k = k + 1;
    }
    assert(ns.take(k as int) =~= ns);
    RatioVerdict { missing, total: names.len() }
}

/// The references with one of the extensions, in any case.
pub open spec fn with_extensions(refs: Seq<Seq<char>>, extensions: Seq<String>) -> Seq<Seq<char>>
    decreases refs.len(),
{
    if refs.len() == 0 {
        Seq::empty()
    } else {
        let before = with_extensions(refs.drop_last(), extensions);
        if crate::detect::dead_asset::has_any_extension(refs.last(), extensions) {
            before.push(refs.last())
        } else {
            before
        }
    }
}

fn has_extension(reference: &str, extensions: &Vec<String>) -> (r: bool)
    ensures
        r == crate::detect::dead_asset::has_any_extension(reference@, extensions@),
{
    let lower = to_lower(reference);
    let mut i: usize = 0;
    while i < extensions.len()
        invariant
            lower@ == lowered(reference@),
            i <= extensions@.len(),
            forall|j: int| 0 <= j < i ==> !ends(lowered(reference@), lowered((#[trigger] extensions@[j])@)),
        decreases extensions@.len() - i,
    {
        let e = to_lower(extensions[i].as_str());
        if ends_with(lower.as_str(), e.as_str()) {
            return true;
        }
        i = i + 1;
    }
    false
}

fn select_extensions(references: &Vec<String>, extensions: &Vec<String>) -> (r: Vec<String>)
    ensures
        texts(r@) == with_extensions(texts(references@), extensions@),
{
    let ghost refs = texts(references@);
    let mut out: Vec<String> = Vec::new();
    let mut i: usize = 0;
    assert(texts(out@) =~= with_extensions(refs.take(0), extensions@));
    while i < references.len()
        invariant
            refs == texts(references@),
            i <= references@.len(),
            texts(out@) == with_extensions(refs.take(i as int), extensions@),
        decreases references@.len() - i,
    {
        proof {
            lemma_take_next(refs, i as int);
        }
        if has_extension(references[i].as_str(), extensions) {
            let ghost o = out@;
            out.push(references[i].clone());
            proof {
                lemma_texts_push(o, out@.last());
                assert(out@ =~= o.push(out@.last()));
            }
        }
        i = i + 1;
    }
    assert(refs.take(i as int) =~= refs);
    out
}

/// The reason for a tier.
pub open spec fn tier_reason(t: RatioTier, warn: Option<String>, fail: Option<String>) -> Option<Seq<char>> {
    match t {
        RatioTier::Fail => opt_text(fail),
        RatioTier::Warn => opt_text(warn),
    }
}

/// What one check finds.
pub open spec fn ratio_findings<S: NameSet>(
    check: RatioCheckConfig,
    catalog: ReasonCatalog,
    refs: Seq<Seq<char>>,
    resolves: S,
) -> Seq<Finding> {
    let matching = with_extensions(refs, check.extensions@);
    let names = distinct(basenames(matching));
    let missing = unresolved(names, matching, resolves);
    let v = RatioVerdict { missing: missing as usize, total: names.len() as usize };
    if !check.enabled || matching.len() == 0 {
        Seq::empty()
    } else {
        match ratio_tier(v, check.min_total, check.warn_at, check.fail_at) {
            Some(t) => match tier_reason(t, check.warn_reason, check.fail_reason) {
                Some(r) => seq![
                    Finding {
                        detail: Some(share_text(missing, names.len()) + " of referenced assets are missing"@),
                        ..finding(catalog, r, check.id@)
                    },
                ],
                None => Seq::empty(),
            },
            None => Seq::empty(),
        }
    }
}

/// What the checks find, in order.
pub open spec fn all_ratio_findings<S: NameSet>(
    checks: Seq<RatioCheckConfig>,
    catalog: ReasonCatalog,
    refs: Seq<Seq<char>>,
    resolves: S,
) -> Seq<Finding>
    decreases checks.len(),
{
    if checks.len() == 0 {
        Seq::empty()
    } else {
        all_ratio_findings(checks.drop_last(), catalog, refs, resolves) + ratio_findings(
            checks.last(),
            catalog,
            refs,
            resolves,
        )
    }
}

/// Run every configured proportion check over one mod: one finding per check that
/// crossed a threshold and has a reason for it.
pub fn run_all<S: NameSet>(
    checks: &Vec<RatioCheckConfig>,
    catalog: &ReasonCatalog,
    references: &Vec<String>,
    resolves: &S,
) -> (r: Vec<Diagnostic>)
    ensures
        findings(r@) == all_ratio_findings(checks@, *catalog, texts(references@), *resolves),
{
    let ghost refs = texts(references@);
    let mut out: Vec<Diagnostic> = Vec::new();
    let mut i: usize = 0;
    assert(findings(out@) =~= all_ratio_findings(checks@.take(0), *catalog, refs, *resolves));
    while i < checks.len()
        invariant
            refs == texts(references@),
            i <= checks@.len(),
            findings(out@) == all_ratio_findings(checks@.take(i as int), *catalog, refs, *resolves),
        decreases checks@.len() - i,
    {
        proof {
            lemma_take_next(checks@, i as int);
        }
        let ghost base = findings(out@);
        if let Some(d) = run_check(&checks[i], catalog, references, resolves) {
            let ghost o = out@;
            out.push(d);
            assert(findings(out@) =~= findings(o) + seq![d@]);
        } else {
            assert(findings(out@) =~= base + Seq::<Finding>::empty());
        }
        i = i + 1;
    }
    assert(checks@.take(i as int) =~= checks@);
    out
}

fn run_check<S: NameSet>(
    check: &RatioCheckConfig,
    catalog: &ReasonCatalog,
    references: &Vec<String>,
    resolves: &S,
) -> (r: Option<Diagnostic>)
    ensures
        r matches Some(d) ==> ratio_findings(*check, *catalog, texts(references@), *resolves) == seq![d@],
        r is None ==> ratio_findings(*check, *catalog, texts(references@), *resolves) == Seq::<Finding>::empty(),
{
    if !check.enabled {
        return None;
    }
    let matching = select_extensions(references, &check.extensions);
    assert(texts(matching@).len() == matching@.len());
    if matching.len() == 0 {
        return None;
    }
    let verdict = measure(&matching, resolves);
    let tier = match classify(&verdict, check.min_total, check.warn_at, check.fail_at) {
        Some(t) => t,
        None => {
            return None;
        },
    };
    let reason = match tier {
        RatioTier::Fail => &check.fail_reason,
        RatioTier::Warn => &check.warn_reason,
    };
    match reason {
        Some(r) => {
            let mut detail = verdict.describe();
            detail.append(" of referenced assets are missing");
            let d = Diagnostic::new(catalog, r.as_str(), check.id.as_str()).with_detail(detail.as_str());
            Some(d)
        },
        None => None,
    }
}

/// The share never leaves the range from nothing to everything, and a measurement with
/// nothing missing is never reported.
pub proof fn law_nothing_missing_is_silent(total: usize, min_total: usize, warn_at: u32, fail_at: u32)
    requires
        fail_at > 0,
    ensures
        ratio_tier(RatioVerdict { missing: 0, total }, min_total, warn_at, fail_at) is None,
{
    let t = total as nat;
    if t > 0 {
        assert(t * fail_at > 0) by (nonlinear_arith)
            requires
                t > 0,
                fail_at > 0,
        ;
        assert(t * warn_at >= 0) by (nonlinear_arith)
            requires
                t > 0,
                warn_at >= 0,
        ;
    }
}

/// A file name counts as missing only if none of its references resolves.
pub proof fn law_one_resolving_reference_is_enough<S: NameSet>(names: Seq<Seq<char>>, refs: Seq<Seq<char>>, resolves: S)
    requires
        forall|i: int| 0 <= i < names.len() ==> name_resolves(refs, resolves, #[trigger] names[i]),
    ensures
        unresolved(names, refs, resolves) == 0,
    decreases names.len(),
{
    if names.len() > 0 {
        let head = names.drop_last();
        assert forall|i: int| 0 <= i < head.len() implies name_resolves(refs, resolves, #[trigger] head[i]) by {
            assert(head[i] == names[i]);
        }
        law_one_resolving_reference_is_enough(head, refs, resolves);
        assert(name_resolves(refs, resolves, names[names.len() - 1]));
    }
}

/// The references that count are those with one of the extensions, in whatever case.
pub proof fn law_references_are_picked_by_extension(refs: Seq<Seq<char>>, extensions: Seq<String>, r: Seq<char>)
    ensures
        with_extensions(refs, extensions).contains(r) <==> refs.contains(r) && exists|i: int|
            0 <= i < extensions.len() && ends(lowered(r), lowered((#[trigger] extensions[i])@)),
    decreases refs.len(),
{
    if refs.len() > 0 {
        let head = refs.drop_last();
        law_references_are_picked_by_extension(head, extensions, r);
        assert(head.push(refs.last()) =~= refs);
        lemma_push_contains(head, refs.last(), r);
        lemma_push_contains(with_extensions(head, extensions), refs.last(), r);
    }
}

/// A reference resolves where its file is there under its own name, and a `.dds` texture
/// also where the `.tex` texture of the same stem is.
pub proof fn law_references_resolve_by_name_or_twin<S: NameSet>(resolves: S, reference: Seq<char>, stem: Seq<char>, tail: Seq<char>)
    ensures
        resolves.holds(reference) ==> resolved(reference, resolves),
        reference == stem + tail && tail.len() == 4 && ends(lowered(reference), ".dds"@) && lowered(".dds"@) == ".dds"@
            && resolves.holds(stem + ".tex"@) ==> resolved(reference, resolves),
        canonical_path(reference) matches Some(c) ==> (resolves.holds(c) ==> resolved(reference, resolves)),
{
    reveal_strlit(".dds");
    if reference == stem + tail && tail.len() == 4 {
        assert(reference.subrange(0, reference.len() - 4) =~= stem);
    }
}

/// A reference to no texture of the old kind, whose file is not there by its name or by the
/// part of its path from the character on, does not resolve.
pub proof fn law_absent_files_do_not_resolve<S: NameSet>(resolves: S, reference: Seq<char>)
    requires
        !resolves.holds(reference),
        canonical_path(reference) matches Some(c) ==> !resolves.holds(c),
        !ends(lowered(reference), lowered(".dds"@)),
    ensures
        !resolved(reference, resolves),
{
}

proof fn lemma_unresolved_bound<S: NameSet>(names: Seq<Seq<char>>, refs: Seq<Seq<char>>, resolves: S)
    ensures
        unresolved(names, refs, resolves) <= names.len(),
    decreases names.len(),
{
    if names.len() > 0 {
        lemma_unresolved_bound(names.drop_last(), refs, resolves);
    }
}

/// A name counts as missing where no reference of that name resolves: one more for each,
/// and all of them where nothing resolves.
pub proof fn law_names_without_a_file_are_missing<S: NameSet>(names: Seq<Seq<char>>, refs: Seq<Seq<char>>, resolves: S)
    ensures
        unresolved(names, refs, resolves) <= names.len(),
        (forall|i: int, k: int|
            0 <= i < refs.len() && 0 <= k < names.len() && basename(#[trigger] refs[i]) == #[trigger] names[k] ==> !resolved(
                refs[i],
                resolves,
            )) ==> unresolved(names, refs, resolves) == names.len(),
        (exists|k: int|
            0 <= k < names.len() && forall|i: int| 0 <= i < refs.len() ==> basename(#[trigger] refs[i]) != #[trigger] names[k] || !resolved(
                refs[i],
                resolves,
            )) ==> unresolved(names, refs, resolves) > 0,
    decreases names.len(),
{
    lemma_unresolved_bound(names, refs, resolves);
    if names.len() > 0 {
        let head = names.drop_last();
        law_names_without_a_file_are_missing(head, refs, resolves);
        assert(forall|k: int| 0 <= k < head.len() ==> #[trigger] head[k] == names[k]);
        assert(names.last() == names[names.len() - 1]);
        if exists|k: int|
            0 <= k < names.len() && forall|i: int| 0 <= i < refs.len() ==> basename(#[trigger] refs[i]) != #[trigger] names[k] || !resolved(
                refs[i],
                resolves,
            ) {
            let k = choose|k: int|
                0 <= k < names.len() && forall|i: int| 0 <= i < refs.len() ==> basename(#[trigger] refs[i]) != #[trigger] names[k]
                    || !resolved(refs[i], resolves);
            if k < head.len() {
                assert(head[k] == names[k]);
            }
        }
    }
}

/// A verdict fails from the level on at which it is to fail, warns above the level at which
/// it is to warn, and says nothing of too few references; levels are millionths.
pub proof fn law_levels_are_shares(missing: usize, total: usize, min_total: usize, warn_at: u32, fail_at: u32)
    requires
        total > 0,
    ensures
        ({
            let t = ratio_tier(RatioVerdict { missing, total }, min_total, warn_at, fail_at);
            &&& total < min_total ==> t is None
            &&& total >= min_total && missing * 1_000_000 >= total * fail_at ==> t == Some(RatioTier::Fail)
            &&& total >= min_total && missing * 1_000_000 < total * fail_at && missing * 1_000_000 > total * warn_at ==> t == Some(
                RatioTier::Warn,
            )
            &&& missing * 1_000_000 < total * fail_at && missing * 1_000_000 <= total * warn_at ==> t is None
        }),
{
}

/// The name of a file is what stands behind the last separator of either kind, in lower
/// case.
pub proof fn law_basename_drops_the_folders(dir: Seq<char>, sep: char, file: Seq<char>)
    requires
        sep == '/' || sep == '\\',
        !file.contains('/'),
        !file.contains('\\'),
    ensures
        basename(dir + seq![sep] + file) == lowered(file),
        basename(file) == lowered(file),
{
    let path = dir + seq![sep] + file;
    let s = swapped(path, '\\', '/');
    let n = dir.len() as int;
    assert forall|j: int| n < j < s.len() implies s[j] == file[j - n - 1] && s[j] != '/' by {
        assert(file.contains(file[j - n - 1]));
    }
    assert(s[n] == '/');
    assert(last_at(s, '/', n));
    lemma_last_position(s, '/', n);
    assert(s.skip(n + 1) =~= file);
    let f = swapped(file, '\\', '/');
    assert forall|j: int| 0 <= j < f.len() implies f[j] == file[j] && f[j] != '/' by {
        assert(file.contains(file[j]));
    }
    assert(f =~= file);
}

/// A mod none of whose watched assets is there fails an enabled check, with the reason for
/// failing, where it refers to enough of them; a check that is switched off says nothing.
pub proof fn law_mods_without_assets_fail<S: NameSet>(
    check: RatioCheckConfig,
    catalog: ReasonCatalog,
    refs: Seq<Seq<char>>,
    resolves: S,
    r: Seq<char>,
)
    requires
        check.fail_at <= 1_000_000,
        check.fail_reason is Some,
        refs.len() <= usize::MAX,
        with_extensions(refs, check.extensions@).contains(r),
        forall|i: int| 0 <= i < refs.len() ==> !resolved(#[trigger] refs[i], resolves),
        check.min_total <= distinct(basenames(with_extensions(refs, check.extensions@))).len(),
    ensures
        check.enabled ==> ratio_findings(check, catalog, refs, resolves).len() == 1 && ratio_findings(check, catalog, refs, resolves)[0].reason
            == check.fail_reason->0@,
        !check.enabled ==> ratio_findings(check, catalog, refs, resolves).len() == 0,
{
    let matching = with_extensions(refs, check.extensions@);
    let names = distinct(basenames(matching));
    lemma_distinct(basenames(matching));
    let k = choose|k: int| 0 <= k < matching.len() && matching[k] == r;
    assert(basenames(matching)[k] == basename(r));
    assert(basenames(matching).contains(basename(r)));
    assert(names.contains(basename(r)));
    assert forall|i: int| 0 <= i < matching.len() implies !resolved(#[trigger] matching[i], resolves) by {
        law_references_are_picked_by_extension(refs, check.extensions@, matching[i]);
        assert(matching.contains(matching[i]));
        let j = choose|j: int| 0 <= j < refs.len() && refs[j] == matching[i];
        assert(!resolved(refs[j], resolves));
    }
    law_names_without_a_file_are_missing(names, matching, resolves);
    lemma_sizes(refs, check.extensions@);
    let n = names.len();
    assert(n * 1_000_000 >= n * check.fail_at) by (nonlinear_arith)
        requires
            check.fail_at <= 1_000_000,
    ;
}

proof fn lemma_sizes(refs: Seq<Seq<char>>, extensions: Seq<String>)
    ensures
        with_extensions(refs, extensions).len() <= refs.len(),
        distinct(basenames(with_extensions(refs, extensions))).len() <= refs.len(),
    decreases refs.len(),
{
    lemma_extensions_len(refs, extensions);
    lemma_distinct_len(basenames(with_extensions(refs, extensions)));
}

proof fn lemma_extensions_len(refs: Seq<Seq<char>>, extensions: Seq<String>)
    ensures
        with_extensions(refs, extensions).len() <= refs.len(),
    decreases refs.len(),
{
    if refs.len() > 0 {
        lemma_extensions_len(refs.drop_last(), extensions);
    }
}

proof fn lemma_distinct_len(ss: Seq<Seq<char>>)
    ensures
        distinct(ss).len() <= ss.len(),
    decreases ss.len(),
{
    if ss.len() > 0 {
        lemma_distinct_len(ss.drop_last());
    }
}

} // verus!
