//! What a run did: counts, errors, repairs and findings.

use vstd::prelude::*;
use vstd::string::*;
use crate::diagnostic::{findings, skips, CheckReport};
use crate::text::texts;
use crate::walk::add_count;

verus! {

/// A repair that was carried out.
#[derive(Debug)]
pub struct AppliedFix {
    pub fix_id: String,
    pub fix_name: String,
    pub changes_count: u32,
    pub file_path: String,
}

/// What a repair that was carried out is.
#[verifier::ext_equal]
pub struct Applied {
    pub fix_id: Seq<char>,
    pub fix_name: Seq<char>,
    pub changes: u32,
    pub file: Seq<char>,
}

impl View for AppliedFix {
    type V = Applied;

    open spec fn view(&self) -> Applied {
        Applied { fix_id: self.fix_id@, fix_name: self.fix_name@, changes: self.changes_count, file: self.file_path@ }
    }
}

/// The contents of a list of repairs.
pub open spec fn repairs(v: Seq<AppliedFix>) -> Seq<Applied> {
    v.map_values(|a: AppliedFix| a@)
}

/// What check mode tells about a mod.
#[derive(Debug)]
pub struct CheckInfo {
    pub champion: Option<String>,
    pub skin_number: Option<u32>,
    pub is_binless: bool,
    pub detected_issues: Vec<String>,
}

/// What a run did.
#[derive(Debug)]
pub struct ProcessResult {
    pub files_processed: u32,
    pub fixes_applied: u32,
    pub fixes_failed: u32,
    pub files_removed: u32,
    pub errors: Vec<String>,
    pub applied_fixes: Vec<AppliedFix>,
    pub report: CheckReport,
    pub check_info: Option<CheckInfo>,
}

/// The sum of two counts, which stop at the largest.
pub open spec fn sum(a: u32, b: u32) -> u32 {
    if a + b > u32::MAX {
        u32::MAX
    } else {
        (a + b) as u32
    }
}

/// `c` is what `a` and then `b` did: counts are summed, lists are put behind, and what
/// check mode told first stays.
pub open spec fn merged(a: ProcessResult, b: ProcessResult, c: ProcessResult) -> bool {
    &&& c.files_processed == sum(a.files_processed, b.files_processed)
    &&& c.fixes_applied == sum(a.fixes_applied, b.fixes_applied)
    &&& c.fixes_failed == sum(a.fixes_failed, b.fixes_failed)
    &&& c.files_removed == sum(a.files_removed, b.files_removed)
    &&& texts(c.errors@) == texts(a.errors@) + texts(b.errors@)
    &&& repairs(c.applied_fixes@) == repairs(a.applied_fixes@) + repairs(b.applied_fixes@)
    &&& findings(c.report.diagnostics@) == findings(a.report.diagnostics@) + findings(b.report.diagnostics@)
    &&& skips(c.report.skipped@) == skips(a.report.skipped@) + skips(b.report.skipped@)
    &&& texts(c.report.ran@) == texts(a.report.ran@) + texts(b.report.ran@)
    &&& c.report.reasons == (if a.report.reasons.reasons@.len() == 0 { b.report.reasons } else { a.report.reasons })
    &&& c.check_info == (if a.check_info is Some { a.check_info } else { b.check_info })
}

impl ProcessResult {
    /// A run that has done nothing.
    pub fn new() -> (r: ProcessResult)
        ensures
            r.files_processed == 0,
            r.fixes_applied == 0,
            r.fixes_failed == 0,
            r.files_removed == 0,
            r.errors@.len() == 0,
            r.applied_fixes@.len() == 0,
            r.report.diagnostics@.len() == 0,
            r.report.skipped@.len() == 0,
            r.report.ran@.len() == 0,
            r.report.reasons.reasons@.len() == 0,
            r.check_info is None,
    {
        ProcessResult {
            files_processed: 0,
            fixes_applied: 0,
            fixes_failed: 0,
            files_removed: 0,
            errors: Vec::new(),
            applied_fixes: Vec::new(),
            report: CheckReport::new(),
            check_info: None,
        }
    }

    /// Add what another run did.
    pub fn merge(&mut self, other: ProcessResult)
        ensures
            merged(*old(self), other, *final(self)),
    {
        let ghost errors = self.errors@;
        let ghost applied = self.applied_fixes@;
        self.files_processed = add_count(self.files_processed, other.files_processed);
        self.fixes_applied = add_count(self.fixes_applied, other.fixes_applied);
        self.fixes_failed = add_count(self.fixes_failed, other.fixes_failed);
        self.files_removed = add_count(self.files_removed, other.files_removed);
        let mut more_errors = other.errors;
        self.errors.append(&mut more_errors);
        let mut more_fixes = other.applied_fixes;
        self.applied_fixes.append(&mut more_fixes);
        self.report.absorb(other.report);
        if self.check_info.is_none() {
            self.check_info = other.check_info;
        }
        assert(texts(self.errors@) =~= texts(errors) + texts(other.errors@));
        assert(repairs(self.applied_fixes@) =~= repairs(applied) + repairs(other.applied_fixes@));
    }
}

/// The names of the repairs, in order.
pub open spec fn fix_names(v: Seq<AppliedFix>) -> Seq<Seq<char>> {
    v.map_values(|a: AppliedFix| a.fix_name@)
}

impl ProcessResult {
    /// The names of the repairs, in order: what check mode lists as detected.
    pub fn detected_issues(&self) -> (r: Vec<String>)
        ensures
            texts(r@) == fix_names(self.applied_fixes@),
    {
        let mut out: Vec<String> = Vec::new();
        let mut i: usize = 0;
        while i < self.applied_fixes.len()
            invariant
                i <= self.applied_fixes@.len(),
                out@.len() == i,
                forall|j: int| 0 <= j < i ==> (#[trigger] out@[j])@ == self.applied_fixes@[j].fix_name@,
            decreases self.applied_fixes@.len() - i,
        {
            out.push(self.applied_fixes[i].fix_name.clone());
            i = i + 1;
        }
        assert(texts(out@) =~= fix_names(self.applied_fixes@));
        out
    }

    /// Whether the run ended without an error.
    pub fn is_clean(&self) -> (r: bool)
        ensures
            r == (self.errors@.len() == 0),
    {
        self.errors.len() == 0
    }
}

/// Merging runs in either grouping gives the same counts.
pub proof fn law_counts_merge_in_any_grouping(a: u32, b: u32, c: u32)
    ensures
        sum(sum(a, b), c) == sum(a, sum(b, c)),
        sum(a, b) == sum(b, a),
        sum(a, 0) == a,
{
}

/// A merged result has what both had: the errors, repairs and findings of the one and then
/// those of the other, and their counts together.
pub proof fn law_merging_loses_nothing(a: ProcessResult, b: ProcessResult, c: ProcessResult, i: int)
    requires
        merged(a, b, c),
    ensures
        0 <= i < a.errors@.len() ==> i < c.errors@.len() && c.errors@[i]@ == a.errors@[i]@,
        0 <= i < b.errors@.len() ==> a.errors@.len() + i < c.errors@.len() && c.errors@[a.errors@.len() + i]@ == b.errors@[i]@,
        0 <= i < a.applied_fixes@.len() ==> i < c.applied_fixes@.len() && c.applied_fixes@[i]@ == a.applied_fixes@[i]@,
        0 <= i < b.applied_fixes@.len() ==> a.applied_fixes@.len() + i < c.applied_fixes@.len() && c.applied_fixes@[a.applied_fixes@.len()
            + i]@ == b.applied_fixes@[i]@,
        0 <= i < a.report.diagnostics@.len() ==> i < c.report.diagnostics@.len() && c.report.diagnostics@[i]@
            == a.report.diagnostics@[i]@,
        0 <= i < b.report.diagnostics@.len() ==> a.report.diagnostics@.len() + i < c.report.diagnostics@.len()
            && c.report.diagnostics@[a.report.diagnostics@.len() + i]@ == b.report.diagnostics@[i]@,
        a.fixes_applied + b.fixes_applied <= u32::MAX ==> c.fixes_applied == a.fixes_applied + b.fixes_applied,
        a.fixes_failed + b.fixes_failed <= u32::MAX ==> c.fixes_failed == a.fixes_failed + b.fixes_failed,
        a.files_processed + b.files_processed <= u32::MAX ==> c.files_processed == a.files_processed + b.files_processed,
        a.files_removed + b.files_removed <= u32::MAX ==> c.files_removed == a.files_removed + b.files_removed,
        a.check_info is Some ==> c.check_info == a.check_info,
        a.check_info is None ==> c.check_info == b.check_info,
{
    assert(texts(c.errors@).len() == c.errors@.len());
    assert(repairs(c.applied_fixes@).len() == c.applied_fixes@.len());
    assert(findings(c.report.diagnostics@).len() == c.report.diagnostics@.len());
    if 0 <= i < a.errors@.len() {
        assert(texts(c.errors@)[i] == texts(a.errors@)[i]);
    }
    if 0 <= i < b.errors@.len() {
        assert(texts(c.errors@)[a.errors@.len() + i] == texts(b.errors@)[i]);
    }
    if 0 <= i < a.applied_fixes@.len() {
        assert(repairs(c.applied_fixes@)[i] == repairs(a.applied_fixes@)[i]);
    }
    if 0 <= i < b.applied_fixes@.len() {
        assert(repairs(c.applied_fixes@)[a.applied_fixes@.len() + i] == repairs(b.applied_fixes@)[i]);
    }
    if 0 <= i < a.report.diagnostics@.len() {
        assert(findings(c.report.diagnostics@)[i] == findings(a.report.diagnostics@)[i]);
    }
    if 0 <= i < b.report.diagnostics@.len() {
        assert(findings(c.report.diagnostics@)[a.report.diagnostics@.len() + i] == findings(b.report.diagnostics@)[i]);
    }
}

} // verus!
