//! How a report is told: the verdict, and one line per reason under each severity.
//!
//! Checks that could not run are told as loudly as failing ones: a clean report of a mod
//! that nobody checked would be worse than none.

use vstd::prelude::*;
use vstd::string::*;
use crate::diagnostic::{copy_opt, findings, law_worst_is_the_worst, of_severity, opt_text, worst_of, CheckReport, Diagnostic, Finding, Severity};
use crate::text::{lemma_take_next, same};

verus! {

/// What a report says of a mod.
#[derive(Clone, Copy, Debug, PartialEq, Eq, Structural)]
pub enum Verdict {
    /// Nothing was found.
    Clean,
    /// Nothing was found, but some checks could not run.
    CleanAsFarAsChecked,
    Crashes,
    Unplayable,
    Problems,
    Notes,
}

/// What a report says of a mod.
pub open spec fn verdict_of(r: CheckReport) -> Verdict {
    if r.diagnostics@.len() == 0 {
        if r.skipped@.len() > 0 {
            Verdict::CleanAsFarAsChecked
        } else {
            Verdict::Clean
        }
    } else {
        match worst_of(findings(r.diagnostics@)) {
            Some(Severity::Crash) => Verdict::Crashes,
            Some(Severity::Unplayable) => Verdict::Unplayable,
            Some(Severity::Warning) => Verdict::Problems,
            _ => Verdict::Notes,
        }
    }
}

/// What a report says of a mod.
pub fn verdict(r: &CheckReport) -> (v: Verdict)
    ensures
        v == verdict_of(*r),
{
    if r.diagnostics.len() == 0 {
        if r.incomplete() {
            Verdict::CleanAsFarAsChecked
        } else {
            Verdict::Clean
        }
    } else {
        match r.worst() {
            Some(Severity::Crash) => Verdict::Crashes,
            Some(Severity::Unplayable) => Verdict::Unplayable,
            Some(Severity::Warning) => Verdict::Problems,
            _ => Verdict::Notes,
        }
    }
}

/// One reason, with the number of its findings and the detail of the first.
#[derive(Debug)]
pub struct ReasonLine {
    pub reason: String,
    pub count: usize,
    pub sample: Option<String>,
}

/// One reason, with the number of its findings and the detail of the first.
#[verifier::ext_equal]
pub struct Line {
    pub reason: Seq<char>,
    pub count: nat,
    pub sample: Option<Seq<char>>,
}

impl View for ReasonLine {
    type V = Line;

    open spec fn view(&self) -> Line {
        Line { reason: self.reason@, count: self.count as nat, sample: opt_text(self.sample) }
    }
}

/// The contents of a list of lines.
pub open spec fn lines(v: Seq<ReasonLine>) -> Seq<Line> {
    v.map_values(|l: ReasonLine| l@)
}

/// The line of a reason stands at `i`.
pub open spec fn line_at(ls: Seq<Line>, reason: Seq<char>, i: int) -> bool {
    0 <= i < ls.len() && ls[i].reason == reason && forall|j: int| 0 <= j < i ==> (#[trigger] ls[j]).reason != reason
}

/// The lines with one finding more.
pub open spec fn counted(ls: Seq<Line>, f: Finding) -> Seq<Line> {
    if exists|i: int| line_at(ls, f.reason, i) {
        let i = choose|i: int| line_at(ls, f.reason, i);
        ls.update(i, Line { count: ls[i].count + 1, ..ls[i] })
    } else {
        ls.push(Line { reason: f.reason, count: 1, sample: f.detail })
    }
}

/// One line per reason, in the order of its first finding.
pub open spec fn grouped(fs: Seq<Finding>) -> Seq<Line>
    decreases fs.len(),
{
    if fs.len() == 0 {
        Seq::empty()
    } else {
        counted(grouped(fs.drop_last()), fs.last())
    }
}

proof fn lemma_counts_bounded(fs: Seq<Finding>)
    ensures
        forall|i: int| 0 <= i < grouped(fs).len() ==> (#[trigger] grouped(fs)[i]).count <= fs.len(),
    decreases fs.len(),
{
    if fs.len() > 0 {
        lemma_counts_bounded(fs.drop_last());
        let ls = grouped(fs.drop_last());
        let f = fs.last();
        if exists|i: int| line_at(ls, f.reason, i) {
            let i = choose|i: int| line_at(ls, f.reason, i);
            assert(line_at(ls, f.reason, i));
        }
    }
}

/// Group findings: one line per reason with a count, so that a mod with two hundred stale
/// textures reads as one problem.
pub fn group_by_reason(list: &Vec<Diagnostic>) -> (r: Vec<ReasonLine>)
    ensures
        lines(r@) == grouped(findings(list@)),
{
    let ghost fs = findings(list@);
    let mut out: Vec<ReasonLine> = Vec::new();
    let mut i: usize = 0;
    assert(lines(out@) =~= grouped(fs.take(0)));
    while i < list.len()
        invariant
            fs == findings(list@),
            i <= list@.len(),
            lines(out@) == grouped(fs.take(i as int)),
        decreases list@.len() - i,
    {
        let d = &list[i];
        let ghost ls = lines(out@);
        proof {
            lemma_take_next(fs, i as int);
            assert(fs[i as int] == d@);
            lemma_counts_bounded(fs.take(i as int));
        }
        let mut k: usize = 0;
        let n = out.len();
        let ghost before = out@;
        while k < n && !same(out[k].reason.as_str(), d.reason.as_str())
            invariant
                out@ == before,
                n == out@.len(),
                ls == lines(out@),
                k <= n,
                forall|j: int| 0 <= j < k ==> (#[trigger] ls[j]).reason != d.reason@,
            decreases n - k,
        {
            assert(ls[k as int] == out@[k as int]@);
            k = k + 1;
        }
        if k < n {
            proof {
                assert(ls[k as int] == out@[k as int]@);
                assert(line_at(ls, d.reason@, k as int));
                let m = choose|m: int| line_at(ls, d.reason@, m);
                assert(line_at(ls, d.reason@, m));
                if m < k {
                    assert(ls[m].reason != d.reason@);
                }
                if k < m {
                    assert(ls[k as int].reason != d.reason@);
                }
                assert(ls[k as int].count <= i);
            }
            out[k].count = out[k].count + 1;
            assert(lines(out@) =~= counted(ls, d@));
        } else {
            assert(forall|m: int| !line_at(ls, d.reason@, m));
            out.push(ReasonLine { reason: d.reason.clone(), count: 1, sample: copy_opt(&d.detail) });
            assert(lines(out@) =~= counted(ls, d@));
        }
        i = i + 1;
    }
    assert(fs.take(i as int) =~= fs);
    out
}

/// The lines of one severity.
pub fn lines_at(report: &CheckReport, severity: Severity) -> (r: Vec<ReasonLine>)
    ensures
        lines(r@) == grouped(of_severity(findings(report.diagnostics@), severity)),
{
    let list = report.at(severity);
    group_by_reason(&list)
}

/// The number of findings behind some lines.
pub open spec fn total_count(ls: Seq<Line>) -> nat
    decreases ls.len(),
{
    if ls.len() == 0 {
        0
    } else {
        total_count(ls.drop_last()) + ls.last().count
    }
}

proof fn lemma_count_update(ls: Seq<Line>, i: int)
    requires
        0 <= i < ls.len(),
    ensures
        total_count(ls.update(i, Line { count: ls[i].count + 1, ..ls[i] })) == total_count(ls) + 1,
    decreases ls.len(),
{
    let now = ls.update(i, Line { count: ls[i].count + 1, ..ls[i] });
    if i < ls.len() - 1 {
        lemma_count_update(ls.drop_last(), i);
        assert(now.drop_last() =~= ls.drop_last().update(i, Line { count: ls[i].count + 1, ..ls[i] }));
    } else {
        assert(now.drop_last() =~= ls.drop_last());
    }
}

/// No finding is lost in grouping, and no reason is told twice.
pub proof fn law_grouping_loses_nothing(fs: Seq<Finding>)
    ensures
        total_count(grouped(fs)) == fs.len(),
        forall|i: int, j: int|
            0 <= i < j < grouped(fs).len() ==> (#[trigger] grouped(fs)[i]).reason != (#[trigger] grouped(fs)[j]).reason,
    decreases fs.len(),
{
    if fs.len() > 0 {
        law_grouping_loses_nothing(fs.drop_last());
        let ls = grouped(fs.drop_last());
        let f = fs.last();
        if exists|i: int| line_at(ls, f.reason, i) {
            let i = choose|i: int| line_at(ls, f.reason, i);
            assert(line_at(ls, f.reason, i));
            lemma_count_update(ls, i);
        } else {
            let new = Line { reason: f.reason, count: 1, sample: f.detail };
            assert(ls.push(new).drop_last() =~= ls);
            assert forall|i: int| 0 <= i < ls.len() implies (#[trigger] ls[i]).reason != f.reason by {
                if ls[i].reason == f.reason {
                    lemma_first_line(ls, f.reason, i);
                }
            }
        }
    }
}

proof fn lemma_first_line(ls: Seq<Line>, reason: Seq<char>, i: int)
    requires
        0 <= i < ls.len(),
        ls[i].reason == reason,
    ensures
        exists|k: int| line_at(ls, reason, k),
    decreases i,
{
    if forall|j: int| 0 <= j < i ==> (#[trigger] ls[j]).reason != reason {
        assert(line_at(ls, reason, i));
    } else {
        let j = choose|j: int| 0 <= j < i && (#[trigger] ls[j]).reason == reason;
        lemma_first_line(ls, reason, j);
    }
}

/// "Nothing found" is said only where everything was checked.
pub proof fn law_clean_means_checked(r: CheckReport)
    requires
        verdict_of(r) == Verdict::Clean,
    ensures
        r.diagnostics@.len() == 0,
        r.skipped@.len() == 0,
{
}

/// The verdict names the worst that was found, and nothing is clean with a finding.
pub proof fn law_verdict_names_the_worst(r: CheckReport, i: int)
    ensures
        0 <= i < r.diagnostics@.len() && r.diagnostics@[i].severity == Severity::Crash ==> verdict_of(r) == Verdict::Crashes,
        0 <= i < r.diagnostics@.len() && r.diagnostics@[i].severity == Severity::Unplayable ==> verdict_of(r) == Verdict::Crashes
            || verdict_of(r) == Verdict::Unplayable,
        0 <= i < r.diagnostics@.len() && r.diagnostics@[i].severity == Severity::Warning ==> verdict_of(r) == Verdict::Crashes
            || verdict_of(r) == Verdict::Unplayable || verdict_of(r) == Verdict::Problems,
        0 <= i < r.diagnostics@.len() ==> verdict_of(r) != Verdict::Clean && verdict_of(r) != Verdict::CleanAsFarAsChecked,
        verdict_of(r) == Verdict::Crashes ==> exists|k: int|
            0 <= k < r.diagnostics@.len() && (#[trigger] r.diagnostics@[k]).severity == Severity::Crash,
        verdict_of(r) == Verdict::Unplayable ==> exists|k: int|
            0 <= k < r.diagnostics@.len() && (#[trigger] r.diagnostics@[k]).severity == Severity::Unplayable,
        verdict_of(r) == Verdict::Problems ==> exists|k: int|
            0 <= k < r.diagnostics@.len() && (#[trigger] r.diagnostics@[k]).severity == Severity::Warning,
        r.diagnostics@.len() == 0 && r.skipped@.len() > 0 ==> verdict_of(r) == Verdict::CleanAsFarAsChecked,
        r.diagnostics@.len() == 0 && r.skipped@.len() == 0 ==> verdict_of(r) == Verdict::Clean,
{
    let fs = findings(r.diagnostics@);
    law_worst_is_the_worst(fs, i);
    if 0 <= i < fs.len() {
        assert(fs[i].severity == r.diagnostics@[i].severity);
    }
    if let Some(w) = worst_of(fs) {
        let k = choose|k: int| 0 <= k < fs.len() && (#[trigger] fs[k]).severity == w;
        assert(r.diagnostics@[k].severity == w);
    }
}

proof fn lemma_counted(ls: Seq<Line>, f: Finding, reason: Seq<char>)
    ensures
        reason_count(counted(ls, f), reason) == reason_count(ls, reason) + (if f.reason == reason { 1nat } else { 0nat }),
{
    if exists|i: int| line_at(ls, f.reason, i) {
        let i = choose|i: int| line_at(ls, f.reason, i);
        lemma_reason_update(ls, i, Line { count: ls[i].count + 1, ..ls[i] }, reason);
    } else {
        let l = Line { reason: f.reason, count: 1, sample: f.detail };
        assert(ls.push(l).drop_last() =~= ls);
    }
}

/// How often the lines count a reason.
pub open spec fn reason_count(ls: Seq<Line>, reason: Seq<char>) -> nat
    decreases ls.len(),
{
    if ls.len() == 0 {
        0
    } else {
        reason_count(ls.drop_last(), reason) + (if ls.last().reason == reason { ls.last().count } else { 0 })
    }
}

proof fn lemma_reason_update(ls: Seq<Line>, i: int, l: Line, reason: Seq<char>)
    requires
        0 <= i < ls.len(),
        l.reason == ls[i].reason,
        l.count == ls[i].count + 1,
    ensures
        reason_count(ls.update(i, l), reason) == reason_count(ls, reason) + (if l.reason == reason { 1nat } else { 0nat }),
    decreases ls.len(),
{
    let out = ls.update(i, l);
    if i < ls.len() - 1 {
        assert(out.drop_last() =~= ls.drop_last().update(i, l));
        lemma_reason_update(ls.drop_last(), i, l, reason);
    } else {
        assert(out.drop_last() =~= ls.drop_last());
    }
}

/// How many findings have a reason.
pub open spec fn findings_with(fs: Seq<Finding>, reason: Seq<char>) -> nat
    decreases fs.len(),
{
    if fs.len() == 0 {
        0
    } else {
        findings_with(fs.drop_last(), reason) + (if fs.last().reason == reason { 1nat } else { 0nat })
    }
}

/// The lines count every reason as often as findings have it.
pub proof fn law_reasons_are_counted(fs: Seq<Finding>, reason: Seq<char>)
    ensures
        reason_count(grouped(fs), reason) == findings_with(fs, reason),
    decreases fs.len(),
{
    if fs.len() > 0 {
        law_reasons_are_counted(fs.drop_last(), reason);
        lemma_counted(grouped(fs.drop_last()), fs.last(), reason);
    }
}

} // verus!
