//! How a report is told.

use hematite::crashcheck::{lines_at, verdict, Verdict};
use hematite::diagnostic::{CheckReport, Diagnostic, Severity, SkipReason};

#[test]
fn nothing_found_is_not_nothing_checked() {
    let mut r = CheckReport::new();
    assert_eq!(verdict(&r), Verdict::Clean);
    r.mark_skipped("rule", SkipReason::NoGameDir);
    assert_eq!(verdict(&r), Verdict::CleanAsFarAsChecked);
}

#[test]
fn the_worst_finding_is_the_verdict() {
    let mut r = CheckReport::new();
    r.push(Diagnostic::with_resolved_severity("note", Severity::Info, "rule"));
    assert_eq!(verdict(&r), Verdict::Notes);
    r.push(Diagnostic::with_resolved_severity("stale", Severity::Warning, "rule"));
    assert_eq!(verdict(&r), Verdict::Problems);
    r.push(Diagnostic::with_resolved_severity("hud", Severity::Unplayable, "rule"));
    assert_eq!(verdict(&r), Verdict::Unplayable);
    r.push(Diagnostic::with_resolved_severity("boom", Severity::Crash, "rule"));
    assert_eq!(verdict(&r), Verdict::Crashes);
}

#[test]
fn one_line_per_reason_with_a_count() {
    let mut r = CheckReport::new();
    r.push(Diagnostic::with_resolved_severity("a", Severity::Warning, "rule").with_detail("first"));
    r.push(Diagnostic::with_resolved_severity("b", Severity::Warning, "rule"));
    r.push(Diagnostic::with_resolved_severity("a", Severity::Warning, "rule").with_detail("second"));
    r.push(Diagnostic::with_resolved_severity("c", Severity::Crash, "rule"));
    let lines = lines_at(&r, Severity::Warning);
    assert_eq!(lines.len(), 2);
    assert_eq!(lines[0].reason, "a");
    assert_eq!(lines[0].count, 2);
    assert_eq!(lines[0].sample.as_deref(), Some("first"));
    assert_eq!(lines[1].reason, "b");
    assert_eq!(lines[1].count, 1);
    assert_eq!(lines[1].sample, None);
    assert_eq!(lines.iter().map(|l| l.count).sum::<usize>(), r.at(Severity::Warning).len());
}
