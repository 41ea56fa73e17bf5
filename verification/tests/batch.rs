//! Checking many mods in one run.

use hematite::batch::{
    batch_entry, discover, is_mod_name, is_path_less, order_entries, rank, summarise, tally, worker_count, BatchEntry, BatchTally,
};
use hematite::diagnostic::{CheckReport, Diagnostic, ReasonCatalog, ReasonDef, Severity};

fn entry(path: &str, worst: Option<Severity>, error: Option<&str>) -> BatchEntry {
    let report = worst.map(|sev| {
        let mut r = CheckReport::new();
        r.push(Diagnostic::with_resolved_severity("x", sev, "rule"));
        r
    });
    BatchEntry { path: path.to_string(), report, error: error.map(str::to_string) }
}

#[test]
fn worst_reads_through_to_the_report() {
    assert_eq!(entry("a", Some(Severity::Crash), None).worst(), Some(Severity::Crash));
    assert_eq!(entry("b", None, None).worst(), None);
}

#[test]
fn an_unreadable_mod_has_no_verdict() {
    let e = entry("c", None, Some("bad zip"));
    assert!(e.worst().is_none());
    assert!(e.error.is_some());
}

#[test]
fn discovery_finds_archives_and_ignores_other_files() {
    let listing: Vec<(String, bool)> = vec![
        ("a.fantome".to_string(), false),
        ("b.zip".to_string(), false),
        ("notes.txt".to_string(), false),
        ("Jhin.wad.client".to_string(), true),
        ("random_folder".to_string(), true),
    ];
    let names = discover(&listing);
    assert_eq!(names, vec!["Jhin.wad.client", "a.fantome", "b.zip"]);
}

#[test]
fn an_archive_file_is_not_a_mod_folder() {
    assert!(is_mod_name("X.WAD.CLIENT", true));
    assert!(!is_mod_name("X.wad.client", false));
    assert!(is_mod_name("PACK.MODPKG", false));
}

#[test]
fn workers_are_capped_at_the_mods() {
    assert_eq!(worker_count(0, Some(8), 3), 3);
    assert_eq!(worker_count(0, Some(2), 3), 2);
    assert_eq!(worker_count(0, None, 10), 4);
    assert_eq!(worker_count(6, Some(2), 10), 6);
    assert_eq!(worker_count(6, Some(2), 0), 1);
}

#[test]
fn the_most_urgent_comes_first() {
    let list = vec![
        entry("z", None, None),
        entry("d", Some(Severity::Warning), None),
        entry("c", Some(Severity::Crash), None),
        entry("b", Some(Severity::Unplayable), None),
        entry("y", None, Some("bad zip")),
        entry("a", Some(Severity::Crash), None),
        entry("e", Some(Severity::Info), None),
    ];
    let order: Vec<&str> = order_entries(&list).into_iter().map(|i| list[i].path.as_str()).collect();
    assert_eq!(order, vec!["y", "a", "c", "b", "d", "e", "z"]);
    assert_eq!(rank(&list[4]), 0);
    assert_eq!(rank(&list[6]), 4);
    assert_eq!(tally(&list), BatchTally { crashing: 2, unplayable: 1, clean: 1, unreadable: 1 });
}

#[test]
fn a_summary_names_each_worst_reason_once() {
    let mut r = CheckReport::new();
    r.reasons = ReasonCatalog {
        reasons: vec![(
            "known".to_string(),
            ReasonDef { severity: Severity::Crash, title: "A title".into(), explain: String::new(), remedy: None, author: None },
        )],
    };
    r.push(Diagnostic::with_resolved_severity("unknown", Severity::Crash, "rule"));
    r.push(Diagnostic::with_resolved_severity("known", Severity::Crash, "rule"));
    r.push(Diagnostic::with_resolved_severity("known", Severity::Crash, "other"));
    r.push(Diagnostic::with_resolved_severity("minor", Severity::Warning, "rule"));
    let e = batch_entry("mods/a.fantome", Ok(r));
    assert_eq!(summarise(&e), "A title, unknown");
    assert_eq!(summarise(&entry("b", None, Some("bad zip"))), "");
}

#[test]
fn an_unreadable_mod_keeps_its_error() {
    let e = batch_entry("mods/a.fantome", Err("bad zip".to_string()));
    assert!(e.report.is_none());
    assert_eq!(e.error.as_deref(), Some("bad zip"));
}

#[test]
fn paths_are_compared_component_by_component() {
    let list = vec![entry("a-b", None, None), entry("a/b", None, None), entry("a//b", None, None), entry("/z", None, None)];
    let order: Vec<&str> = order_entries(&list).into_iter().map(|i| list[i].path.as_str()).collect();
    assert_eq!(order, vec!["/z", "a/b", "a//b", "a-b"]);
    assert!(is_path_less("./x", "../x"));
    assert!(is_path_less("../x", "-x"));
    assert!(is_path_less("a", "a/b"));
    assert!(!is_path_less("a/./b", "a/b") && !is_path_less("a/b", "a/./b"));
}
