//! Which versions may run.

use hematite::version_check::{
    check_version, default_download_url, default_severity, is_blocked, is_current, is_older, permissive_manifest, report, tone, trim_notes,
    Advisory, Notice, Tone, VersionManifest, VersionStatus,
};

fn manifest(latest: &str, minimum: &str) -> VersionManifest {
    VersionManifest {
        latest_cli_version: latest.into(),
        min_cli_version: minimum.into(),
        download_url: default_download_url(),
        release_notes: String::new(),
        advisories: vec![],
    }
}

#[test]
fn embedded_manifest_parses() {
    let m = permissive_manifest();
    assert_eq!(m.latest_cli_version, "0.0.0");
    assert_eq!(m.min_cli_version, "0.0.0");
}

#[test]
fn is_older_basic_semver() {
    assert!(is_older("0.1.0", "0.2.0"));
    assert!(!is_older("0.2.0", "0.2.0"));
    assert!(!is_older("0.3.0", "0.2.0"));
}

#[test]
fn is_older_permissive_on_garbage() {
    assert!(!is_older("not-a-version", "0.2.0"));
    assert!(!is_older("0.2.0", "also-not-a-version"));
}

#[test]
fn outdated_status_when_below_minimum() {
    let manifest = manifest("1.0.0", "1.0.0");
    let running = "0.5.0";
    assert!(is_older(running, &manifest.min_cli_version));
    assert!(is_older(running, &manifest.latest_cli_version));
    let outcome = check_version(running, manifest);
    assert!(matches!(outcome.status, VersionStatus::Outdated { .. }));
}

#[test]
fn permissive_default_yields_unknown() {
    let m = permissive_manifest();
    let running = "2.2.0";
    assert!(!is_older(running, &m.min_cli_version));
    assert!(!is_older(running, &m.latest_cli_version));
    let outcome = check_version(running, m);
    assert!(matches!(outcome.status, VersionStatus::Unknown));
    assert!(is_current(&outcome.status));
}

#[test]
fn a_prerelease_is_older_than_its_release() {
    assert!(is_older("1.0.0-alpha", "1.0.0"));
    assert!(is_older("1.9.0", "1.10.0"));
}

#[test]
fn an_update_is_told_and_does_not_block() {
    let outcome = check_version("1.5.0", manifest("2.0.0", "1.0.0"));
    assert!(matches!(outcome.status, VersionStatus::UpdateAvailable { .. }));
    assert!(!is_blocked(&outcome.status, false));
    let (notice, blocked) = report(&outcome, false);
    assert!(!blocked);
    assert!(matches!(notice, Some(Notice::Update { .. })));
}

#[test]
fn an_outdated_program_is_blocked_unless_that_is_skipped() {
    let outcome = check_version("0.5.0", manifest("2.0.0", "1.0.0"));
    assert!(is_blocked(&outcome.status, false));
    assert!(!is_blocked(&outcome.status, true));
    assert!(report(&outcome, false).1);
    assert!(!report(&outcome, true).1);
}

#[test]
fn a_current_program_is_told_nothing() {
    let outcome = check_version("2.0.0", manifest("2.0.0", "1.0.0"));
    assert!(matches!(outcome.status, VersionStatus::UpToDate));
    let (notice, blocked) = report(&outcome, false);
    assert!(notice.is_none());
    assert!(!blocked);
}

#[test]
fn advisories_are_noticed() {
    let mut m = manifest("2.0.0", "1.0.0");
    m.advisories = vec![Advisory { title: "Heads up".into(), body: String::new(), severity: default_severity() }];
    let outcome = check_version("2.0.0", m);
    assert!(matches!(outcome.status, VersionStatus::UpToDate));
    assert!(outcome.has_advisories);
    assert_eq!(outcome.advisories[0].title, "Heads up");
    assert_eq!(tone("error"), Tone::Error);
    assert_eq!(tone("warn"), Tone::Warn);
    assert_eq!(tone("anything"), Tone::Info);
}

#[test]
fn long_notes_are_trimmed() {
    assert_eq!(trim_notes("short"), "short");
    assert_eq!(trim_notes(&"x".repeat(280)), "x".repeat(280));
    assert_eq!(trim_notes(&"x".repeat(281)), format!("{}\u{2026}", "x".repeat(280)));
    assert_eq!(trim_notes(&"\u{e9}".repeat(150)), format!("{}\u{2026}", "\u{e9}".repeat(150)));
}
