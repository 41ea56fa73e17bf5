//! The version gate: which versions of the program may run.
//!
//! A manifest names the latest version and the oldest one that still works. A program
//! older than that refuses to run, one older than the latest says so, and a manifest
//! that cannot be understood never stops anyone.

use vstd::prelude::*;
use vstd::string::*;
use vstd::utf8::*;
use crate::text::{all_digits, digits_value, pieces, same, slice};

verus! {

/// A part of a version: digits without a leading zero that fit 64 bits.
pub open spec fn is_numeric_part(s: Seq<char>) -> bool {
    s.len() > 0 && all_digits(s, 10) && (s.len() == 1 || s[0] != '0') && digits_value(s, 10) <= u64::MAX
}

/// The numbers of a version without additions: `major.minor.patch`.
pub open spec fn triple(s: Seq<char>) -> Option<(int, int, int)> {
    let p = pieces(s, '.');
    if p.len() == 3 && is_numeric_part(p[0]) && is_numeric_part(p[1]) && is_numeric_part(p[2]) {
        Some((digits_value(p[0], 10), digits_value(p[1], 10), digits_value(p[2], 10)))
    } else {
        None
    }
}

/// Versions without additions compare number by number.
pub open spec fn triple_less(a: (int, int, int), b: (int, int, int)) -> bool {
    a.0 < b.0 || (a.0 == b.0 && (a.1 < b.1 || (a.1 == b.1 && a.2 < b.2)))
}

/// The text is a semantic version.
pub uninterp spec fn version_parses(s: Seq<char>) -> bool;

/// One semantic version comes before another.
pub uninterp spec fn version_precedes(a: Seq<char>, b: Seq<char>) -> bool;

/// `semver::Version::parse`: whether the text is a semantic version, which depends on the
/// text alone. Three numbers with dots between them are one.
#[verifier::external_body]
fn is_version(s: &str) -> (r: bool)
    ensures
        r == version_parses(s@),
        triple(s@) is Some ==> r,
{
    semver::Version::parse(s).is_ok()
}

/// The order of `semver::Version`: whether one version comes before another, which depends
/// on the two alone. Versions without additions compare number by number, and none comes
/// before itself.
#[verifier::external_body]
fn precedes(a: &str, b: &str) -> (r: bool)
    requires
        version_parses(a@),
        version_parses(b@),
    ensures
        r == version_precedes(a@, b@),
        triple(a@) is Some && triple(b@) is Some ==> r == triple_less(triple(a@)->0, triple(b@)->0),
        a@ == b@ ==> !r,
{
    semver::Version::parse(a).unwrap() < semver::Version::parse(b).unwrap()
}

/// A version is older than a bound; where either is no version, it is not.
pub open spec fn older(running: Seq<char>, bound: Seq<char>) -> bool {
    version_parses(running) && version_parses(bound) && version_precedes(running, bound)
}

/// Whether a version is strictly older than a bound. Where either is no semantic version
/// it is not: a text that nobody understands stops no one.
pub fn is_older(running: &str, bound: &str) -> (r: bool)
    ensures
        r == older(running@, bound@),
        triple(running@) is Some && triple(bound@) is Some ==> r == triple_less(triple(running@)->0, triple(bound@)->0),
        running@ == bound@ ==> !r,
{
    let a = is_version(running);
    let b = is_version(bound);
    a && b && precedes(running, bound)
}

/// A message that is shown whatever the version is.
#[derive(Debug)]
pub struct Advisory {
    pub title: String,
    pub body: String,
    /// `info`, `warn` or `error`.
    pub severity: String,
}

/// What an advisory says: title, body and severity.
pub open spec fn advisory(a: Advisory) -> (Seq<char>, Seq<char>, Seq<char>) {
    (a.title@, a.body@, a.severity@)
}

/// What a list of advisories says.
pub open spec fn advisories(v: Seq<Advisory>) -> Seq<(Seq<char>, Seq<char>, Seq<char>)> {
    v.map_values(|a: Advisory| advisory(a))
}

/// A copy of a list of advisories.
fn copy_advisories(v: &Vec<Advisory>) -> (r: Vec<Advisory>)
    ensures
        advisories(r@) == advisories(v@),
{
    let mut out: Vec<Advisory> = Vec::new();
    let mut i: usize = 0;
    while i < v.len()
        invariant
            i <= v@.len(),
            out@.len() == i,
            forall|j: int| 0 <= j < i ==> advisory(#[trigger] out@[j]) == advisory(v@[j]),
        decreases v@.len() - i,
    {
        let a = &v[i];
        out.push(Advisory { title: a.title.clone(), body: a.body.clone(), severity: a.severity.clone() });
        i = i + 1;
    }
    assert(advisories(out@) =~= advisories(v@));
    out
}

/// The severity of an advisory that names none.
pub fn default_severity() -> (r: String)
    ensures
        r@ == "info"@,
{
    "info".to_owned()
}

/// What the remote says about versions.
#[derive(Debug)]
pub struct VersionManifest {
    pub latest_cli_version: String,
    /// Anything older must be updated.
    pub min_cli_version: String,
    pub download_url: String,
    pub release_notes: String,
    pub advisories: Vec<Advisory>,
}

/// Where releases are downloaded, unless the manifest says otherwise.
pub open spec fn releases_url() -> Seq<char> {
    "https://github.com/RitoShark/Hematite/releases/latest"@
}

/// Where releases are downloaded, unless the manifest says otherwise.
pub fn default_download_url() -> (r: String)
    ensures
        r@ == releases_url(),
{
    "https://github.com/RitoShark/Hematite/releases/latest".to_owned()
}

/// The manifest that the program comes with: every version may run.
pub fn permissive_manifest() -> (r: VersionManifest)
    ensures
        r.latest_cli_version@ == "0.0.0"@,
        r.min_cli_version@ == "0.0.0"@,
        r.download_url@ == releases_url(),
        r.release_notes@ == ""@,
        r.advisories@.len() == 0,
{
    VersionManifest {
        latest_cli_version: "0.0.0".to_owned(),
        min_cli_version: "0.0.0".to_owned(),
        download_url: default_download_url(),
        release_notes: "".to_owned(),
        advisories: Vec::new(),
    }
}

/// Where the running version stands.
#[derive(Debug)]
pub enum VersionStatus {
    UpToDate,
    /// A newer version is there.
    UpdateAvailable { running: String, latest: String, manifest: VersionManifest },
    /// The version is too old to run.
    Outdated { running: String, minimum: String, manifest: VersionManifest },
    /// Nothing is known.
    Unknown,
}

/// What a check found.
#[derive(Debug)]
pub struct CheckOutcome {
    pub status: VersionStatus,
    /// The manifest has advisories.
    pub has_advisories: bool,
    /// The advisories of the manifest, whatever the status is.
    pub advisories: Vec<Advisory>,
}

/// The status of a version under a manifest.
pub open spec fn status_is(running: Seq<char>, m: VersionManifest, status: VersionStatus) -> bool {
    if older(running, m.min_cli_version@) {
        status matches VersionStatus::Outdated { running: r, minimum, manifest } && r@ == running && minimum@
            == m.min_cli_version@ && manifest == m
    } else if older(running, m.latest_cli_version@) {
        status matches VersionStatus::UpdateAvailable { running: r, latest, manifest } && r@ == running && latest@
            == m.latest_cli_version@ && manifest == m
    } else if m.latest_cli_version@ == "0.0.0"@ {
        status is Unknown
    } else {
        status is UpToDate
    }
}

/// Check the running version against a manifest.
pub fn check_version(running: &str, manifest: VersionManifest) -> (r: CheckOutcome)
    ensures
        status_is(running@, manifest, r.status),
        r.has_advisories == (manifest.advisories@.len() > 0),
        advisories(r.advisories@) == advisories(manifest.advisories@),
{
    let has_advisories = manifest.advisories.len() > 0;
    let messages = copy_advisories(&manifest.advisories);
    let status = if is_older(running, manifest.min_cli_version.as_str()) {
        VersionStatus::Outdated {
            running: running.to_owned(),
            minimum: manifest.min_cli_version.clone(),
            manifest,
        }
    } else if is_older(running, manifest.latest_cli_version.as_str()) {
        VersionStatus::UpdateAvailable {
            running: running.to_owned(),
            latest: manifest.latest_cli_version.clone(),
            manifest,
        }
    } else if same(manifest.latest_cli_version.as_str(), "0.0.0") {
        VersionStatus::Unknown
    } else {
        VersionStatus::UpToDate
    };
    CheckOutcome { status, has_advisories, advisories: messages }
}

/// The status stops the program, unless that is overridden.
pub open spec fn stops(status: VersionStatus, skip_check: bool) -> bool {
    status is Outdated && !skip_check
}

/// Whether a status stops the program.
pub fn is_blocked(status: &VersionStatus, skip_check: bool) -> (r: bool)
    ensures
        r == stops(*status, skip_check),
{
    match status {
        VersionStatus::Outdated { .. } => !skip_check,
        _ => false,
    }
}

/// Whether there is nothing to tell about the version.
pub fn is_current(status: &VersionStatus) -> (r: bool)
    ensures
        r == (*status is UpToDate || *status is Unknown),
{
    match status {
        VersionStatus::UpToDate => true,
        VersionStatus::Unknown => true,
        _ => false,
    }
}

/// The manifest that a status carries.
pub open spec fn manifest_in(status: VersionStatus) -> Option<VersionManifest> {
    match status {
        VersionStatus::UpdateAvailable { manifest, .. } => Some(manifest),
        VersionStatus::Outdated { manifest, .. } => Some(manifest),
        _ => None,
    }
}

/// The manifest that an outcome carries.
pub fn manifest_of(outcome: &CheckOutcome) -> (r: Option<&VersionManifest>)
    ensures
        r is Some <==> manifest_in(outcome.status) is Some,
        r matches Some(m) ==> manifest_in(outcome.status) == Some(*m),
{
    match &outcome.status {
        VersionStatus::UpdateAvailable { manifest, .. } => Some(manifest),
        VersionStatus::Outdated { manifest, .. } => Some(manifest),
        _ => None,
    }
}

/// How loud an advisory is.
#[derive(Clone, Copy, Debug, PartialEq, Eq, Structural)]
pub enum Tone {
    Error,
    Warn,
    Info,
}

/// How loud a severity is; one that is not known is information.
pub open spec fn tone_of(severity: Seq<char>) -> Tone {
    if severity == "error"@ {
        Tone::Error
    } else if severity == "warn"@ {
        Tone::Warn
    } else {
        Tone::Info
    }
}

/// How loud a severity is.
pub fn tone(severity: &str) -> (r: Tone)
    ensures
        r == tone_of(severity@),
{
    if same(severity, "error") {
        Tone::Error
    } else if same(severity, "warn") {
        Tone::Warn
    } else {
        Tone::Info
    }
}

/// What is shown of release notes: all, or the first 280 characters of long ones.
pub open spec fn shown_notes(notes: Seq<char>) -> Seq<char> {
    if encode_utf8(notes).len() <= 280 {
        notes
    } else if notes.len() <= 280 {
        notes.push('\u{2026}')
    } else {
        notes.take(280).push('\u{2026}')
    }
}

/// What is shown of release notes. Notes of more than 280 bytes are cut after 280
/// characters.
pub fn trim_notes(notes: &str) -> (r: String)
    ensures
        r@ == shown_notes(notes@),
{
    if notes.as_bytes().len() <= 280 {
        return notes.to_owned();
    }
    let n = notes.unicode_len();
    let mut s = if n <= 280 { notes.to_owned() } else { slice(notes, 0, 280) };
    proof {
        reveal_strlit("\u{2026}");
        if n <= 280 {
            assert(s@ =~= notes@);
        } else {
            assert(s@ =~= notes@.take(280));
        }
        assert("\u{2026}"@ =~= seq!['\u{2026}']);
    }
    let ghost before = s@;
    s.append("\u{2026}");
    assert(s@ =~= before.push('\u{2026}'));
    s
}

/// What is told about the version.
#[derive(Debug)]
pub enum Notice {
    /// A newer version is there.
    Update { latest: String, running: String, notes: String, download_url: String },
    /// The version is too old.
    Blocked { running: String, minimum: String, notes: String, download_url: String, overridden: bool },
}

/// What a report tells about a status.
pub open spec fn notice_is(status: VersionStatus, skip_check: bool, n: Option<Notice>) -> bool {
    match status {
        VersionStatus::UpdateAvailable { running, latest, manifest } => n matches Some(
            Notice::Update { latest: l, running: r, notes, download_url },
        ) && l@ == latest@ && r@ == running@ && notes@ == shown_notes(manifest.release_notes@) && download_url@
            == manifest.download_url@,
        VersionStatus::Outdated { running, minimum, manifest } => n matches Some(
            Notice::Blocked { running: r, minimum: m, notes, download_url, overridden },
        ) && r@ == running@ && m@ == minimum@ && notes@ == shown_notes(manifest.release_notes@) && download_url@
            == manifest.download_url@ && overridden == skip_check,
        _ => n is None,
    }
}

/// What is told about the version, and whether the program is stopped. The message comes
/// also where the user has chosen to run anyway.
pub fn report(outcome: &CheckOutcome, skip_check: bool) -> (r: (Option<Notice>, bool))
    ensures
        notice_is(outcome.status, skip_check, r.0),
        r.1 == stops(outcome.status, skip_check),
{
    let blocked = is_blocked(&outcome.status, skip_check);
    let notice = match &outcome.status {
        VersionStatus::UpdateAvailable { running, latest, manifest } => Some(
            Notice::Update {
                latest: latest.clone(),
                running: running.clone(),
                notes: trim_notes(manifest.release_notes.as_str()),
                download_url: manifest.download_url.clone(),
            },
        ),
        VersionStatus::Outdated { running, minimum, manifest } => Some(
            Notice::Blocked {
                running: running.clone(),
                minimum: minimum.clone(),
                notes: trim_notes(manifest.release_notes.as_str()),
                download_url: manifest.download_url.clone(),
                overridden: skip_check,
            },
        ),
        _ => None,
    };
    (notice, blocked)
}

/// A manifest whose bounds nobody understands stops no one.
pub proof fn law_garbage_never_blocks(running: Seq<char>, m: VersionManifest, status: VersionStatus, skip_check: bool)
    requires
        status_is(running, m, status),
        !version_parses(m.min_cli_version@) || !version_parses(running),
    ensures
        !stops(status, skip_check),
{
}

/// Raising the oldest version that works is all it takes to stop older ones, and only
/// those are stopped.
pub proof fn law_gate_follows_the_minimum(running: Seq<char>, m: VersionManifest, status: VersionStatus)
    requires
        status_is(running, m, status),
    ensures
        stops(status, false) <==> older(running, m.min_cli_version@),
        !stops(status, true),
{
}

} // verus!
