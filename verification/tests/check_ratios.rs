//! Shares of missing art.

use hematite::check::asset_ratio::{
    asset_basename, canonical, classify, measure, percent_share, run_all, satisfied, share_exceeds, share_reaches, RatioTier, RatioVerdict,
    WHOLE,
};
use hematite::config::RatioCheckConfig;
use hematite::diagnostic::{ReasonCatalog, ReasonDef, Severity};
use hematite::traits::NameSet;

struct Where<F: Fn(&str) -> bool>(F);

impl<F: Fn(&str) -> bool> NameSet for Where<F> {
    fn contains(&self, name: &str) -> bool {
        (self.0)(name)
    }
}

fn names(list: &[&str]) -> Vec<String> {
    list.iter().map(|s| s.to_string()).collect()
}

#[test]
fn share_and_percent_truncate() {
    let v = RatioVerdict { missing: 799, total: 1000 };
    assert_eq!(v.percent(), 79);
    assert_eq!(v.describe(), "799/1000 (79%)");
}

#[test]
fn warn_is_exclusive_and_fail_is_inclusive() {
    let at_warn = RatioVerdict { missing: 25, total: 100 };
    assert_eq!(classify(&at_warn, 20, 250_000, 800_000), None, "exactly warn");

    let over_warn = RatioVerdict { missing: 26, total: 100 };
    assert_eq!(classify(&over_warn, 20, 250_000, 800_000), Some(RatioTier::Warn));

    let at_fail = RatioVerdict { missing: 80, total: 100 };
    assert_eq!(classify(&at_fail, 20, 250_000, 800_000), Some(RatioTier::Fail), "exactly fail");
}

#[test]
fn small_samples_do_not_fire() {
    let v = RatioVerdict { missing: 10, total: 10 };
    assert_eq!(classify(&v, 20, 250_000, 800_000), None);
}

#[test]
fn basename_ignores_directory_and_case() {
    assert_eq!(asset_basename("ASSETS/Characters/X/Foo.DDS"), "foo.dds");
    assert_eq!(asset_basename(r"assets\x\bar.tex"), "bar.tex");
}

#[test]
fn asset_ratio_canonical_strips_a_repath_prefix() {
    assert_eq!(canonical("ASSETS/bum/Characters/Jhin/x.dds").as_deref(), Some("ASSETS/Characters/Jhin/x.dds"));
    assert!(canonical("ASSETS/Maps/x.dds").is_none());
}

#[test]
fn a_resolving_reference_is_not_missing() {
    let refs = names(&["assets/characters/x/a.dds", "assets/characters/x/b.dds"]);
    let v = measure(&refs, &Where(|p: &str| p.ends_with("a.dds")));
    assert_eq!((v.missing, v.total), (1, 2));
}

#[test]
fn a_dds_reference_is_satisfied_by_its_tex_twin() {
    let refs = names(&["assets/characters/x/a.dds"]);
    let v = measure(&refs, &Where(|p: &str| p.ends_with("a.tex")));
    assert_eq!(v.missing, 0);
}

#[test]
fn a_repathed_reference_resolves_canonically() {
    let refs = names(&["ASSETS/bum/Characters/Jhin/a.dds"]);
    let v = measure(&refs, &Where(|p: &str| p == "ASSETS/Characters/Jhin/a.dds"));
    assert_eq!(v.missing, 0);
}

#[test]
fn the_same_basename_counts_once() {
    let refs = names(&["assets/characters/x/a.dds", "assets/other/a.dds", "assets/third/a.dds"]);
    let v = measure(&refs, &Where(|_: &str| false));
    assert_eq!((v.missing, v.total), (1, 1));
}

#[test]
fn a_basename_that_resolves_anywhere_is_not_missing() {
    let refs = names(&["assets/dead/a.dds", "assets/characters/x/a.dds"]);
    let v = measure(&refs, &Where(|p: &str| p.starts_with("assets/characters/")));
    assert_eq!(v.missing, 0, "the second reference resolves");
}

#[test]
fn shares_are_compared_exactly() {
    assert_eq!(percent_share(1, 3), 33);
    assert_eq!(percent_share(0, 0), 0);
    assert!(share_reaches(1, 4, WHOLE / 4));
    assert!(!share_exceeds(1, 4, WHOLE / 4));
    assert!(share_exceeds(1, 4, WHOLE / 4 - 1));
}

#[test]
fn a_failed_check_is_reported_once() {
    let catalog = ReasonCatalog {
        reasons: vec![(
            "art_gone".to_string(),
            ReasonDef { severity: Severity::Unplayable, title: "Art".into(), explain: String::new(), remedy: None, author: None },
        )],
    };
    let check = RatioCheckConfig {
        id: "textures".into(),
        enabled: true,
        extensions: names(&[".dds"]),
        min_total: 2,
        warn_at: 250_000,
        fail_at: 800_000,
        warn_reason: Some("art_gone".into()),
        fail_reason: Some("art_gone".into()),
    };
    let refs = names(&["a/x.dds", "a/y.dds", "a/z.skn"]);
    let found = run_all(&vec![check], &catalog, &refs, &Where(|_: &str| false));
    assert_eq!(found.len(), 1);
    assert_eq!(found[0].severity, Severity::Unplayable);
    assert_eq!(found[0].fix_id, "textures");
    assert_eq!(found[0].detail.as_deref(), Some("2/2 (100%) of referenced assets are missing"));
    assert!(satisfied("a/x.dds", &Where(|p: &str| p == "a/x.dds")));
}
