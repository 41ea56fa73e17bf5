//! Effects of a champion's abilities.

use hematite::check::asset_ratio::RatioTier;
use hematite::check::signature_vfx;
use hematite::check::vfx_ratio::{classify, is_ability_effect, is_projectile, measure, report_verdict, run, tier, Kind, VfxMarkers, VfxVerdict};
use hematite::config::{SignatureVfxConfig, VfxRatioConfig};
use hematite::diagnostic::{ReasonCatalog, ReasonDef, Severity};
use hematite::traits::NameSet;

struct Where<F: Fn(&str) -> bool>(F);

impl<F: Fn(&str) -> bool> NameSet for Where<F> {
    fn contains(&self, name: &str) -> bool {
        (self.0)(name)
    }
}

fn nothing(_: &str) -> bool {
    false
}

fn talon() -> Vec<SignatureVfxConfig> {
    vec![SignatureVfxConfig {
        enabled: true,
        champion: "talon".into(),
        contains: "edgemesh".into(),
        dead_at: 800_000,
        reason: Some("talon_edgemesh_missing".into()),
    }]
}

fn catalog() -> ReasonCatalog {
    ReasonCatalog {
        reasons: vec![(
            "talon_edgemesh_missing".to_string(),
            ReasonDef {
                severity: Severity::Unplayable,
                title: "Wall-vault indicator missing".into(),
                explain: String::new(),
                remedy: None,
                author: None,
            },
        )],
    }
}

fn refs(v: &[&str]) -> Vec<String> {
    v.iter().map(|s| s.to_string()).collect()
}

#[test]
fn a_mostly_dead_signature_effect_fires() {
    let r = refs(&[
        "assets/characters/talon/particles/talon_base_e_edgemesh_01",
        "assets/characters/talon/particles/talon_base_e_edgemesh_02",
        "assets/characters/talon/particles/talon_base_q_mis",
    ]);
    let found = signature_vfx::run_all(&talon(), &catalog(), &r, "talon", &Where(nothing));
    assert_eq!(found.len(), 1);
    assert_eq!(found[0].detail.as_deref(), Some("2/2 edgemesh effects missing"));
    assert_eq!(found[0].severity, Severity::Unplayable);
}

#[test]
fn exactly_the_threshold_fires() {
    let r = refs(&[
        "x/talon_edgemesh_1",
        "x/talon_edgemesh_2",
        "x/talon_edgemesh_3",
        "x/talon_edgemesh_4",
        "x/talon_edgemesh_5",
    ]);
    let found = signature_vfx::run_all(&talon(), &catalog(), &r, "talon", &Where(|p: &str| p.ends_with('5')));
    assert_eq!(found.len(), 1, "4 of 5 dead is exactly 80%");
}

#[test]
fn below_the_threshold_is_quiet() {
    let r = refs(&["x/talon_edgemesh_1", "x/talon_edgemesh_2"]);
    let found = signature_vfx::run_all(&talon(), &catalog(), &r, "talon", &Where(|p: &str| p.ends_with('2')));
    assert!(found.is_empty(), "half missing is not the whole indicator");
}

#[test]
fn a_mod_that_names_none_of_them_is_quiet() {
    let r = refs(&["assets/characters/talon/particles/talon_base_q_mis"]);
    assert!(signature_vfx::run_all(&talon(), &catalog(), &r, "talon", &Where(nothing)).is_empty());
}

#[test]
fn another_champion_is_never_measured() {
    let r = refs(&["x/edgemesh_1", "x/edgemesh_2"]);
    assert!(signature_vfx::run_all(&talon(), &catalog(), &r, "jhin", &Where(nothing)).is_empty());
    assert!(signature_vfx::run_all(&talon(), &catalog(), &r, "", &Where(nothing)).is_empty());
}

#[test]
fn the_same_effect_named_twice_counts_once() {
    let r = refs(&["X/Talon_Edgemesh_1", "x/talon_edgemesh_1"]);
    let v = signature_vfx::measure(&r, "edgemesh", &Where(nothing));
    assert_eq!((v.dead, v.total), (1, 1));
}

fn markers() -> (Vec<String>, Vec<String>, Vec<String>, Vec<String>) {
    (
        refs(&["doombot", "ascension", "_urf_"]),
        refs(&["audio", "sound", "_sfx"]),
        refs(&["recall", "idle", "death", "emote"]),
        refs(&["_marker", "_timer", "_ring"]),
    )
}

fn m<'a>(v: &'a (Vec<String>, Vec<String>, Vec<String>, Vec<String>)) -> VfxMarkers<'a> {
    VfxMarkers { legacy: &v.0, audio: &v.1, cosmetic: &v.2, subhelper: &v.3 }
}

#[test]
fn ability_slots_are_read_past_champion_and_skin() {
    assert!(is_ability_effect("jhin_skin55_q_mis"));
    assert!(is_ability_effect("jhin_skin55_r_cas"));
    assert!(is_ability_effect("ahri_base_passive_tar"));
}

#[test]
fn a_slot_letter_inside_a_word_is_not_a_slot() {
    assert!(!is_ability_effect("some_thing_quinn_glow"));
    assert!(!is_ability_effect("some_thing_ratchet"));
}

#[test]
fn only_the_missile_is_a_projectile() {
    assert!(is_projectile("jhin_skin55_q_mis"));
    assert!(!is_projectile("jhin_skin55_q_cas"));
    assert!(!is_projectile("jhin_skin55_q_indicator"));
}

#[test]
fn legacy_modes_and_audio_are_ignored() {
    let v = markers();
    assert_eq!(classify("x/doombot_q_mis", "jhin", &m(&v)), Kind::Ignore);
    assert_eq!(classify("x/jhin_base_q_mis_audio", "jhin", &m(&v)), Kind::Ignore);
}

#[test]
fn another_champions_particle_is_ignored() {
    let v = markers();
    assert_eq!(classify("assets/characters/lux/particles/lux_base_q_mis", "jhin", &m(&v)), Kind::Ignore);
    assert_eq!(classify("assets/characters/jhin/particles/jhin_base_q_mis", "jhin", &m(&v)), Kind::Core);
}

#[test]
fn cosmetic_effects_do_not_count() {
    let v = markers();
    assert_eq!(classify("x/jhin_base_recall_mis", "jhin", &m(&v)), Kind::Cosmetic);
    assert_eq!(classify("x/jhin_base_q_marker", "jhin", &m(&v)), Kind::Cosmetic);
}

#[test]
fn a_non_projectile_ability_effect_is_cosmetic() {
    let v = markers();
    assert_eq!(classify("x/particles/jhin_base_q_dagger_land_dirt", "jhin", &m(&v)), Kind::Cosmetic);
}

#[test]
fn measure_counts_only_gameplay_particles() {
    let v = markers();
    let r = refs(&[
        "assets/characters/jhin/particles/jhin_base_q_mis",
        "assets/characters/jhin/particles/jhin_base_w_mis",
        "assets/characters/jhin/particles/jhin_base_recall_mis",
        "assets/characters/jhin/skins/base/jhin.dds",
    ]);
    let verdict = measure(&r, "jhin", &m(&v), &Where(nothing));
    assert_eq!(verdict.core_total, 2, "recall and the texture do not count");
    assert_eq!(verdict.core_dead, 2);
}

#[test]
fn a_dead_projectile_warns_on_its_own() {
    let verdict = VfxVerdict { core_total: 100, core_dead: 1, projectile_dead: true };
    assert_eq!(tier(&verdict, 300_000, 800_000), Some(RatioTier::Warn));
}

#[test]
fn both_thresholds_are_inclusive() {
    let at_warn = VfxVerdict { core_total: 100, core_dead: 30, projectile_dead: false };
    assert_eq!(tier(&at_warn, 300_000, 800_000), Some(RatioTier::Warn));

    let at_fail = VfxVerdict { core_total: 100, core_dead: 80, projectile_dead: false };
    assert_eq!(tier(&at_fail, 300_000, 800_000), Some(RatioTier::Fail));
}

#[test]
fn nothing_referenced_means_no_verdict() {
    let verdict = VfxVerdict { core_total: 0, core_dead: 0, projectile_dead: false };
    assert_eq!(tier(&verdict, 300_000, 800_000), None);
}

fn ratio_config() -> VfxRatioConfig {
    let v = markers();
    VfxRatioConfig {
        enabled: true,
        warn_at: 300_000,
        fail_at: 800_000,
        warn_reason: Some("some_gone".into()),
        fail_reason: Some("most_gone".into()),
        legacy_markers: v.0,
        audio_markers: v.1,
        cosmetic_markers: v.2,
        subhelper_markers: v.3,
    }
}

#[test]
fn a_missile_is_named_in_a_warning() {
    let cfg = ratio_config();
    let verdict = VfxVerdict { core_total: 100, core_dead: 1, projectile_dead: true };
    let d = report_verdict(&cfg, &catalog(), &verdict).unwrap();
    assert_eq!(d.reason, "some_gone");
    assert_eq!(d.severity, Severity::Warning);
    assert!(d.detail.unwrap().ends_with(", including a missile"));
}

#[test]
fn a_champion_without_effects_has_no_finding() {
    let cfg = ratio_config();
    let r = refs(&["assets/characters/jhin/particles/jhin_base_q_mis"]);
    assert!(run(&cfg, &catalog(), &r, "", &Where(nothing)).is_none());
    assert!(run(&cfg, &catalog(), &r, "jhin", &Where(|_: &str| true)).is_none());
    assert_eq!(run(&cfg, &catalog(), &r, "jhin", &Where(nothing)).unwrap().reason, "most_gone");
}
