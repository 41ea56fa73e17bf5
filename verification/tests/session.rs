//! Options, menus and what a run decides.

use hematite::args::{all_fix_ids, collect_selected_fixes, RepathLayoutArg, Verbosity};
use hematite::config::RepathConfig;
use hematite::hash_downloader::{
    choose_asset, ensure_hashes_available, find_asset, next_dictionary_step, should_download, unpack_dictionary, update_hashes,
    DictionaryError, DictionarySource, DictionaryStep,
};
use hematite::interactive::{
    baseline_cli, build_check_cli, build_fix_all_cli, build_fix_no_repath_cli, parse_action, parse_yes_no, strip_line_end, strip_path_quotes,
    Action, MenuAnswer,
};
use hematite::repath::RepathLayout;
use hematite::session::{
    derive_prefix_from_input, detect_entry_mode, effective_verbosity, needs_pause, pass_gate, plan_session, repath_options, EntryMode, Gate,
    Output,
};
use hematite::ui::{describe_changes, Mode};
use hematite::version_check::{default_download_url, VersionManifest, VersionStatus};

fn words(list: &[&str]) -> Vec<String> {
    list.iter().map(|s| s.to_string()).collect()
}

fn repath_config() -> RepathConfig {
    RepathConfig {
        enabled: false,
        prefix: "bum".to_string(),
        invis_texture: false,
        skip_vo: true,
        placeholder_rules: vec!["a rule".to_string()],
    }
}

#[test]
fn entry_modes() {
    assert!(matches!(detect_entry_mode(&words(&["exe"]), false), EntryMode::Interactive));
    assert!(matches!(detect_entry_mode(&words(&["exe", "mod.zip"]), true), EntryMode::DragDrop(p) if p == "mod.zip"));
    assert!(matches!(detect_entry_mode(&words(&["exe", "mod.zip"]), false), EntryMode::Flagged));
    assert!(matches!(detect_entry_mode(&words(&["exe", "--all"]), true), EntryMode::Flagged));
    assert!(matches!(detect_entry_mode(&words(&["exe", "mod.zip", "--all"]), true), EntryMode::Flagged));
    assert!(needs_pause(&words(&["exe", "mod.zip"])));
    assert!(!needs_pause(&words(&["exe", "mod.zip", "--json"])));
    assert!(!needs_pause(&words(&["exe", "mod.zip", "--no-pause"])));
}

#[test]
fn without_options_every_rule_is_selected() {
    let mut cli = baseline_cli("mod.zip");
    assert_eq!(collect_selected_fixes(&cli), all_fix_ids());
    cli.all = true;
    cli.healthbar = true;
    assert_eq!(collect_selected_fixes(&cli), all_fix_ids());
    let ids = all_fix_ids();
    let at = |id: &str| ids.iter().position(|x| x == id).unwrap();
    assert!(at("gear_pull") < at("entry_validator"));
    assert!(at("cac_pull") < at("entry_validator"));
}

#[test]
fn options_select_their_rules() {
    let mut cli = baseline_cli("mod.zip");
    cli.healthbar = true;
    cli.relocate_bins = true;
    assert_eq!(collect_selected_fixes(&cli), words(&["healthbar_fix", "combo_bin_relocate"]));
}

#[test]
fn menus_build_their_options() {
    let fix = build_fix_all_cli("mod.zip");
    assert!(fix.all && fix.repath);
    assert_eq!(fix.input.as_deref(), Some("mod.zip"));
    let check = build_check_cli("mod.zip");
    assert!(check.check);
    let plain = build_fix_no_repath_cli("mod.zip");
    assert!(plain.all && !plain.repath);
}

#[test]
fn answers_are_read_kindly() {
    assert_eq!(parse_action(" 1 "), MenuAnswer::Choice(Action::FixAll));
    assert_eq!(parse_action("QUIT"), MenuAnswer::Choice(Action::Quit));
    assert_eq!(parse_action("5"), MenuAnswer::Choice(Action::Quit));
    assert_eq!(parse_action("6"), MenuAnswer::Invalid);
    assert_eq!(parse_action("0"), MenuAnswer::Invalid);
    assert_eq!(parse_action("  "), MenuAnswer::Empty);
    assert_eq!(parse_yes_no("Y", false), Some(true));
    assert_eq!(parse_yes_no("no", true), Some(false));
    assert_eq!(parse_yes_no("", true), Some(true));
    assert_eq!(parse_yes_no("perhaps", true), None);
    assert_eq!(strip_line_end("x\r\n"), "x");
    assert_eq!(strip_path_quotes("\"C:/mod.zip\""), "C:/mod.zip");
    assert_eq!(strip_path_quotes("'a\""), "'a\"");
}

#[test]
fn prefixes_come_from_names() {
    assert_eq!(derive_prefix_from_input("ahri_skin5"), ".ahri5_");
    assert_eq!(derive_prefix_from_input("Sasuke by Noxli (V1.0)"), ".sasu1_");
    assert_eq!(derive_prefix_from_input("12 yone 3"), ".yone3_");
    assert_eq!(derive_prefix_from_input("1234"), "bum");
    assert_eq!(derive_prefix_from_input("lux99999999999"), ".lux0_");
}

#[test]
fn repath_options_follow_their_priority() {
    let cli = baseline_cli("yone1.zip");
    assert!(repath_options(&cli, &repath_config(), "yone1").is_none());

    let mut on = baseline_cli("yone1.zip");
    on.repath = true;
    on.repath_prefix = None;
    on.repath_layout = RepathLayoutArg::Nested;
    let derived = repath_options(&on, &repath_config(), "yone1").unwrap();
    assert_eq!(derived.prefix, ".yone1_");
    assert_eq!(derived.layout, RepathLayout::Nested);
    assert!(derived.skip_vo);

    let mut cfg = repath_config();
    cfg.prefix = "team".to_string();
    assert_eq!(repath_options(&on, &cfg, "yone1").unwrap().prefix, "team");
    on.repath_prefix = Some("mine".to_string());
    assert_eq!(repath_options(&on, &cfg, "yone1").unwrap().prefix, "mine");
    on.no_repath = true;
    assert!(repath_options(&on, &cfg, "yone1").is_none());
}

fn outdated() -> VersionStatus {
    VersionStatus::Outdated {
        running: "1.0.0".to_string(),
        minimum: "2.0.0".to_string(),
        manifest: VersionManifest {
            latest_cli_version: "2.0.0".to_string(),
            min_cli_version: "2.0.0".to_string(),
            download_url: default_download_url(),
            release_notes: String::new(),
            advisories: vec![],
        },
    }
}

#[test]
fn a_run_passes_or_not() {
    let mut cli = baseline_cli("mod.zip");
    assert_eq!(pass_gate(&cli, &VersionStatus::UpToDate), Gate::Run);
    assert_eq!(pass_gate(&cli, &outdated()), Gate::Refuse);
    cli.skip_version_check = true;
    assert_eq!(pass_gate(&cli, &outdated()), Gate::Run);
    cli.batch = Some("mods".to_string());
    assert_eq!(pass_gate(&cli, &VersionStatus::Unknown), Gate::Batch);
    assert_eq!(effective_verbosity(&cli), Verbosity::Quiet);
    cli.batch = None;
    cli.input = None;
    assert_eq!(pass_gate(&cli, &VersionStatus::UpToDate), Gate::MissingInput);
    cli.check_version = true;
    assert_eq!(pass_gate(&cli, &VersionStatus::Unknown), Gate::ShowVersion { up_to_date: true });
    assert_eq!(pass_gate(&cli, &outdated()), Gate::ShowVersion { up_to_date: false });
}

#[test]
fn a_check_never_writes() {
    let mut cli = baseline_cli("mod.zip");
    cli.crashcheck = true;
    let plan = plan_session(&cli, &repath_config(), "mod");
    assert!(plan.dry_run && plan.check);
    assert_eq!(plan.output, Output::CrashReport);
    assert!(plan.relocate_combo_bins);
    cli.crashcheck = false;
    cli.json = true;
    let plan = plan_session(&cli, &repath_config(), "mod");
    assert!(!plan.dry_run && !plan.check);
    assert_eq!(plan.output, Output::SessionJson);
    assert_eq!(plan.ui_mode, Mode::Silent);
    assert!(!plan.show_banner);
}

#[test]
fn removing_wins_over_restoring() {
    let mut cli = baseline_cli("mod.zip");
    cli.restore_anm = true;
    let plan = plan_session(&cli, &repath_config(), "mod");
    assert!(plan.restore_anm);
    assert!(!plan.selected_fixes.contains(&"anm_remover".to_string()));
    cli.remove_anm = true;
    let plan = plan_session(&cli, &repath_config(), "mod");
    assert!(!plan.restore_anm);
    assert!(plan.selected_fixes.contains(&"anm_remover".to_string()));
}

#[test]
fn changes_are_told_in_words() {
    assert_eq!(describe_changes(None), None);
    assert_eq!(describe_changes(Some(1)).as_deref(), Some("(1 change)"));
    assert_eq!(describe_changes(Some(2)).as_deref(), Some("(2 changes)"));
    assert_eq!(Mode::from_args(&Verbosity::Normal, false), Mode::Live);
    assert_eq!(Mode::from_args(&Verbosity::Verbose, false), Mode::Silent);
}

#[test]
fn a_dictionary_is_downloaded_when_it_is_due() {
    assert!(should_download(false, &Some("v1".to_string()), "v1"));
    assert!(!should_download(true, &Some("v1".to_string()), "v1"));
    assert!(should_download(true, &Some("v1".to_string()), "v2"));
    assert!(should_download(true, &None, "v1"));
    assert!(!ensure_hashes_available(true, false));
    assert!(ensure_hashes_available(false, false));
    assert!(update_hashes(true));
    assert_eq!(find_asset(&words(&["a", "lol-hashes-combined.zst"])), Some(1));
    assert_eq!(choose_asset(&words(&["a"])), Err(DictionaryError::NoAsset));
}

#[test]
fn a_dictionary_is_unpacked() {
    let plain = b"hashes hashes hashes hashes".to_vec();
    let packed = zstd::encode_all(plain.as_slice(), 0).unwrap();
    assert_ne!(packed, plain);
    assert_eq!(unpack_dictionary(&packed), Ok(plain));
    assert_eq!(unpack_dictionary(b"not a dictionary"), Err(DictionaryError::Corrupt));
}

#[test]
fn a_dictionary_is_replaced_once_and_text_comes_last() {
    let run = |worked: &[bool]| worked.iter().fold(DictionaryStep::LoadPacked, |step, w| next_dictionary_step(step, *w));
    assert_eq!(run(&[true]), DictionaryStep::Use(DictionarySource::Packed));
    assert_eq!(run(&[false]), DictionaryStep::Replace);
    assert_eq!(run(&[false, true, true]), DictionaryStep::Use(DictionarySource::Refreshed));
    assert_eq!(run(&[false, true, false, true]), DictionaryStep::Use(DictionarySource::Text));
    assert_eq!(run(&[false, false, true]), DictionaryStep::Use(DictionarySource::Text));
    assert_eq!(run(&[false, false, false]), DictionaryStep::Fail);
    assert_eq!(run(&[false, false, false, true]), DictionaryStep::Fail);
}

#[test]
fn selected_rules_come_in_the_order_of_application() {
    let mut cli = baseline_cli("mod.zip");
    cli.validate_entries = true;
    cli.pull_gear = true;
    assert_eq!(collect_selected_fixes(&cli), words(&["gear_pull", "entry_validator"]));
    cli.pull_cac = true;
    cli.file_refs = true;
    cli.fix_refs = true;
    assert_eq!(
        collect_selected_fixes(&cli),
        words(&["resolve_dead_refs", "gear_pull", "cac_pull", "entry_validator", "file_ref_migration"])
    );
}

#[test]
fn placeholder_rules_are_handed_on() {
    let mut cli = baseline_cli("mod.zip");
    cli.repath = true;
    let opts = repath_options(&cli, &repath_config(), "ahri_skin5").unwrap();
    assert_eq!(opts.placeholder_rules, words(&["a rule"]));
}
