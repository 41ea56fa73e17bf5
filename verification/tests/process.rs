//! Sessions: rules on files, and archives from end to end.

use std::collections::HashSet;

use hematite::bin::{BinObject, BinProperty, BinTree, FieldHash, GameHash, OrderedMap, PathHash, PropertyValue, TypeHash};
use hematite::context::{BinScope, CharacterRelations, FixContext};
use hematite::skinlite::copy_tree;
use hematite::traits::{GameProvider, HashProvider, WadProvider};
use hematite::archive::WadEntry;
use hematite::assets::AssetRegistry;
use hematite::check::{check_tree, diagnose_fired_rule, is_summoned_form, skip_reason, unknown_reason_ids};
use hematite::config::{
    ClassFieldTarget, DetectionRule, FixConfig, FixPhase, FixRule, RepathConfig, TransformAction, WadDetectionRule, WadFixRule,
    WadTransformAction,
};
use hematite::diagnostic::{CheckReport, Diagnostic, ReasonCatalog, ReasonDef, Severity, SkipReason};
use hematite::hashing::wad_path_hash;
use hematite::pipeline::{apply_fixes, apply_fixes_in_phase};
use hematite::process::bins::Session;
use hematite::process::changes::{apply_additions, apply_conversions, apply_in_place, apply_renames, Converters, NoConverters};
use hematite::process::fantome::{
    needs_repack, plan_extraction, repack_source, EntrySource, FantomeError, ZipEntryInfo, MAX_FILE_SIZE,
};
use hematite::process::missing::{extract_missing_from_game_wad, missing_animations};
use hematite::process::{
    file_kind, is_supported_file, needs_rebuild, process_bin_file, process_wad_file, subchampion_forms, FileKind, ProcessError,
};
use hematite::repath::{RepathLayout, RepathOptions};
use hematite::result::ProcessResult;
use hematite::session::finish;
use hematite::strings::fnv1a_hash;
use hematite::traits::{BinFault, BinProvider};
use hematite::transform::retype_file::target_key;
use hematite::wad_pipeline::detect::WadError;
use hematite::wad_pipeline::{FileAddition, FileConversion, InPlaceTransform, ReferencedAssets};
use hematite::walk::extract_strings;

/// A dictionary of the names it is given.
struct Names {
    types: Vec<(String, u32)>,
    fields: Vec<(String, u32)>,
}

impl Names {
    fn of(types: &[(&str, u32)], fields: &[(&str, u32)]) -> Names {
        Names {
            types: types.iter().map(|(n, h)| (n.to_string(), *h)).collect(),
            fields: fields.iter().map(|(n, h)| (n.to_string(), *h)).collect(),
        }
    }
}

impl HashProvider for Names {
    fn resolve_type(&self, hash: TypeHash) -> Option<&str> {
        self.types.iter().find(|t| t.1 == hash.0).map(|t| t.0.as_str())
    }

    fn resolve_field(&self, hash: FieldHash) -> Option<&str> {
        self.fields.iter().find(|f| f.1 == hash.0).map(|f| f.0.as_str())
    }

    fn resolve_entry(&self, _hash: PathHash) -> Option<&str> {
        None
    }

    fn resolve_game_path(&self, _hash: GameHash) -> Option<&str> {
        None
    }

    fn type_hash(&self, name: &str) -> Option<TypeHash> {
        self.types.iter().find(|t| t.0.eq_ignore_ascii_case(name)).map(|t| TypeHash(t.1))
    }

    fn field_hash(&self, name: &str) -> Option<FieldHash> {
        self.fields.iter().find(|f| f.0.eq_ignore_ascii_case(name)).map(|f| FieldHash(f.1))
    }

    fn has_game_path(&self, _path: &str) -> bool {
        false
    }

    fn is_loaded(&self) -> bool {
        !self.types.is_empty()
    }
}

/// An archive that holds the paths it is given.
struct Wad {
    paths: Vec<String>,
}

impl WadProvider for Wad {
    fn has_path(&self, path: &str) -> bool {
        self.paths.iter().any(|p| p == path)
    }

    fn has_hash(&self, _hash: u64) -> bool {
        false
    }
}

/// A game that ships the files it is given.
struct Game {
    paths: Vec<String>,
    bins: Vec<(String, BinTree)>,
    shaders: Option<HashSet<u32>>,
}

impl Game {
    fn empty() -> Game {
        Game { paths: vec![], bins: vec![], shaders: None }
    }
}

impl GameProvider for Game {
    fn has_path(&self, path: &str) -> bool {
        self.paths.iter().any(|p| p == path) || self.bins.iter().any(|b| b.0 == path)
    }

    fn pull_raw(&self, _path: &str) -> Option<Vec<u8>> {
        None
    }

    fn game_bin(&self, path: &str) -> Option<BinTree> {
        self.bins.iter().find(|b| b.0 == path).map(|b| copy_tree(&b.1))
    }

    fn shader_defs(&self) -> Option<HashSet<u32>> {
        self.shaders.clone()
    }
}

fn names(list: &[&str]) -> Vec<String> {
    list.iter().map(|s| s.to_string()).collect()
}

fn prop(name: u32, value: PropertyValue) -> (u32, BinProperty) {
    (name, BinProperty { name_hash: FieldHash(name), value })
}

fn table(props: Vec<(u32, BinProperty)>) -> OrderedMap<BinProperty> {
    let mut map = OrderedMap::new();
    for (k, p) in props {
        map.insert(k, p);
    }
    map
}

fn object(class: u32, key: u32, props: Vec<(u32, BinProperty)>) -> BinObject {
    BinObject { class_hash: TypeHash(class), path_hash: PathHash(key), properties: table(props) }
}

fn tree_of(objects: Vec<BinObject>) -> BinTree {
    let mut tree = BinTree::new();
    for o in objects {
        tree.objects.insert(o.path_hash.0, o);
    }
    tree
}

fn text(s: &str) -> PropertyValue {
    PropertyValue::String(s.to_string())
}

fn session<'a>(
    tree: BinTree,
    file_path: &str,
    hashes: &'a Names,
    wad: &'a Wad,
    champions: &'a CharacterRelations,
    game: Option<&'a Game>,
) -> FixContext<'a, Names, Wad, Game> {
    FixContext {
        tree,
        hashes,
        wad,
        champions,
        file_path: file_path.to_string(),
        files_to_remove: Vec::new(),
        linked_trees: Vec::new(),
        valid_shaders: None,
        game,
        additional_bins: Vec::new(),
        scope: BinScope::unknown(),
        renames: Vec::new(),
    }
}

fn catalog() -> ReasonCatalog {
    let def = |severity: Severity, title: &str, explain: &str| ReasonDef {
        severity,
        title: title.into(),
        explain: explain.into(),
        remedy: Some("Run Repair.".into()),
        author: None,
    };
    ReasonCatalog {
        reasons: vec![
            (
                "unmigrated_animation_path".to_string(),
                def(Severity::Crash, "Animation path uses the old format", "Stored as text, unreadable by this patch."),
            ),
            (
                "unmigrated_hud_asset".to_string(),
                def(Severity::Warning, "Interface asset uses the old format", "Stored as text, does not resolve."),
            ),
        ],
    }
}

fn field_target(class: &str, field: &str, reason: Option<&str>) -> ClassFieldTarget {
    ClassFieldTarget { class: class.into(), field: field.into(), reason: reason.map(str::to_owned) }
}

#[test]
fn per_target_reasons_resolve_to_different_severities() {
    let c = catalog();
    assert_eq!(Diagnostic::new(&c, "unmigrated_animation_path", "file_ref_migration").severity, Severity::Crash);
    assert_eq!(Diagnostic::new(&c, "unmigrated_hud_asset", "file_ref_migration").severity, Severity::Warning);
}

fn champions() -> CharacterRelations {
    CharacterRelations { champions: names(&["jhin", "gragas"]) }
}

#[test]
fn champion_bin_is_not_a_summoned_form() {
    assert!(!is_summoned_form(
        &names(&["DATA/Characters/Jhin/Jhin.bin"]),
        "data/characters/jhin/skins/skin0.bin",
        &champions()
    ));
}

#[test]
fn summoned_form_is_recognised() {
    assert!(is_summoned_form(
        &names(&["DATA/Characters/JhinTrap/JhinTrap.bin"]),
        "data/characters/jhintrap/skins/skin0.bin",
        &champions()
    ));
}

#[test]
fn linked_list_identifies_the_character_when_the_path_cannot() {
    assert!(is_summoned_form(&names(&["DATA/Characters/JhinTrap/JhinTrap.bin"]), "00df3e4432caeaa8", &champions()));
}

#[test]
fn unlisted_character_is_treated_as_a_summoned_form() {
    assert!(is_summoned_form(
        &names(&["DATA/Characters/SomeNewChamp/SomeNewChamp.bin"]),
        "data/characters/somenewchamp/skins/skin0.bin",
        &champions()
    ));
}

#[test]
fn unidentifiable_bin_is_not_suppressed() {
    assert!(!is_summoned_form(&vec![], "00df3e4432caeaa8", &champions()));
}

#[test]
fn target_key_is_stable_across_name_and_hex_forms() {
    let by_name = field_target("AnimationResourceData", "mAnimationFilePath", None);
    let key = target_key(&by_name);
    let by_hex = field_target(&format!("0x{:08x}", key.0), &format!("0x{:08x}", key.1), None);
    assert_eq!(target_key(&by_hex), key);
}

#[test]
fn a_summoned_form_is_not_the_champion() {
    let champions = CharacterRelations { champions: names(&["jhin"]) };
    assert!(champions.is_champion("jhin"));
    assert!(!champions.is_champion("jhintrap"), "a trap is not a playable champion, which is what the rules turn on");
}

fn rule(detect: DetectionRule, apply: TransformAction) -> FixRule {
    FixRule {
        name: "A rule".to_string(),
        reason: Some("unmigrated_hud_asset".to_string()),
        detect,
        apply,
        phase: FixPhase::Standard,
        main_character_only: false,
        loaded_bins_only: false,
    }
}

fn extension_rule() -> FixRule {
    rule(
        DetectionRule::RecursiveStringExtensionNotInWad { extension: ".dds".to_string(), path_prefixes: vec![] },
        TransformAction::ReplaceStringExtension {
            from: ".dds".to_string(),
            to: ".tex".to_string(),
            path_prefixes: vec![],
            field_filter: None,
        },
    )
}

fn config(fixes: Vec<(&str, FixRule)>) -> FixConfig {
    FixConfig {
        version: "1".to_string(),
        fixes: fixes.into_iter().map(|(n, r)| (n.to_string(), r)).collect(),
        wad_fixes: vec![],
        reasons: catalog(),
        enabled_fixes: None,
        repath: RepathConfig {
            enabled: false,
            prefix: String::new(),
            invis_texture: false,
            skip_vo: true,
            placeholder_rules: Vec::new(),
        },
    }
}

fn tree_with_texture(path: &str) -> BinTree {
    tree_of(vec![object(1, 10, vec![prop(0x1, text(path))])])
}

fn first_string(tree: &BinTree) -> String {
    extract_strings(tree)[0].clone()
}

fn hashes() -> Names {
    Names::of(&[("Skin", 0x1234)], &[])
}

#[test]
fn a_selected_rule_repairs_what_it_finds() {
    let (h, w, c) = (hashes(), Wad { paths: vec![] }, champions());
    let cfg = config(vec![("dds_to_tex", extension_rule())]);
    let mut ctx = session(tree_with_texture("a/x.dds"), "data/x.bin", &h, &w, &c, None);
    let result = apply_fixes(&mut ctx, &cfg, &names(&["dds_to_tex"]), false);
    assert_eq!(first_string(&ctx.tree), "a/x.tex");
    assert_eq!(result.fixes_applied, 1);
    assert_eq!(result.applied_fixes[0].fix_id, "dds_to_tex");
    assert_eq!(result.applied_fixes[0].changes_count, 1);
    assert_eq!(result.files_processed, 1);

    let again = apply_fixes(&mut ctx, &cfg, &names(&["dds_to_tex"]), false);
    assert_eq!(again.fixes_applied, 0);
}

#[test]
fn a_dry_run_changes_nothing() {
    let (h, w, c) = (hashes(), Wad { paths: vec![] }, champions());
    let cfg = config(vec![("dds_to_tex", extension_rule())]);
    let mut ctx = session(tree_with_texture("a/x.dds"), "data/x.bin", &h, &w, &c, None);
    let result = apply_fixes(&mut ctx, &cfg, &names(&["dds_to_tex"]), true);
    assert_eq!(first_string(&ctx.tree), "a/x.dds");
    assert_eq!(result.applied_fixes.len(), 1);
    assert_eq!(result.detected_issues(), vec!["A rule".to_string()]);
}

#[test]
fn a_rule_that_nobody_knows_is_an_error() {
    let (h, w, c) = (hashes(), Wad { paths: vec![] }, champions());
    let cfg = config(vec![]);
    let mut ctx = session(tree_with_texture("a/x.dds"), "data/x.bin", &h, &w, &c, None);
    let result = apply_fixes(&mut ctx, &cfg, &names(&["nonsense"]), false);
    assert_eq!(result.errors.len(), 1);
    assert!(result.errors[0].contains("nonsense"));
    assert!(finish(&result).is_err());
}

#[test]
fn a_later_rule_waits_for_its_phase() {
    let (h, w, c) = (hashes(), Wad { paths: vec![] }, champions());
    let mut late = extension_rule();
    late.phase = FixPhase::PostRepath;
    let cfg = config(vec![("dds_to_tex", late)]);
    let mut ctx = session(tree_with_texture("a/x.dds"), "data/x.bin", &h, &w, &c, None);
    assert_eq!(apply_fixes(&mut ctx, &cfg, &names(&["dds_to_tex"]), false).fixes_applied, 0);
    let result = apply_fixes_in_phase(&mut ctx, &cfg, &names(&["dds_to_tex"]), false, FixPhase::PostRepath);
    assert_eq!(result.fixes_applied, 1);
    assert_eq!(first_string(&ctx.tree), "a/x.tex");
}

#[test]
fn a_summoned_form_is_left_alone_by_a_champion_rule() {
    let (h, w, c) = (hashes(), Wad { paths: vec![] }, champions());
    let mut only = extension_rule();
    only.main_character_only = true;
    let cfg = config(vec![("dds_to_tex", only)]);
    let mut trap = session(tree_with_texture("a/x.dds"), "data/characters/jhintrap/skins/skin0.bin", &h, &w, &c, None);
    assert_eq!(apply_fixes(&mut trap, &cfg, &names(&["dds_to_tex"]), false).fixes_applied, 0);
    assert_eq!(first_string(&trap.tree), "a/x.dds");
    let mut champ = session(tree_with_texture("a/x.dds"), "data/characters/jhin/skins/skin0.bin", &h, &w, &c, None);
    assert_eq!(apply_fixes(&mut champ, &cfg, &names(&["dds_to_tex"]), false).fixes_applied, 1);
}

#[test]
fn a_check_that_cannot_run_is_told() {
    let (h, w, c) = (hashes(), Wad { paths: vec![] }, champions());
    let needs_game = rule(DetectionRule::ReplacedBinEntryDiff { targets: vec![] }, TransformAction::ReportOnly);
    let cfg = config(vec![("replaced", needs_game), ("dds_to_tex", extension_rule())]);
    let ctx = session(tree_with_texture("a/x.dds"), "data/x.bin", &h, &w, &c, None);
    let report = check_tree(&cfg, &ctx);
    assert_eq!(report.skipped, vec![("replaced".to_string(), SkipReason::NoGameDir)]);
    assert_eq!(report.ran, names(&["dds_to_tex"]));
    assert_eq!(report.diagnostics.len(), 1);
    assert!(report.incomplete());
    assert_eq!(report.worst(), Some(Severity::Warning));
    let known: Vec<&str> = report.reasons.reasons.iter().map(|r| r.0.as_str()).collect();
    assert_eq!(known, vec!["unmigrated_animation_path", "unmigrated_hud_asset"]);
}

#[test]
fn the_same_finding_is_told_once() {
    let mut r = CheckReport::new();
    r.push(Diagnostic::with_resolved_severity("a", Severity::Crash, "rule").with_entry("e").with_field("f"));
    r.push(Diagnostic::with_resolved_severity("a", Severity::Crash, "rule").with_entry("e").with_field("f"));
    r.push(Diagnostic::with_resolved_severity("a", Severity::Crash, "rule").with_entry("g"));
    r.dedupe();
    assert_eq!(r.diagnostics.len(), 2);
}

#[test]
fn reasons_that_nobody_defines_are_listed() {
    let mut bad = extension_rule();
    bad.reason = Some("no_such_reason".to_string());
    let cfg = config(vec![("a", bad), ("b", extension_rule())]);
    assert_eq!(unknown_reason_ids(&cfg), names(&["no_such_reason"]));
}

#[test]
fn game_provider_is_object_safe() {
    let g = Game::empty();
    assert!(!g.has_path("data/x.bin"));
    assert!(g.pull_raw("x").is_none());
    assert!(g.game_bin("x").is_none());
    assert!(g.shader_defs().is_none());
}

/// A BIN format of its own: the magic `PROP`, one string, then linked paths, a line each.
struct Lines;

impl BinProvider for Lines {
    fn parse_bytes(&self, data: &[u8]) -> Result<BinTree, BinFault> {
        if !data.starts_with(b"PROP") {
            return Err(BinFault { message: "no BIN".to_string() });
        }
        let body = String::from_utf8_lossy(&data[4..]).to_string();
        let mut lines = body.split('\n');
        let mut tree = tree_with_texture(lines.next().unwrap_or(""));
        tree.linked = lines.map(|s| s.to_string()).collect();
        Ok(tree)
    }

    fn write_bytes(&self, tree: &BinTree) -> Result<Vec<u8>, BinFault> {
        let mut all = vec![first_string(tree)];
        if all[0].ends_with("unwritable.tex") {
            return Err(BinFault { message: "cannot write".to_string() });
        }
        all.extend(tree.linked.iter().cloned());
        Ok(format!("PROP{}", all.join("\n")).into_bytes())
    }
}

fn bin_bytes(lines: &[&str]) -> Vec<u8> {
    format!("PROP{}", lines.join("\n")).into_bytes()
}

fn run_of<'a>(
    config: &'a FixConfig,
    ids: &'a Vec<String>,
    champions: &'a CharacterRelations,
    hashes: &'a Names,
    wad: &'a Wad,
    dry_run: bool,
) -> Session<'a, Names, Wad, Game, Lines> {
    Session {
        config,
        selected_fixes: ids,
        champions,
        hashes,
        wad,
        game: None,
        valid_shaders: None,
        provider: &Lines,
        reachable: None,
        animation_bins: None,
        dry_run,
    }
}

#[test]
fn kinds_of_input() {
    assert_eq!(file_kind("x.BIN"), Some(FileKind::Bin));
    assert_eq!(file_kind("Jhin.wad.client"), Some(FileKind::Wad));
    assert_eq!(file_kind("x.fantome"), Some(FileKind::Fantome));
    assert_eq!(file_kind("x.Zip"), Some(FileKind::Fantome));
    assert_eq!(file_kind("x.txt"), None);
    assert_eq!(file_kind(".bin"), None);
    assert!(is_supported_file("a.b.bin"));
    assert!(!is_supported_file("bin"));
}

#[test]
fn a_bin_file_is_repaired_and_written() {
    let (h, w, c) = (hashes(), Wad { paths: vec![] }, champions());
    let cfg = config(vec![("dds_to_tex", extension_rule())]);
    let ids = names(&["dds_to_tex"]);
    let s = run_of(&cfg, &ids, &c, &h, &w, false);
    let done = process_bin_file(&s, "x.bin", &bin_bytes(&["a/x.dds"]), true).unwrap();
    assert_eq!(done.bytes, Some(bin_bytes(&["a/x.tex"])));
    let info = done.result.check_info.unwrap();
    assert!(info.is_binless);
    assert_eq!(info.detected_issues, names(&["A rule"]));

    let clean = process_bin_file(&s, "x.bin", &bin_bytes(&["a/x.skn"]), false).unwrap();
    assert_eq!(clean.bytes, None);
    assert!(clean.result.is_clean());

    assert!(matches!(process_bin_file(&s, "x.bin", b"JUNK", false), Err(ProcessError::Unreadable)));
    assert!(matches!(
        process_bin_file(&s, "x.bin", &bin_bytes(&["a/unwritable.dds"]), false),
        Err(ProcessError::Unwritable)
    ));
}

#[test]
fn an_archive_is_repaired_in_order() {
    let (h, w, c) = (hashes(), Wad { paths: vec![] }, champions());
    let cfg = config(vec![("dds_to_tex", extension_rule())]);
    let ids = names(&["dds_to_tex"]);
    let s = run_of(&cfg, &ids, &c, &h, &w, false);
    let skin = "data/characters/jhin/skins/skin0.bin";
    let art = "assets/characters/jhin/x.tex";
    let mut files: Vec<WadEntry> = vec![
        (wad_path_hash(skin), skin.to_string(), bin_bytes(&["assets/characters/jhin/x.dds"])),
        (wad_path_hash(art), art.to_string(), b"art".to_vec()),
    ];
    let mut opts = RepathOptions::new("bum");
    opts.layout = RepathLayout::Nested;
    let done = process_wad_file(
        &s,
        &mut files,
        &ReferencedAssets::new(),
        Some(&opts),
        true,
        None,
        &AssetRegistry::new(),
        &NoConverters,
    )
    .unwrap();
    assert!(done.result.fixes_applied >= 1);
    assert!(done.removals.is_empty());
    assert_eq!(files.len(), 2);
    let moved = "assets/bum/characters/jhin/x.tex";
    let root = files.iter().find(|f| f.1 == skin).expect("a root skin stays");
    assert_eq!(root.2, bin_bytes(&[moved]));
    let entry = files.iter().find(|f| f.1 == moved).expect("the art moves");
    assert_eq!(entry.0, wad_path_hash(moved));
    assert_eq!(entry.2, b"art".to_vec());
    let info = done.result.check_info.unwrap();
    assert_eq!(info.champion.as_deref(), Some("jhin"));
    assert_eq!(info.skin_number, Some(0));
    assert!(needs_rebuild(false, done.result.fixes_applied, &done.removals));
    assert!(!needs_rebuild(true, 1, &vec![]));
}

fn texture_rule(reason: Option<&str>, apply: WadTransformAction) -> WadFixRule {
    WadFixRule {
        name: "Textures".to_string(),
        reason: reason.map(str::to_owned),
        detect: WadDetectionRule::FileExtension { extension: ".dds".to_string(), binary_check: None, exclude_files: Vec::new() },
        apply,
    }
}

#[test]
fn a_mod_without_bins_is_reported() {
    let (h, w, c) = (hashes(), Wad { paths: vec![] }, champions());
    let mut cfg = config(vec![]);
    let remove = WadTransformAction::RemoveFile { unless_referenced: false };
    cfg.wad_fixes.push(("old_textures".to_string(), texture_rule(Some("unmigrated_hud_asset"), remove)));
    let ids = names(&["old_textures"]);
    let s = run_of(&cfg, &ids, &c, &h, &w, true);
    let mut files: Vec<WadEntry> = vec![(1, "a.dds".to_string(), vec![]), (2, "b.dds".to_string(), vec![])];
    let done =
        process_wad_file(&s, &mut files, &ReferencedAssets::new(), None, true, None, &AssetRegistry::new(), &NoConverters).unwrap();
    let report = done.result.report;
    assert_eq!(report.diagnostics.len(), 1);
    assert_eq!(report.diagnostics[0].reason, "unmigrated_hud_asset");
    assert_eq!(report.diagnostics[0].severity, Severity::Warning);
    assert_eq!(report.diagnostics[0].fix_id, "old_textures");
    assert_eq!(report.diagnostics[0].detail.as_deref(), Some("2 files"));
    assert_eq!(report.reasons.title("unmigrated_hud_asset"), "Interface asset uses the old format");
    assert!(done.result.check_info.unwrap().is_binless);
}

#[test]
fn a_planned_rename_is_carried_out() {
    let (h, w, c) = (hashes(), Wad { paths: vec![] }, champions());
    let mut cfg = config(vec![("dds_to_tex", extension_rule())]);
    cfg.wad_fixes.push((
        "rename".to_string(),
        WadFixRule {
            name: "Rename".to_string(),
            reason: None,
            detect: WadDetectionRule::FilePattern { pattern: "**/old*".to_string(), binary_check: None },
            apply: WadTransformAction::RenameFile { pattern: "old".to_string(), replacement: "new".to_string() },
        },
    ));
    let ids = names(&["rename", "dds_to_tex"]);
    let s = run_of(&cfg, &ids, &c, &h, &w, false);
    let mut files: Vec<WadEntry> = vec![
        (1, "x/y/old.bin".to_string(), bin_bytes(&["a/x.dds"])),
        (2, "x/old_art.tex".to_string(), b"art".to_vec()),
        (3, "x/other.tex".to_string(), b"other".to_vec()),
    ];
    let done =
        process_wad_file(&s, &mut files, &ReferencedAssets::new(), None, false, None, &AssetRegistry::new(), &NoConverters).unwrap();
    // Two files renamed, one rule applied to the BIN under its new path.
    assert_eq!(done.result.fixes_applied, 3);
    assert_eq!(done.result.applied_fixes[0].file_path, "x/y/new.bin");
    assert_eq!(
        files,
        vec![
            (wad_path_hash("x/y/new.bin"), "x/y/new.bin".to_string(), bin_bytes(&["a/x.tex"])),
            (wad_path_hash("x/new_art.tex"), "x/new_art.tex".to_string(), b"art".to_vec()),
            (3, "x/other.tex".to_string(), b"other".to_vec()),
        ]
    );
}

#[test]
fn renames_happen_all_at_once() {
    let pair = |a: &str, b: &str| (a.to_string(), b.to_string());
    let mut files: Vec<WadEntry> =
        vec![(1, "a".to_string(), vec![1]), (2, "b".to_string(), vec![2]), (3, "c".to_string(), vec![3])];
    apply_renames(&mut files, &vec![pair("a", "b"), pair("b", "a"), pair("a", "z"), pair("c", "d")], &names(&["c"]));
    assert_eq!(
        files,
        vec![
            (wad_path_hash("b"), "b".to_string(), vec![1]),
            (wad_path_hash("a"), "a".to_string(), vec![2]),
            (3, "c".to_string(), vec![3]),
        ]
    );
}

#[test]
fn a_faulty_archive_rule_changes_nothing() {
    let (h, w, c) = (hashes(), Wad { paths: vec![] }, champions());
    let mut cfg = config(vec![]);
    cfg.wad_fixes.push((
        "broken".to_string(),
        WadFixRule {
            name: "Broken".to_string(),
            reason: None,
            detect: WadDetectionRule::FilePattern { pattern: "[".to_string(), binary_check: None },
            apply: WadTransformAction::RemoveFile { unless_referenced: false },
        },
    ));
    let ids = names(&["broken"]);
    let s = run_of(&cfg, &ids, &c, &h, &w, false);
    let mut files: Vec<WadEntry> = vec![(1, "a.bin".to_string(), b"x".to_vec())];
    let r = process_wad_file(&s, &mut files, &ReferencedAssets::new(), None, false, None, &AssetRegistry::new(), &NoConverters);
    assert_eq!(r.err(), Some(WadError::InvalidPattern));
    assert_eq!(files, vec![(1, "a.bin".to_string(), b"x".to_vec())]);
}

#[test]
fn missing_files_come_from_the_game() {
    let mut files: Vec<WadEntry> = vec![(1, "a.bin".to_string(), bin_bytes(&["assets/x/art.dds"]))];
    let game: Vec<WadEntry> = vec![
        (wad_path_hash("assets/x/art.dds"), "assets/x/art.dds".to_string(), b"art".to_vec()),
        (wad_path_hash("assets/x/other.dds"), "assets/x/other.dds".to_string(), b"other".to_vec()),
    ];
    assert_eq!(extract_missing_from_game_wad(&mut files, &game, &Lines, true), 1);
    assert_eq!(files.len(), 2);
    assert_eq!(files[1].1, "assets/x/art.dds");
    assert_eq!(files[1].2, b"art".to_vec());
    assert_eq!(extract_missing_from_game_wad(&mut files, &game, &Lines, true), 0);
}

struct Upper;

impl Converters for Upper {
    fn convert(&self, name: &str, bytes: &[u8]) -> Result<Vec<u8>, BinFault> {
        if name == "upper" {
            Ok(bytes.to_ascii_uppercase())
        } else {
            Err(BinFault { message: format!("no converter {name}") })
        }
    }
}

#[test]
fn files_are_converted_changed_and_added() {
    let mut files: Vec<WadEntry> = vec![(1, "a.dds".to_string(), b"abc".to_vec()), (2, "b.tex".to_string(), b"XYZ".to_vec())];
    let convert = |converter: &str| FileConversion {
        path: "a.dds".to_string(),
        from_ext: ".dds".to_string(),
        to_ext: ".tex".to_string(),
        converter: converter.to_string(),
    };
    assert_eq!(apply_conversions(&mut files, &vec![convert("upper"), convert("nonsense")], &Upper), 1);
    assert_eq!(files[0].2, b"ABC".to_vec());
    let change = |path: &str| InPlaceTransform {
        path: path.to_string(),
        converter: "upper".to_string(),
        fix_id: "f".to_string(),
        fix_name: "F".to_string(),
    };
    assert_eq!(apply_in_place(&mut files, &vec![change("b.tex"), change("missing")], &Upper), 0);
    let add = |path: &str, asset: &str| FileAddition { asset: asset.to_string(), path: path.to_string(), only_if_missing: true };
    let registry = AssetRegistry::new();
    assert_eq!(apply_additions(&mut files, &vec![add("c.tex", "invis_tex"), add("b.tex", "invis_tex"), add("d", "none")], &registry), 1);
    assert_eq!(files.len(), 3);
    assert_eq!(files[2].1, "c.tex");
    assert_eq!(files[2].0, wad_path_hash("c.tex"));
}

fn zip_entry(name: &str, size: u64) -> ZipEntryInfo {
    ZipEntryInfo { name: name.to_string(), size, is_absolute: false }
}

#[test]
fn only_archives_are_taken_out() {
    let list = vec![zip_entry("META/info.json", 10), zip_entry("WAD/Jhin.wad.client", 100), zip_entry("WAD/Lux.WAD.CLIENT", 100)];
    assert_eq!(plan_extraction(&list).unwrap(), vec![1, 2]);
    assert_eq!(repack_source("WAD/Jhin.wad.client", true), EntrySource::Fixed);
    assert_eq!(repack_source("WAD/Jhin.wad.client", false), EntrySource::Original);
    assert_eq!(repack_source("META/info.json", true), EntrySource::Original);
    assert!(needs_repack(false, 1));
    assert!(!needs_repack(true, 1));
    assert!(!needs_repack(false, 0));
}

#[test]
fn dangerous_archives_are_refused() {
    let wad = "WAD/x.wad.client";
    let many = (0..1001).map(|_| zip_entry("a", 0)).collect();
    assert!(matches!(plan_extraction(&many), Err(FantomeError::TooManyEntries { count: 1001 })));
    let up = vec![zip_entry("../x.wad.client", 1)];
    assert!(matches!(plan_extraction(&up), Err(FantomeError::PathTraversal { index: 0 })));
    let absolute = vec![ZipEntryInfo { name: "/x.wad.client".to_string(), size: 1, is_absolute: true }];
    assert!(matches!(plan_extraction(&absolute), Err(FantomeError::PathTraversal { index: 0 })));
    let large = vec![zip_entry("note", u64::MAX), zip_entry(wad, MAX_FILE_SIZE + 1)];
    assert!(matches!(plan_extraction(&large), Err(FantomeError::EntryTooLarge { index: 1, .. })));
    let total = (0..5).map(|_| zip_entry(wad, MAX_FILE_SIZE)).collect();
    assert!(matches!(plan_extraction(&total), Err(FantomeError::TotalTooLarge { .. })));
}

#[test]
fn results_add_up() {
    let mut a = ProcessResult::new();
    a.files_processed = 2;
    a.errors.push("x".to_string());
    let mut b = ProcessResult::new();
    b.files_processed = u32::MAX;
    b.errors.push("y".to_string());
    a.merge(b);
    assert_eq!(a.files_processed, u32::MAX);
    assert_eq!(a.errors, names(&["x", "y"]));
    assert_eq!(finish(&a), Err(2));
    assert_eq!(finish(&ProcessResult::new()), Ok(()));
}

fn dead_assets(latent: Option<&str>) -> FixRule {
    rule(
        DetectionRule::DeadAssetReference {
            extensions: names(&[".anm", ".skn"]),
            path_prefixes: names(&["assets/"]),
            downgrade_markers: names(&["minion"]),
            downgrade_reason: Some("unmigrated_animation_path".to_string()),
            latent_reason: latent.map(str::to_owned),
            suppress_never_loaded: false,
        },
        TransformAction::ReportOnly,
    )
}

#[test]
fn dead_references_are_summed_up_by_group() {
    let (h, w, c) = (hashes(), Wad { paths: vec![] }, champions());
    let game = Game::empty();
    let tree = tree_of(vec![object(
        1,
        10,
        vec![
            prop(1, text("assets/characters/jhin/b.anm")),
            prop(2, text("assets/characters/jhin/a.anm")),
            prop(3, text("assets/characters/minion_red/x.skn")),
        ],
    )]);
    let cfg = config(vec![]);
    let ctx = session(tree, "data/x.bin", &h, &w, &c, Some(&game));
    let found = diagnose_fired_rule("dead", &dead_assets(None), &cfg, &ctx);
    assert_eq!(found.len(), 2);
    assert_eq!(found[0].reason, "unmigrated_hud_asset");
    assert_eq!(found[0].detail.as_deref(), Some("2 missing, including assets/characters/jhin/a.anm"));
    assert_eq!(found[0].entry.as_deref(), Some("data/x.bin"));
    assert_eq!(found[1].reason, "unmigrated_animation_path");
    assert_eq!(found[1].severity, Severity::Crash);
    assert_eq!(found[1].detail.as_deref(), Some("assets/characters/minion_red/x.skn"));
}

#[test]
fn a_stale_record_is_judged_by_its_critical_field() {
    let (h, w, c) = (hashes(), Wad { paths: vec![] }, champions());
    let class = fnv1a_hash("CharacterRecord");
    let root = "data/characters/jhin/jhin.bin";
    let live = tree_of(vec![object(
        class,
        10,
        vec![prop(fnv1a_hash("spells"), text("q")), prop(fnv1a_hash("armor"), text("20"))],
    )]);
    let game = Game { paths: vec![], bins: vec![(root.to_string(), live)], shaders: None };
    let stale = |critical: Option<&str>| {
        rule(
            DetectionRule::StaleCharacterRecord {
                entry_type: "CharacterRecord".to_string(),
                fields: names(&["spells", "armor"]),
                critical_field: critical.map(str::to_owned),
                critical_reason: Some("unmigrated_animation_path".to_string()),
            },
            TransformAction::ReportOnly,
        )
    };
    let cfg = config(vec![]);
    let ours = tree_of(vec![object(class, 10, vec![])]);
    let ctx = session(ours, root, &h, &w, &c, Some(&game));
    let counted = diagnose_fired_rule("stale", &stale(None), &cfg, &ctx);
    assert_eq!(counted.len(), 1);
    assert_eq!(counted[0].reason, "unmigrated_hud_asset");
    assert_eq!(counted[0].detail.as_deref(), Some("2 missing: spells, armor"));
    let critical = diagnose_fired_rule("stale", &stale(Some("Spells")), &cfg, &ctx);
    assert_eq!(critical[0].reason, "unmigrated_animation_path");
    assert_eq!(critical[0].detail.as_deref(), Some("missing Spells"));
}

#[test]
fn a_rule_says_why_it_cannot_run() {
    let (h, w, c) = (hashes(), Wad { paths: vec![] }, champions());
    let unnamed = Names::of(&[], &[]);
    let game = Game::empty();
    let shader = rule(DetectionRule::DeadShaderLink, TransformAction::ReportOnly);
    let field = rule(
        DetectionRule::FieldHashExists { entry_type: "Skin".to_string(), path: "a".to_string() },
        TransformAction::ReportOnly,
    );
    let alone = session(tree_with_texture("a"), "data/x.bin", &h, &w, &c, None);
    assert_eq!(skip_reason(&shader, &alone), Some(SkipReason::NoGameDir));
    assert_eq!(skip_reason(&field, &alone), None);
    let with_game = session(tree_with_texture("a"), "data/x.bin", &unnamed, &w, &c, Some(&game));
    assert_eq!(skip_reason(&shader, &with_game), Some(SkipReason::NoShaderList));
    assert_eq!(skip_reason(&field, &with_game), Some(SkipReason::NoHashDictionary));
    assert_eq!(skip_reason(&extension_rule(), &with_game), None);
}

#[test]
fn forms_are_told_only_where_there_are_several() {
    let file = |path: &str| -> WadEntry { (wad_path_hash(path), path.to_string(), vec![]) };
    let one = vec![file("data/characters/jhin/skins/skin0.bin"), file("data/characters/jhin/skins/skin1.bin")];
    assert!(subchampion_forms(&one).is_empty());
    let two = vec![file("data/characters/jhintrap/skins/skin0.bin"), file("data/characters/jhin/skins/skin0.bin")];
    assert_eq!(subchampion_forms(&two), names(&["jhin", "jhintrap"]));
}

#[test]
fn missing_animations_are_listed() {
    let shipped = "assets/a/run.anm";
    let files: Vec<WadEntry> = vec![(wad_path_hash(shipped), shipped.to_string(), vec![])];
    let refs = names(&["assets/a/run.anm", "assets/a/idle.ANM", "assets/a/x.dds"]);
    assert_eq!(missing_animations(&files, &refs), names(&["assets/a/idle.ANM"]));
}
