//! Rules for archive files.

use hematite::archive::WadEntry;
use hematite::config::{AssetInjection, BinaryHeaderCheck, Endian, FixConfig, RepathConfig, WadDetectionRule, WadFixRule, WadTransformAction};
use hematite::diagnostic::ReasonCatalog;
use hematite::wad_pipeline::detect::{check_binary_header, check_extension, check_file, check_pattern, check_version_at_offset, WadError};
use hematite::wad_pipeline::transform::{apply_action, ActionResult};
use hematite::wad_pipeline::{apply_single_fix, apply_wad_fixes, ReferencedAssets};

/// A texture header: magic, 16-bit width and height, a spare byte, then the format byte.
fn tex_header(width: u16, height: u16, format: u8) -> Vec<u8> {
    let mut b = vec![0u8; 12];
    b[0..4].copy_from_slice(b"TEX\0");
    b[4..6].copy_from_slice(&width.to_le_bytes());
    b[6..8].copy_from_slice(&height.to_le_bytes());
    b[9] = format;
    b
}

fn alignment_check() -> BinaryHeaderCheck {
    BinaryHeaderCheck::BlockAlignment {
        magic: b"TEX\0".to_vec(),
        width_offset: 4,
        height_offset: 6,
        format_offset: 9,
        block_formats: vec![10, 12],
        block_size: 4,
    }
}

#[test]
fn misaligned_block_compressed_texture_is_flagged() {
    let check = alignment_check();
    assert!(check_binary_header(&tex_header(120, 121, 12), &check).unwrap());
    assert!(check_binary_header(&tex_header(63, 64, 10), &check).unwrap());
}

#[test]
fn an_aligned_texture_is_not_flagged() {
    let check = alignment_check();
    assert!(!check_binary_header(&tex_header(120, 120, 12), &check).unwrap());
    assert!(!check_binary_header(&tex_header(24, 24, 12), &check).unwrap());
}

#[test]
fn an_uncompressed_texture_of_any_size_is_fine() {
    let check = alignment_check();
    assert!(!check_binary_header(&tex_header(121, 123, 20), &check).unwrap());
}

#[test]
fn a_non_texture_or_truncated_file_is_not_flagged() {
    let check = alignment_check();
    assert!(!check_binary_header(b"NOTATEX-----", &check).unwrap());
    assert!(!check_binary_header(b"TEX", &check).unwrap());
}

#[test]
fn test_check_extension() {
    assert!(check_extension("test.bnk", ".bnk", &[], &None, &vec![]).unwrap());
    assert!(!check_extension("test.bin", ".bnk", &[], &None, &vec![]).unwrap());
}

#[test]
fn test_check_version_at_offset() {
    let mut bytes = vec![0u8; 16];
    bytes[8..12].copy_from_slice(&100u32.to_le_bytes());
    assert!(check_version_at_offset(&bytes, 8, 4, &Endian::Little, &vec![145, 134]).unwrap());
    assert!(!check_version_at_offset(&bytes, 8, 4, &Endian::Little, &vec![100, 145]).unwrap());
}

#[test]
fn test_magic_signature() {
    let bytes = vec![0x42, 0x4B, 0x48, 0x44, 0x01, 0x02];
    let check = BinaryHeaderCheck::MagicSignature { signature: vec![0x42, 0x4B, 0x48, 0x44] };
    assert!(check_binary_header(&bytes, &check).unwrap());
}

#[test]
fn versions_are_read_in_both_byte_orders() {
    let bytes = [0x01, 0x02, 0x03, 0x04];
    assert!(!check_version_at_offset(&bytes, 0, 2, &Endian::Little, &vec![0x0201]).unwrap());
    assert!(!check_version_at_offset(&bytes, 0, 2, &Endian::Big, &vec![0x0102]).unwrap());
    assert!(!check_version_at_offset(&bytes, 0, 4, &Endian::Big, &vec![0x01020304]).unwrap());
    assert!(!check_version_at_offset(&bytes, 3, 1, &Endian::Big, &vec![4]).unwrap());
    assert!(!check_version_at_offset(&bytes, 3, 4, &Endian::Big, &vec![]).unwrap());
    assert_eq!(check_version_at_offset(&bytes, 0, 3, &Endian::Big, &vec![]), Err(WadError::InvalidVersionSize(3)));
}

#[test]
fn patterns_are_globs() {
    assert!(check_pattern("assets/x/a.dds", "assets/*/a.dds", &[], &None).unwrap());
    assert!(!check_pattern("assets/x/y/a.dds", "assets/*/a.dds", &[], &None).unwrap());
    assert!(check_pattern("assets/x/y/a.dds", "assets/**/a.dds", &[], &None).unwrap());
    assert!(check_pattern("ASSETS/x/y/z/a.dds", "assets/**.dds", &[], &None).unwrap());
    assert!(check_pattern("assets/x/y/a1.dds", "assets/**/a*.dds", &[], &None).unwrap());
    assert!(!check_pattern("assets/x/y/a/1.dds", "assets/*/a*.dds", &[], &None).unwrap());
    assert!(!check_pattern("data/x/y/a.dds", "assets/**/a.dds", &[], &None).unwrap());
    assert!(!check_pattern("assets/x/axdds", "assets/**/a.dds", &[], &None).unwrap());
    assert_eq!(check_pattern("a", "[", &[], &None), Err(WadError::InvalidPattern));
    assert!(!check_file("anything", &[], &WadDetectionRule::Always).unwrap());
}

fn anm_rule(unless_referenced: bool) -> WadFixRule {
    WadFixRule {
        name: "Animation File Remover".to_string(),
        reason: None,
        detect: WadDetectionRule::FileExtension {
            extension: ".anm".to_string(),
            binary_check: None,
            exclude_files: Vec::new(),
        },
        apply: WadTransformAction::RemoveFile { unless_referenced },
    }
}

#[test]
fn remove_file_unless_referenced_keeps_referenced_files() {
    let by_string = "assets/x/animations/by_string.anm";
    let by_hash = "assets/x/animations/by_hash.anm";
    let bloat = "assets/x/animations/bloat.anm";
    let files: Vec<WadEntry> =
        vec![(1, by_string.to_string(), vec![0]), (0xF11E, by_hash.to_string(), vec![0]), (3, bloat.to_string(), vec![0])];
    let mut referenced = ReferencedAssets::new();
    referenced.paths.push(by_string.to_string());
    referenced.hashes.insert(0xF11E);

    let out = apply_single_fix(&files, &anm_rule(true), "anm_remover", &referenced).unwrap();
    assert_eq!(out.files_to_remove, vec![bloat.to_string()]);

    let out = apply_single_fix(&files, &anm_rule(false), "anm_remover", &referenced).unwrap();
    assert_eq!(out.files_to_remove.len(), 3);
}

#[test]
fn a_renamed_file_gets_its_new_path() {
    let action = WadTransformAction::RenameFile { pattern: "skin(\\d)".to_string(), replacement: "base$1".to_string() };
    match apply_action("assets/skin1.dds", &[], &action).unwrap() {
        ActionResult::RenameFile { new_path } => assert_eq!(new_path, "assets/base1.dds"),
        other => panic!("expected a rename, got {other:?}"),
    }
    assert!(matches!(apply_action("assets/x.dds", &[], &action).unwrap(), ActionResult::NoOp));
    let broken = WadTransformAction::RenameFile { pattern: "(".to_string(), replacement: String::new() };
    assert_eq!(apply_action("assets/x.dds", &[], &broken).err(), Some(WadError::InvalidPattern));
}

fn config(wad_fixes: Vec<(String, WadFixRule)>) -> FixConfig {
    FixConfig {
        version: "1".to_string(),
        fixes: vec![],
        wad_fixes,
        reasons: ReasonCatalog { reasons: vec![] },
        enabled_fixes: None,
        repath: RepathConfig {
            enabled: false,
            prefix: String::new(),
            invis_texture: false,
            skip_vo: true,
            placeholder_rules: Vec::new(),
        },
    }
}

#[test]
fn selected_rules_make_one_plan() {
    let add = WadFixRule {
        name: "Fallback".to_string(),
        reason: None,
        detect: WadDetectionRule::Always,
        apply: WadTransformAction::AddFiles {
            assets: vec![AssetInjection { asset: "invis_tex".to_string(), path: "assets/x.tex".to_string(), only_if_missing: true }],
        },
    };
    let cfg = config(vec![("anm_remover".to_string(), anm_rule(false)), ("fallback".to_string(), add)]);
    let files: Vec<WadEntry> = vec![(1, "a.anm".to_string(), vec![]), (2, "b.skn".to_string(), vec![])];
    let ids = vec!["anm_remover".to_string(), "unknown".to_string(), "fallback".to_string()];
    let out = apply_wad_fixes(&files, &cfg, &ids, &ReferencedAssets::new()).unwrap();
    assert_eq!(out.files_to_remove, vec!["a.anm".to_string()]);
    assert_eq!(out.files_to_add.len(), 1);
    assert_eq!(out.files_to_add[0].asset, "invis_tex");
    assert_eq!(out.applied_fixes[0].files_affected, 1);
}
