//! Paths, names and their hashes.

use hematite::hashing::wad_path_hash;
use hematite::strings::{fnv1a_hash, matches_pattern, normalize_wad_path, replace_extension, resolve_hash_token};
use hematite::transform::split_entries::resolve_template;

#[test]
fn test_replace_extension() {
    assert_eq!(replace_extension("assets/icon.DDS", ".dds", ".tex"), Some("assets/icon.tex".to_string()));
    assert_eq!(replace_extension("assets/model.skn", ".dds", ".tex"), None);
}

#[test]
fn test_matches_pattern() {
    assert!(matches_pattern("TextureName", "Texture*"));
    assert!(matches_pattern("TextureName", "*Name"));
    assert!(matches_pattern("TextureName", "*ture*"));
    assert!(matches_pattern("TextureName", "TextureName"));
    assert!(!matches_pattern("TextureName", "Sampler*"));
}

#[test]
fn test_fnv1a_hash() {
    let hash = fnv1a_hash("UnitHealthBarStyle");
    assert_ne!(hash, 0);
}

#[test]
fn test_normalize_wad_path() {
    assert_eq!(
        normalize_wad_path("Assets\\Characters\\Lux\\Skins\\Skin01.dds"),
        "assets/characters/lux/skins/skin01.dds"
    );
}

#[test]
fn names_hash_without_regard_to_case() {
    assert_eq!(fnv1a_hash("CubemapProbePath"), 0xfe38_0acf);
    assert_eq!(fnv1a_hash(""), 0x811c_9dc5);
    assert_eq!(resolve_hash_token("0xfe380acf"), 0xfe38_0acf);
    assert_eq!(resolve_hash_token("cubemapprobepath"), 0xfe38_0acf);
}

#[test]
fn letters_outside_ascii_are_lower_cased_too() {
    assert_eq!(normalize_wad_path("ASSETS/\u{c4}\\X"), "assets/\u{e4}/x");
}

#[test]
fn archive_paths_hash_without_regard_to_case() {
    let h = wad_path_hash("ASSETS/Characters/Aatrox/Skins/Base/AatroxLoadscreen.tex");
    assert_eq!(h, 0xb7a4_3488_6d1c_e5e6);
    assert_eq!(h, wad_path_hash("assets/characters/aatrox/skins/base/aatroxloadscreen.tex"));
    assert_ne!(h, wad_path_hash("assets/characters/aatrox/skins/base/aatroxloadscreen.dds"));
}

#[test]
fn template_basic_substitutions() {
    let out = resolve_template("{source_dir}/{champion}_vfx_skin{skin}.bin", "data/characters/yone/skins/skin0.bin");
    assert_eq!(out, "data/characters/yone/skins/yone_vfx_skin0.bin");
}

#[test]
fn template_handles_assets_root_and_no_skin() {
    let out = resolve_template("{champion}-{source_stem}-{source_ext}", "assets/characters/ahri/data.bin");
    assert_eq!(out, "ahri-data-bin");
}

#[test]
fn template_handles_path_with_no_directory() {
    let out = resolve_template("{source_stem}.{source_ext}", "skin0.bin");
    assert_eq!(out, "skin0.bin");
}

#[test]
fn template_falls_back_to_empty_for_unknown_vars() {
    let out = resolve_template("{champion}/{skin}/{source_stem}", "data/characters/yone/skins/skin27.bin");
    assert_eq!(out, "yone/27/skin27");
}
