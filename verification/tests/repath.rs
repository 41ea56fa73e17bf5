//! New homes for a mod's assets.

use hematite::bin::{BinObject, BinProperty, BinTree, FieldHash, OrderedMap, PathHash, PropertyValue, TypeHash};
use hematite::hashing::PathHasher;
use hematite::repath::{
    collect_bin_asset_paths, invis_tex_bytes, is_modder_root_path, is_repath_candidate, is_root_skin_bin, looks_like_bin,
    missing_invis_placeholders, remove_prefix, repath_bin_strings, repath_path, repath_wad_path, split_asset_path, twin_of, RepathLayout,
    RepathOptions, WadIndex,
};
use hematite::walk::extract_strings;

/// A hash of its own, the same on both sides of an index.
struct TestHasher;

fn dummy_hash(s: &str) -> u64 {
    s.bytes().fold(0u64, |a, b| a.wrapping_mul(131).wrapping_add(b as u64))
}

impl PathHasher for TestHasher {
    fn hash(&self, path: &str) -> u64 {
        dummy_hash(path)
    }
}

fn opts(prefix: &str, layout: RepathLayout) -> RepathOptions {
    let mut o = RepathOptions::new(prefix);
    o.layout = layout;
    o
}

#[test]
fn topaz_layout_assets() {
    assert_eq!(
        repath_path(
            "assets/characters/yone/skins/skin0/yone_base.skn",
            ".yone1_",
            RepathLayout::InFolder
        ),
        "ASSETS/.yone1_characters/yone/skins/skin0/yone_base.skn"
    );
}

#[test]
fn topaz_layout_data() {
    assert_eq!(
        repath_path(
            "data/characters/yone/animations/skin0.bin",
            ".yone1_",
            RepathLayout::InFolder
        ),
        "DATA/.yone1_characters/yone/animations/skin0.bin"
    );
}

#[test]
fn topaz_layout_short_path() {
    assert_eq!(
        repath_path(
            "assets/spells/yone_q.bin",
            ".yone1_",
            RepathLayout::InFolder
        ),
        "ASSETS/.yone1_spells/yone_q.bin"
    );
}

#[test]
fn topaz_layout_root_only() {
    assert_eq!(
        repath_path("assets/", ".yone1_", RepathLayout::InFolder),
        "assets/"
    );
}

#[test]
fn topaz_layout_case_insensitive_root() {
    assert_eq!(
        repath_path(
            "ASSETS/Characters/Yone/skin.dds",
            ".yone1_",
            RepathLayout::InFolder
        ),
        "ASSETS/.yone1_Characters/Yone/skin.dds"
    );
}

#[test]
fn non_asset_path_passes_through() {
    assert_eq!(
        repath_path(
            "sounds/effects/explosion.bnk",
            ".x_",
            RepathLayout::InFolder
        ),
        ".x_/sounds/effects/explosion.bnk"
    );
    assert_eq!(
        repath_path("just_a_name", ".x_", RepathLayout::InFolder),
        "just_a_name"
    );
    assert_eq!(
        repath_path("some/random/path.txt", ".x_", RepathLayout::InFolder),
        "some/random/path.txt"
    );
}


#[test]
fn modder_root_path_gets_prefix_prepended() {
    assert_eq!(
        repath_path("reddivinekinggaren/foo.dds", "bum", RepathLayout::InFolder),
        "bum/reddivinekinggaren/foo.dds"
    );
    assert_eq!(
        repath_path("reddivinekinggaren/foo.dds", "bum", RepathLayout::Nested),
        "bum/reddivinekinggaren/foo.dds"
    );
    assert_eq!(
        repath_path("modder/effects/sparkle.scb", "bum", RepathLayout::InFolder),
        "bum/modder/effects/sparkle.scb"
    );
}


#[test]
fn nested_layout_assets() {
    assert_eq!(
        repath_path(
            "assets/characters/yone/skin.dds",
            "yone1",
            RepathLayout::Nested
        ),
        "assets/yone1/characters/yone/skin.dds"
    );
}

#[test]
fn repath_path_normalizes_backslashes() {
    assert_eq!(
        repath_path(
            "assets\\characters\\yone\\skin.dds",
            "yone1",
            RepathLayout::Nested
        ),
        "assets/yone1/characters/yone/skin.dds"
    );
    assert_eq!(
        repath_path(
            "assets\\characters\\yone\\skins\\skin0\\yone_base.skn",
            ".yone1_",
            RepathLayout::InFolder
        ),
        "ASSETS/.yone1_characters/yone/skins/skin0/yone_base.skn"
    );
}


#[test]
fn root_skin_detection() {
    assert!(is_root_skin_bin("data/characters/yone/yone.bin"));
    assert!(is_root_skin_bin("DATA/Characters/Yone/Yone.bin"));
    assert!(is_root_skin_bin("data/characters/yone/skins/skin0.bin"));
    assert!(is_root_skin_bin("data/characters/yone/skins/skin27.bin"));
    assert!(is_root_skin_bin("data/characters/yone/skins/root.bin"));

    assert!(!is_root_skin_bin(
        "data/characters/yone/animations/skin0.bin"
    ));
    assert!(!is_root_skin_bin(
        "data/characters/yone/skins/skin0/effects.bin"
    ));
    assert!(!is_root_skin_bin("data/shared/foo.bin"));
    assert!(!is_root_skin_bin("assets/characters/yone/yone.bin"));
    assert!(!is_root_skin_bin("data/characters/yone/yoneother.bin"));
}

#[test]
fn repath_wad_path_skips_root_skin() {
    assert!(repath_wad_path(
        "data/characters/yone/skins/skin0.bin",
        ".yone1_",
        RepathLayout::InFolder
    )
    .is_none());
}

#[test]
fn repath_wad_path_repaths_linked_bin() {
    assert_eq!(
        repath_wad_path(
            "data/characters/yone/animations/skin0.bin",
            ".yone1_",
            RepathLayout::InFolder
        ),
        Some("DATA/.yone1_characters/yone/animations/skin0.bin".to_string())
    );
}


fn make_tree_with_string(s: &str) -> BinTree {
    let mut properties = OrderedMap::new();
    properties.insert(0x1, BinProperty { name_hash: FieldHash(0x1), value: PropertyValue::String(s.to_string()) });
    let mut tree = BinTree::new();
    tree.objects.insert(0x5678, BinObject { class_hash: TypeHash(0x1234), path_hash: PathHash(0x5678), properties });
    tree
}

#[test]
fn bin_string_repathed_when_file_present() {
    let mut tree = make_tree_with_string("assets/characters/yone/skins/skin0/yone.dds");
    let idx = WadIndex::from_entries(&vec![(
        0,
        "assets/characters/yone/skins/skin0/yone.dds".to_string(),
    )]);

    let r = repath_bin_strings(
        &mut tree,
        &opts(".yone1_", RepathLayout::InFolder),
        &idx,
        &TestHasher,
    );
    assert_eq!(r.strings_repathed, 1);
    assert_eq!(r.mapping.len(), 1);
    let new = r
        .mapping
        .get("assets/characters/yone/skins/skin0/yone.dds")
        .unwrap();
    assert_eq!(new, "ASSETS/.yone1_characters/yone/skins/skin0/yone.dds");
}

#[test]
fn bin_string_skipped_when_file_absent_from_mod() {
    let mut tree = make_tree_with_string("assets/characters/yone/base/yone.skn");
    let idx = WadIndex::from_entries(&vec![(
        0,
        "assets/characters/yone/skins/skin0/yone.dds".to_string(),
    )]);

    let r = repath_bin_strings(
        &mut tree,
        &opts(".yone1_", RepathLayout::InFolder),
        &idx,
        &TestHasher,
    );
    assert_eq!(r.strings_repathed, 0);
}

#[test]
fn bin_string_matched_via_xxhash_alternate() {
    let mut tree = make_tree_with_string("assets/characters/yone/skins/skin0/yone.dds");
    let h = dummy_hash("assets/characters/yone/skins/skin0/yone.dds");
    let mut idx = WadIndex::new();
    idx.hashes.insert(h);

    let r = repath_bin_strings(
        &mut tree,
        &opts(".yone1_", RepathLayout::InFolder),
        &idx,
        &TestHasher,
    );
    assert_eq!(r.strings_repathed, 1);
}

#[test]
fn bin_string_dds_tex_alternate() {
    let mut tree = make_tree_with_string("assets/characters/yone/skins/skin0/yone.dds");
    let idx = WadIndex::from_entries(&vec![(
        0,
        "assets/characters/yone/skins/skin0/yone.tex".to_string(),
    )]);

    let r = repath_bin_strings(
        &mut tree,
        &opts(".yone1_", RepathLayout::InFolder),
        &idx,
        &TestHasher,
    );
    assert_eq!(r.strings_repathed, 1);
}

#[test]
fn bin_string_extension_alignment() {
    let mut tree = make_tree_with_string("assets/characters/yone/skins/skin0/yone.sco");
    let idx = WadIndex::from_entries(&vec![(
        0,
        "assets/characters/yone/skins/skin0/yone.scb".to_string(),
    )]);

    let r = repath_bin_strings(
        &mut tree,
        &opts(".yone1_", RepathLayout::InFolder),
        &idx,
        &TestHasher,
    );
    assert_eq!(r.strings_repathed, 1);
    
    let expected_repathed = "ASSETS/.yone1_characters/yone/skins/skin0/yone.scb";
    
    let obj = tree.objects.get(0x5678).unwrap();
    let prop = obj.properties.get(0x1).unwrap();
    if let PropertyValue::String(s) = &prop.value {
        assert_eq!(s, expected_repathed);
    } else {
        panic!("Expected String property");
    }

    assert_eq!(
        r.mapping.get("assets/characters/yone/skins/skin0/yone.sco").unwrap(),
        expected_repathed
    );
    assert_eq!(
        r.mapping.get("assets/characters/yone/skins/skin0/yone.scb").unwrap(),
        expected_repathed
    );
}

#[test]
fn bin_string_skips_vo() {
    let mut tree = make_tree_with_string("assets/sounds/wwise2016/vo/yone/en_us/yone_vo.bnk");
    let idx = WadIndex::from_entries(&vec![(
        0,
        "assets/sounds/wwise2016/vo/yone/en_us/yone_vo.bnk".to_string(),
    )]);

    let r = repath_bin_strings(
        &mut tree,
        &opts(".yone1_", RepathLayout::InFolder),
        &idx,
        &TestHasher,
    );
    assert_eq!(r.strings_repathed, 0);
}

#[test]
fn linked_deps_repathed() {
    let mut tree = make_tree_with_string("dummy");
    tree.linked = vec![
        "data/characters/yone/yone.bin".to_string(),
        "data/characters/yone/animations/skin0.bin".to_string(),
    ];
    let idx = WadIndex::from_entries(&vec![
        (0, "data/characters/yone/yone.bin".to_string()),
        (0, "data/characters/yone/animations/skin0.bin".to_string()),
    ]);

    let r = repath_bin_strings(
        &mut tree,
        &opts(".yone1_", RepathLayout::InFolder),
        &idx,
        &TestHasher,
    );
    assert_eq!(r.strings_repathed, 1);
    assert_eq!(tree.linked[0], "data/characters/yone/yone.bin");
    assert_eq!(
        tree.linked[1],
        "DATA/.yone1_characters/yone/animations/skin0.bin"
    );
}

#[test]
fn linked_deps_skipped_when_file_absent() {
    let mut tree = make_tree_with_string("dummy");
    tree.linked = vec![
        "data/characters/yone/animations/skin0.bin".to_string(),
    ];
    let idx = WadIndex::new();

    let r = repath_bin_strings(
        &mut tree,
        &opts(".yone1_", RepathLayout::InFolder),
        &idx,
        &TestHasher,
    );
    assert_eq!(r.strings_repathed, 0);
    assert_eq!(tree.linked[0], "data/characters/yone/animations/skin0.bin");
}


#[test]
fn placeholder_dedup_and_normalise() {
    let existing = vec!["assets/x/existing.tex".to_string()];
    let referenced = vec![
        "assets/x/existing.dds".to_string(),
        "assets/x/missing.dds".to_string(),
        "assets/x/missing.tex".to_string(),
        "assets/x/other.tex".to_string(),
        "assets/x/model.skn".to_string(),
    ];
    let p = missing_invis_placeholders(&existing, &referenced);
    assert_eq!(p.len(), 2);
    assert!(p.iter().any(|(p, _)| p == "assets/x/missing.tex"));
    assert!(p.iter().any(|(p, _)| p == "assets/x/other.tex"));
    for (_, bytes) in &p {
        assert_eq!(*bytes, invis_tex_bytes());
    }
}


#[test]
fn looks_like_bin_detects_prop_and_ptch() {
    assert!(looks_like_bin(b"PROP\x00\x00\x00\x00"));
    assert!(looks_like_bin(b"PTCH\x00\x00\x00\x00"));
    assert!(!looks_like_bin(b"DDS \x00\x00\x00\x00"));
    assert!(!looks_like_bin(b"PRO"));
}


#[test]
fn derive_prefix_topaz_style() {
    assert_eq!(RepathOptions::derive_prefix("Yone", 1), ".yone1_");
    assert_eq!(RepathOptions::derive_prefix("Aatrox", 27), ".aatr27_");
    assert_eq!(RepathOptions::derive_prefix("MissFortune", 10), ".miss10_");
    assert_eq!(RepathOptions::derive_prefix("Kha'Zix", 0), ".khaz0_");
    assert_eq!(RepathOptions::derive_prefix("", 5), "bum");
}


#[test]
fn remove_prefix_topaz_in_folder() {
    assert_eq!(
        remove_prefix("ASSETS/.yone1_characters/yone/skin.dds", ".yone1_"),
        "assets/characters/yone/skin.dds"
    );
    assert_eq!(
        remove_prefix(
            "DATA/.yone1_characters/yone/animations/skin0.bin",
            ".yone1_"
        ),
        "data/characters/yone/animations/skin0.bin"
    );
}

#[test]
fn remove_prefix_nested() {
    assert_eq!(
        remove_prefix("assets/bum/characters/yone/skin.dds", "bum"),
        "assets/characters/yone/skin.dds"
    );
}

#[test]
fn remove_prefix_modder_root() {
    assert_eq!(
        remove_prefix("bum/reddivinekinggaren/foo.dds", "bum"),
        "reddivinekinggaren/foo.dds"
    );
}

#[test]
fn remove_prefix_idempotent_on_unprefixed() {
    assert_eq!(
        remove_prefix("assets/characters/yone/skin.dds", ".yone1_"),
        "assets/characters/yone/skin.dds"
    );
}

#[test]
fn remove_prefix_round_trip_in_folder() {
    let original = "assets/characters/yone/skin.dds";
    let repathed = repath_path(original, ".yone1_", RepathLayout::InFolder);
    assert_eq!(remove_prefix(&repathed, ".yone1_"), original);
}

#[test]
fn remove_prefix_round_trip_modder_root() {
    let original = "reddivinekinggaren/foo.dds";
    let repathed = repath_path(original, "bum", RepathLayout::InFolder);
    assert_eq!(remove_prefix(&repathed, "bum"), original);
}


#[test]
fn repath_wad_path_modder_root_entry() {
    assert_eq!(
        repath_wad_path("reddivinekinggaren/foo.dds", "bum", RepathLayout::InFolder),
        Some("bum/reddivinekinggaren/foo.dds".to_string())
    );
}

#[test]
fn repath_wad_path_ignores_unknown_extension() {
    assert!(repath_wad_path("modder/notes.txt", "bum", RepathLayout::InFolder).is_none());
}

#[test]
fn bin_string_backslash_normalization() {
    let mut tree = make_tree_with_string("assets\\characters\\yone\\skins\\skin0\\yone.dds");
    let idx = WadIndex::from_entries(&vec![(
        0,
        "assets/characters/yone/skins/skin0/yone.dds".to_string(),
    )]);

    let r = repath_bin_strings(
        &mut tree,
        &opts(".yone1_", RepathLayout::InFolder),
        &idx,
        &TestHasher,
    );
    assert_eq!(r.strings_repathed, 1);
    assert_eq!(r.mapping.len(), 1);
    let new = r
        .mapping
        .get("assets/characters/yone/skins/skin0/yone.dds")
        .unwrap();
    assert_eq!(new, "ASSETS/.yone1_characters/yone/skins/skin0/yone.dds");

    let strings = extract_strings(&tree);
    assert_eq!(strings[0], "ASSETS/.yone1_characters/yone/skins/skin0/yone.dds");
}

#[test]
fn moving_twice_is_moving_once_more() {
    let once = repath_path("assets/characters/yone/skin.dds", "bum", RepathLayout::Nested);
    assert_eq!(once, "assets/bum/characters/yone/skin.dds");
    assert_eq!(remove_prefix(&repath_path(&once, "bum", RepathLayout::Nested), "bum"), once);
}

#[test]
fn candidates_are_asset_paths() {
    assert!(is_repath_candidate("ASSETS/Characters/x.dds", true));
    assert!(is_repath_candidate("modder/x.dds", true));
    assert!(!is_repath_candidate("just_a_name", true));
    assert!(!is_repath_candidate("assets/sounds/wwise2016/vo/x.bnk", true));
    assert!(is_repath_candidate("assets/sounds/wwise2016/vo/x.bnk", false));
    assert!(is_modder_root_path("modder/x.scb"));
    assert!(!is_modder_root_path("assets/x.scb"));
}

#[test]
fn twins_are_each_others() {
    assert_eq!(twin_of("a/x.dds").as_deref(), Some("a/x.tex"));
    assert_eq!(twin_of("a/x.tex").as_deref(), Some("a/x.dds"));
    assert_eq!(twin_of("a/x.sco").as_deref(), Some("a/x.scb"));
    assert_eq!(twin_of("a/x.skn"), None);
}

#[test]
fn an_index_finds_the_twin_of_a_file() {
    let idx = WadIndex::from_entries(&vec![(9, "ASSETS\\X\\a.tex".to_string())]);
    assert!(idx.has("assets/x/A.dds", &TestHasher));
    assert_eq!(idx.get_actual_path("assets/x/A.dds", &TestHasher).as_deref(), Some("assets/x/a.tex"));
    assert!(!idx.has("assets/x/b.dds", &TestHasher));
    assert_eq!(split_asset_path("assets/a/b").map(|p| p.1.len()), Some(2));
}

#[test]
fn the_asset_paths_of_a_bin_are_collected() {
    let tree = make_tree_with_string("assets/characters/yone/x.dds");
    assert_eq!(collect_bin_asset_paths(&tree, true), vec!["assets/characters/yone/x.dds".to_string()]);
    assert!(collect_bin_asset_paths(&make_tree_with_string("nothing"), true).is_empty());
}

#[test]
fn what_is_no_asset_path_is_returned_unchanged() {
    assert_eq!(repath_path(r"just\a_name", ".x_", RepathLayout::InFolder), r"just\a_name");
    assert_eq!(repath_path(r"just\a_name", ".x_", RepathLayout::Nested), r"just\a_name");
}

#[test]
fn the_nested_layout_keeps_the_casing() {
    assert_eq!(
        repath_path("ASSETS/Characters/Yone/skin.dds", "yone1", RepathLayout::Nested),
        "ASSETS/yone1/Characters/Yone/skin.dds"
    );
    assert_eq!(repath_path(r"Data\X\y.bin", "p", RepathLayout::Nested), "Data/p/X/y.bin");
    assert_eq!(remove_prefix("ASSETS/yone1/Characters/Yone/skin.dds", "yone1"), "assets/Characters/Yone/skin.dds");
}

#[test]
fn twins_are_found_together() {
    let idx = WadIndex::from_entries(&vec![
        (9, "assets/x/Größe.TEX".to_string()),
        (8, "assets/x/m.scb".to_string()),
    ]);
    assert!(idx.has("ASSETS/x/GRÖßE.DDS", &TestHasher) && idx.has("ASSETS/x/GRÖßE.TEX", &TestHasher));
    assert!(idx.has("assets/x/größe.dds", &TestHasher) && idx.has("assets/x/größe.tex", &TestHasher));
    assert!(idx.has("assets/x/m.sco", &TestHasher) && idx.has("assets/x/m.scb", &TestHasher));
    assert!(!idx.has("assets/x/n.sco", &TestHasher) && !idx.has("assets/x/n.scb", &TestHasher));
}

#[test]
fn an_unprefixed_path_under_another_root_is_kept() {
    assert_eq!(remove_prefix("other/bumx/y.dds", "bum"), "other/bumx/y.dds");
}
