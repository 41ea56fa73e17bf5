//! Moving combo BINs to where the game expects them.

use std::collections::HashSet;

use hematite::combo_relocate::{combo_bin_pattern, mod_ships_per_skin_bins, relocate_combo_bins, relocated_path, ComboBin};
use hematite::hashing::wad_path_hash;

#[test]
fn pattern_matches_basic() {
    let c = combo_bin_pattern("data/gragas_skins_0_1.bin").unwrap();
    assert_eq!(c.champion, "gragas");
    assert_eq!(c.slots, "0_1");
}

#[test]
fn pattern_matches_single_slot_and_case_insensitive() {
    let c = combo_bin_pattern("DATA/Gragas_Skins_12.BIN").unwrap();
    assert_eq!(c.champion, "gragas");
    assert_eq!(c.slots, "12");
}

#[test]
fn pattern_rejects_per_skin_and_noise() {
    assert!(combo_bin_pattern("data/characters/gragas/skins/skin0.bin").is_none());
    assert!(combo_bin_pattern("data/gragas.bin").is_none());
    assert!(combo_bin_pattern("assets/gragas_skins_0.bin").is_none());
}

#[test]
fn pattern_rejects_missing_skins_marker() {
    assert!(combo_bin_pattern("data/gragas_0_1.bin").is_none());
}

#[test]
fn pattern_rejects_non_bin_extension() {
    assert!(combo_bin_pattern("data/gragas_skins_0_1.dds").is_none());
}

#[test]
fn pattern_rejects_empty_slots() {
    assert!(combo_bin_pattern("data/gragas_skins_.bin").is_none());
}

#[test]
fn pattern_splits_at_first_skins_marker() {
    assert!(combo_bin_pattern("data/foo_skins_bar_skins_0.bin").is_none());
}

#[test]
fn relocated_path_format() {
    let c = ComboBin { champion: "gragas".to_string(), slots: "0_1".to_string() };
    assert_eq!(relocated_path(&c), "data/characters/gragas/gragas_multi_skins_0_1.bin");
}

#[test]
fn gate_blocks_when_per_skin_bins_present() {
    let mut all_files = vec![
        (1u64, "data/gragas_skins_0_1.bin".to_string(), b"bytes".to_vec()),
        (2u64, "data/characters/gragas/skins/skin0.bin".to_string(), b"bytes".to_vec()),
    ];
    let new_path = "data/characters/gragas/gragas_multi_skins_0_1.bin";
    let mut game_hashes = HashSet::new();
    game_hashes.insert(wad_path_hash(new_path));

    let count = relocate_combo_bins(&mut all_files, &game_hashes);

    assert_eq!(count, 0);
    assert_eq!(all_files[0].1, "data/gragas_skins_0_1.bin");
    assert!(mod_ships_per_skin_bins(&all_files));
}

#[test]
fn relocate_rekeys_when_game_has_target() {
    let mut all_files = vec![(1u64, "data/gragas_skins_0_1.bin".to_string(), b"bytes".to_vec())];
    let new_path = "data/characters/gragas/gragas_multi_skins_0_1.bin";
    let new_hash = wad_path_hash(new_path);
    let mut game_hashes = HashSet::new();
    game_hashes.insert(new_hash);

    let count = relocate_combo_bins(&mut all_files, &game_hashes);

    assert_eq!(count, 1);
    assert_eq!(all_files[0].0, new_hash);
    assert_eq!(all_files[0].1, new_path);
    assert_eq!(all_files[0].2, b"bytes".to_vec());
}

#[test]
fn relocate_skips_when_game_lacks_target() {
    let mut all_files = vec![(1u64, "data/gragas_skins_0_1.bin".to_string(), b"bytes".to_vec())];
    let game_hashes = HashSet::new();

    let count = relocate_combo_bins(&mut all_files, &game_hashes);

    assert_eq!(count, 0);
    assert_eq!(all_files[0].0, 1u64);
    assert_eq!(all_files[0].1, "data/gragas_skins_0_1.bin");
}

#[test]
fn relocate_skips_when_mod_ships_target_hash() {
    let new_path = "data/characters/gragas/gragas_multi_skins_0_1.bin";
    let new_hash = wad_path_hash(new_path);
    let mut all_files = vec![
        (1u64, "data/gragas_skins_0_1.bin".to_string(), b"combo bytes".to_vec()),
        (new_hash, new_path.to_string(), b"already shipped bytes".to_vec()),
    ];
    let mut game_hashes = HashSet::new();
    game_hashes.insert(new_hash);

    let count = relocate_combo_bins(&mut all_files, &game_hashes);

    assert_eq!(count, 0);
    assert_eq!(all_files[0].1, "data/gragas_skins_0_1.bin");
    assert_eq!(all_files[1].2, b"already shipped bytes".to_vec());
}

#[test]
fn non_combo_names_untouched() {
    let mut all_files = vec![(1u64, "data/characters/gragas/gragas.bin".to_string(), b"bytes".to_vec())];
    let mut game_hashes = HashSet::new();
    game_hashes.insert(wad_path_hash("data/characters/gragas/gragas_multi_skins_0.bin"));

    let count = relocate_combo_bins(&mut all_files, &game_hashes);

    assert_eq!(count, 0);
    assert_eq!(all_files[0].0, 1u64);
}

#[test]
fn two_combo_bins_for_one_target_move_once() {
    let mut all_files = vec![
        (1u64, "data/gragas_skins_0.bin".to_string(), b"first".to_vec()),
        (2u64, "DATA/Gragas_skins_0.bin".to_string(), b"second".to_vec()),
    ];
    let new_path = "data/characters/gragas/gragas_multi_skins_0.bin";
    let mut game_hashes = HashSet::new();
    game_hashes.insert(wad_path_hash(new_path));

    assert_eq!(relocate_combo_bins(&mut all_files, &game_hashes), 1);
    assert_eq!(all_files[0].1, new_path);
    assert_eq!(all_files[1].1, "DATA/Gragas_skins_0.bin");
    assert_eq!(all_files[0].2, b"first".to_vec());
    assert_eq!(all_files[1].2, b"second".to_vec());
}
