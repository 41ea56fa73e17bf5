//! Pulling what a mod refers to out of the game's archive.

use hematite::bin::BinTree;
use hematite::deep_repair::{canonical_seed_bin_paths, dependencies_of, pull_one, resolve_from_game_wad, GameArchive};
use hematite::hashing::wad_path_hash;
use hematite::seeds::{discover_seeds, SkinSeed};
use hematite::traits::{BinFault, BinProvider};

#[test]
fn canonical_seed_paths_match_seed_bin_path() {
    let seed = SkinSeed { champion: "yone".into(), skin_no: 0 };
    let paths = canonical_seed_bin_paths(&seed);
    assert_eq!(paths[0], "data/characters/yone/skins/skin0.bin");
    assert_eq!(paths[0], seed.bin_path());
    assert_eq!(paths[1], "assets/characters/yone/skins/skin0.bin");
}

#[test]
fn canonical_seed_paths_nonzero_skin() {
    let seed = SkinSeed { champion: "jinx".into(), skin_no: 27 };
    let paths = canonical_seed_bin_paths(&seed);
    assert_eq!(paths[0], "data/characters/jinx/skins/skin27.bin");
    assert_eq!(paths[1], "assets/characters/jinx/skins/skin27.bin");
}

#[test]
fn canonical_seed_paths_lowercased() {
    let seed = SkinSeed { champion: "kaisa".into(), skin_no: 3 };
    for p in canonical_seed_bin_paths(&seed) {
        assert_eq!(p, p.to_lowercase());
    }
}

/// A BIN format of its own: the magic `PROP`, then linked paths separated by newlines.
struct FakeBinProvider;

impl BinProvider for FakeBinProvider {
    fn parse_bytes(&self, data: &[u8]) -> Result<BinTree, BinFault> {
        if data.len() < 4 || &data[..4] != b"PROP" {
            return Err(BinFault { message: "not a fake BIN".to_string() });
        }
        let body = std::str::from_utf8(&data[4..]).unwrap_or("");
        let mut tree = BinTree::new();
        tree.linked = body.split('\n').filter(|s| !s.is_empty()).map(|s| s.to_string()).collect();
        Ok(tree)
    }

    fn write_bytes(&self, tree: &BinTree) -> Result<Vec<u8>, BinFault> {
        let mut v = b"PROP".to_vec();
        v.extend(tree.linked.join("\n").into_bytes());
        Ok(v)
    }
}

fn fake_bin(deps: &[&str]) -> Vec<u8> {
    let mut v = b"PROP".to_vec();
    v.extend(deps.join("\n").into_bytes());
    v
}

fn archive(files: Vec<(&str, Vec<u8>)>) -> GameArchive {
    GameArchive { chunks: files.into_iter().map(|(p, b)| (wad_path_hash(p), Some(b))).collect() }
}

#[test]
fn closure_resolves_transitive_chain_and_terminates() {
    let game = archive(vec![
        ("b.bin", fake_bin(&["d.bin"])),
        ("c.bin", fake_bin(&["d.bin"])),
        ("d.bin", fake_bin(&[])),
    ]);
    let mut all_files = vec![(0u64, "a.bin".to_string(), fake_bin(&["b.bin", "c.bin"]))];

    let stats = resolve_from_game_wad(&game, &mut all_files, &FakeBinProvider, false);

    let pulled: Vec<String> = all_files.iter().map(|(_, p, _)| p.clone()).collect();
    assert!(pulled.contains(&"b.bin".to_string()));
    assert!(pulled.contains(&"c.bin".to_string()));
    assert!(pulled.contains(&"d.bin".to_string()));
    assert_eq!(all_files.len(), 4);
    assert_eq!(all_files.iter().filter(|(_, p, _)| p == "d.bin").count(), 1);
    assert_eq!(stats.iterations, 2);
    assert_eq!(stats.files_pulled, 3);
}

#[test]
fn closure_terminates_on_cycle() {
    let game = archive(vec![("b.bin", fake_bin(&["a.bin"]))]);
    let mut all_files = vec![(0u64, "a.bin".to_string(), fake_bin(&["b.bin"]))];
    let stats = resolve_from_game_wad(&game, &mut all_files, &FakeBinProvider, false);

    assert_eq!(all_files.len(), 2);
    assert_eq!(stats.iterations, 1);
}

#[test]
fn closure_noop_when_self_contained() {
    let game = archive(vec![]);
    let mut all_files = vec![
        (0u64, "a.bin".to_string(), fake_bin(&["b.bin"])),
        (0u64, "b.bin".to_string(), fake_bin(&[])),
    ];
    let stats = resolve_from_game_wad(&game, &mut all_files, &FakeBinProvider, false);
    assert_eq!(all_files.len(), 2);
    assert_eq!(stats.iterations, 0);
}

#[test]
fn a_missing_dependency_is_counted_once() {
    let game = archive(vec![]);
    let mut all_files = vec![
        (0u64, "a.bin".to_string(), fake_bin(&["gone.bin"])),
        (0u64, "b.bin".to_string(), fake_bin(&["GONE.bin"])),
    ];
    let stats = resolve_from_game_wad(&game, &mut all_files, &FakeBinProvider, false);
    assert_eq!(all_files.len(), 2);
    assert_eq!(stats.missing_unresolved, 1);
    assert_eq!(stats.files_pulled, 0);
}

#[test]
fn an_asset_root_skin_counts_as_shipped() {
    let game = archive(vec![("data/characters/yone/skins/skin0.bin", fake_bin(&[]))]);
    let mut skin = vec![(7u64, "assets/characters/yone/skins/skin0.bin".to_string(), b"art".to_vec())];
    let stats = resolve_from_game_wad(&game, &mut skin, &FakeBinProvider, false);
    assert_eq!(stats.seed_bins_added, 0);
    assert_eq!(skin.len(), 1);
}

#[test]
fn a_texture_twin_is_pulled_under_the_requested_path() {
    let game = archive(vec![("assets/x/a.tex", b"TEX".to_vec())]);
    let mut all_files = vec![];
    assert!(pull_one("assets/x/a.dds", &game, &mut all_files));
    assert_eq!(all_files.len(), 1);
    assert_eq!(all_files[0].1, "assets/x/a.dds");
    assert_eq!(all_files[0].2, b"TEX".to_vec());
    assert!(!pull_one("assets/x/b.dds", &game, &mut all_files));
    assert_eq!(all_files.len(), 1);
}

#[test]
fn a_pulled_skin_counts_as_a_pass() {
    let skin = "data/characters/yone/skins/skin1.bin";
    let game = archive(vec![(skin, fake_bin(&[]))]);
    let mut all_files = vec![(7u64, "data/characters/yone/skins/skin01.bin".to_string(), fake_bin(&[]))];
    let stats = resolve_from_game_wad(&game, &mut all_files, &FakeBinProvider, false);
    assert_eq!(all_files.len(), 2);
    assert_eq!(all_files[1].1, skin);
    assert_eq!(stats.seed_bins_added, 1);
    assert_eq!(stats.files_pulled, 1);
    assert_eq!(stats.iterations, 1);
}

#[test]
fn unreadable_bytes_have_no_dependencies() {
    assert!(dependencies_of(b"JUNK", &FakeBinProvider, false).is_empty());
    assert_eq!(dependencies_of(&fake_bin(&["x.bin"]), &FakeBinProvider, false), vec!["x.bin".to_string()]);
}

#[test]
fn both_canonical_paths_give_the_seed_once() {
    for champion in ["jinx", "größe"] {
        let seed = SkinSeed { champion: champion.to_string(), skin_no: 12 };
        let found = discover_seeds(&canonical_seed_bin_paths(&seed));
        assert_eq!(found.len(), 1);
        assert_eq!(found[0].champion, champion);
        assert_eq!(found[0].skin_no, 12);
    }
}
