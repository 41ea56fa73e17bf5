//! Which BINs a mod loads.

use hematite::bin::BinTree;
use hematite::context::BinScope;
use hematite::hashing::PathHasher;
use hematite::reachability::{animation_bin_slots, compute, dependencies_of, ShippedBins};
use hematite::traits::{BinFault, BinProvider};

/// A hash of its own, so that the tests do not depend on the real one.
struct TestHasher;

fn h(path: &str) -> u64 {
    let mut acc: u64 = 1469598103934665603;
    for b in path.to_lowercase().bytes() {
        acc ^= b as u64;
        acc = acc.wrapping_mul(1099511628211);
    }
    acc
}

impl PathHasher for TestHasher {
    fn hash(&self, path: &str) -> u64 {
        h(path)
    }
}

fn shipped(list: &[(&str, Option<&[&str]>)]) -> ShippedBins {
    ShippedBins {
        entries: list.iter().map(|(p, deps)| (h(p), deps.map(|d| d.iter().map(|s| s.to_string()).collect()))).collect(),
    }
}

fn champions(list: &[&str]) -> Vec<String> {
    list.iter().map(|s| s.to_string()).collect()
}

#[test]
fn roots_and_their_dependencies_load() {
    let ships = shipped(&[("data/characters/jhin/skins/skin0.bin", Some(&["data/characters/jhin/animations/skin0.bin"]))]);
    let r = compute(&champions(&["jhin"]), &TestHasher, &ships).expect("a readable root");
    assert!(r.loads(h("data/characters/jhin/skins/skin0.bin")));
    assert!(r.loads(h("data/characters/jhin/animations/skin0.bin")));
    assert_eq!(r.slot_of(h("data/characters/jhin/skins/skin0.bin")), Some(0));
}

#[test]
fn unshipped_skins_do_not_load() {
    let ships = shipped(&[("data/characters/jhin/skins/skin0.bin", Some(&[]))]);
    let r = compute(&champions(&["jhin"]), &TestHasher, &ships).unwrap();
    assert!(!r.loads(h("data/characters/jhin/skins/skin7.bin")));
}

#[test]
fn the_walk_is_one_level_deep() {
    let ships = shipped(&[
        ("data/characters/jhin/skins/skin0.bin", Some(&["data/characters/jhin/first.bin"])),
        ("data/characters/jhin/first.bin", Some(&["data/characters/jhin/second.bin"])),
    ]);
    let r = compute(&champions(&["jhin"]), &TestHasher, &ships).unwrap();
    assert!(r.loads(h("data/characters/jhin/first.bin")));
    assert!(!r.loads(h("data/characters/jhin/second.bin")));
}

#[test]
fn a_champion_without_slot_zero_is_skipped() {
    let ships = shipped(&[("data/characters/jhin/skins/skin7.bin", Some(&[]))]);
    assert!(compute(&champions(&["jhin"]), &TestHasher, &ships).is_none());
}

#[test]
fn unreadable_roots_fail_open() {
    let ships = shipped(&[("data/characters/jhin/skins/skin0.bin", None)]);
    assert!(compute(&champions(&["jhin"]), &TestHasher, &ships).is_none());
}

#[test]
fn no_champions_means_no_knowledge() {
    let ships = shipped(&[("data/characters/jhin/skins/skin0.bin", Some(&[]))]);
    assert!(compute(&champions(&[]), &TestHasher, &ships).is_none());
}

#[test]
fn an_unreadable_root_still_loads_itself() {
    let ships = shipped(&[
        ("data/characters/jhin/skins/skin0.bin", Some(&[])),
        ("data/characters/jhin/skins/skin1.bin", None),
    ]);
    let r = compute(&champions(&["jhin"]), &TestHasher, &ships).unwrap();
    assert!(r.loads(h("data/characters/jhin/skins/skin1.bin")));
    assert_eq!(r.slot_of(h("data/characters/jhin/skins/skin1.bin")), Some(1));
}

#[test]
fn animation_bins_are_enumerated_per_slot() {
    let map = animation_bin_slots("jhin", &TestHasher);
    assert_eq!(map.get(&h("data/characters/jhin/animations/skin0.bin")), Some(&0));
    assert_eq!(map.get(&h("data/characters/jhin/animations/skin200.bin")), Some(&200));
    assert_eq!(map.len(), 201);
}

#[test]
fn multiple_champions_are_walked_independently() {
    let ships = shipped(&[
        ("data/characters/jhin/skins/skin0.bin", Some(&[])),
        ("data/characters/lux/skins/skin0.bin", Some(&[])),
    ]);
    let r = compute(&champions(&["jhin", "lux"]), &TestHasher, &ships).unwrap();
    assert!(r.loads(h("data/characters/jhin/skins/skin0.bin")));
    assert!(r.loads(h("data/characters/lux/skins/skin0.bin")));
}

#[test]
fn what_is_not_known_to_load_is_inspected_only_where_it_must_be() {
    let ships = shipped(&[("data/characters/jhin/skins/skin0.bin", Some(&[]))]);
    let r = compute(&champions(&["jhin"]), &TestHasher, &ships).unwrap();
    let animations = animation_bin_slots("jhin", &TestHasher);
    let at = |path: &str| BinScope { chunk_hash: h(path), reachable: Some(&r), animation_bins: Some(&animations) };
    assert!(at("data/characters/jhin/skins/skin0.bin").should_inspect(true));
    assert!(!at("data/orphan.bin").should_inspect(true));
    assert!(at("data/orphan.bin").should_inspect(false));
    assert!(at("data/characters/jhin/animations/skin3.bin").should_inspect(true));
    assert_eq!(at("data/characters/jhin/animations/skin3.bin").animation_slot(), Some(3));
    assert!(BinScope::unknown().should_inspect(true));
}

struct OneBin;

impl BinProvider for OneBin {
    fn parse_bytes(&self, data: &[u8]) -> Result<BinTree, BinFault> {
        if data != b"PROP" {
            return Err(BinFault { message: "no BIN".to_string() });
        }
        let mut tree = BinTree::new();
        tree.linked = vec!["a.bin".to_string()];
        Ok(tree)
    }

    fn write_bytes(&self, _tree: &BinTree) -> Result<Vec<u8>, BinFault> {
        Err(BinFault { message: "cannot write".to_string() })
    }
}

#[test]
fn declared_dependencies_are_read() {
    assert_eq!(dependencies_of(&OneBin, b"PROP"), Some(vec!["a.bin".to_string()]));
    assert_eq!(dependencies_of(&OneBin, b"JUNK"), None);
}
