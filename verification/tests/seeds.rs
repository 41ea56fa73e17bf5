//! The skins that a mod is about.

use hematite::seeds::{character_of, discover_seeds, order_with_primary, parse_skin_path, SkinSeed};

fn seed(champion: &str, skin_no: u32) -> SkinSeed {
    SkinSeed { champion: champion.into(), skin_no }
}

#[test]
fn parses_canonical_skin_path() {
    let seed = parse_skin_path("data/characters/yone/skins/skin0.bin").unwrap();
    assert_eq!(seed.champion, "yone");
    assert_eq!(seed.skin_no, 0);
}

#[test]
fn parses_assets_root() {
    let seed = parse_skin_path("assets/characters/jinx/skins/skin27.bin").unwrap();
    assert_eq!(seed.champion, "jinx");
    assert_eq!(seed.skin_no, 27);
}

#[test]
fn rejects_non_skin_paths() {
    assert!(parse_skin_path("data/characters/yone/yone.bin").is_none());
    assert!(parse_skin_path("data/characters/yone/skins/root.bin").is_none());
    assert!(parse_skin_path("data/characters/yone/animations/skin0.bin").is_none());
    assert!(parse_skin_path("data/shared/foo.bin").is_none());
    assert!(parse_skin_path("garbage").is_none());
}

#[test]
fn discover_deduplicates() {
    let paths: Vec<String> = [
        "data/characters/yone/skins/skin0.bin",
        "DATA/Characters/Yone/Skins/Skin0.bin",
        "data/characters/jinxmine/skins/skin0.bin",
        "data/characters/yone/skins/skin5.bin",
        "data/characters/yone/yone.bin",
    ]
    .iter()
    .map(|s| s.to_string())
    .collect();
    let seeds = discover_seeds(&paths);
    assert_eq!(seeds.len(), 3);
    assert_eq!(seeds[0].champion, "yone");
    assert_eq!(seeds[0].skin_no, 0);
    assert_eq!(seeds[1].champion, "jinxmine");
    assert_eq!(seeds[2].skin_no, 5);
}

#[test]
fn bin_path_round_trips() {
    let s = seed("yone", 0);
    assert_eq!(s.bin_path(), "data/characters/yone/skins/skin0.bin");
    assert!(parse_skin_path(&s.bin_path()).unwrap().same_as(&s));
}

#[test]
fn order_with_primary_promotes_existing() {
    let primary = seed("yone", 0);
    let seeds = vec![seed("jinxmine", 0), primary.clone_seed(), seed("yonebot", 0)];
    let ordered = order_with_primary(seeds, &primary);
    assert!(ordered[0].same_as(&primary));
    assert_eq!(ordered.len(), 3);
}

#[test]
fn order_with_primary_prepends_missing() {
    let primary = seed("yone", 0);
    let seeds = vec![seed("jinxmine", 0)];
    let ordered = order_with_primary(seeds, &primary);
    assert!(ordered[0].same_as(&primary));
    assert_eq!(ordered.len(), 2);
}

#[test]
fn the_others_keep_their_order() {
    let primary = seed("c", 0);
    let ordered = order_with_primary(vec![seed("a", 0), seed("b", 0), seed("c", 0), seed("d", 0)], &primary);
    let names: Vec<&str> = ordered.iter().map(|s| s.champion.as_str()).collect();
    assert_eq!(names, vec!["c", "a", "b", "d"]);
}

#[test]
fn a_number_too_large_is_no_skin() {
    assert!(parse_skin_path("data/characters/yone/skins/skin4294967296.bin").is_none());
    assert_eq!(parse_skin_path("data/characters/yone/skins/skin4294967295.bin").unwrap().skin_no, u32::MAX);
    assert!(parse_skin_path("data/characters//skins/skin0.bin").is_none());
}

#[test]
fn a_path_names_its_character() {
    assert_eq!(character_of("data/characters/jhin/skins/skin0.bin").as_deref(), Some("jhin"));
    assert!(character_of("00df3e4432caeaa8").is_none());
}
