//! Detection against the installed game.

use std::collections::HashSet;

use hematite::bin::{BinObject, BinProperty, BinTree, FieldHash, GameHash, OrderedMap, PathHash, PropertyValue, TypeHash};
use hematite::context::{BinScope, CharacterRelations, FixContext};
use hematite::skinlite::copy_tree;
use hematite::traits::{GameProvider, HashProvider, WadProvider};
use hematite::bin::StructValue;
use hematite::config::{DetectionRule, EntryValidationTarget, ReplacedBinMode, ReplacedBinTarget};
use hematite::detect::dead_links::{collect_dead_links, find_game_multi_skins_bin, game_closure, parse_hex_hash, GAME_CLOSURE_CAP};
use hematite::detect::detect_in_context;
use hematite::detect::replaced_bin::{self, ReplacedBinHit};
use hematite::detect::shader_link::{self, can_validate, dead_links, SHADER_PROP_HASH, STATIC_MATERIAL_DEF};
use hematite::detect::stale_character::{self, is_character_root, missing_fields};

/// A dictionary of the names it is given.
struct Names {
    types: Vec<(String, u32)>,
    fields: Vec<(String, u32)>,
}

impl Names {
    fn of(types: &[(&str, u32)], fields: &[(&str, u32)]) -> Names {
        Names {
            types: types.iter().map(|(n, h)| (n.to_string(), *h)).collect(),
            fields: fields.iter().map(|(n, h)| (n.to_string(), *h)).collect(),
        }
    }
}

impl HashProvider for Names {
    fn resolve_type(&self, hash: TypeHash) -> Option<&str> {
        self.types.iter().find(|t| t.1 == hash.0).map(|t| t.0.as_str())
    }

    fn resolve_field(&self, hash: FieldHash) -> Option<&str> {
        self.fields.iter().find(|f| f.1 == hash.0).map(|f| f.0.as_str())
    }

    fn resolve_entry(&self, _hash: PathHash) -> Option<&str> {
        None
    }

    fn resolve_game_path(&self, _hash: GameHash) -> Option<&str> {
        None
    }

    fn type_hash(&self, name: &str) -> Option<TypeHash> {
        self.types.iter().find(|t| t.0.eq_ignore_ascii_case(name)).map(|t| TypeHash(t.1))
    }

    fn field_hash(&self, name: &str) -> Option<FieldHash> {
        self.fields.iter().find(|f| f.0.eq_ignore_ascii_case(name)).map(|f| FieldHash(f.1))
    }

    fn has_game_path(&self, _path: &str) -> bool {
        false
    }

    fn is_loaded(&self) -> bool {
        !self.types.is_empty()
    }
}

/// An archive that holds the paths it is given.
struct Wad {
    paths: Vec<String>,
}

impl WadProvider for Wad {
    fn has_path(&self, path: &str) -> bool {
        self.paths.iter().any(|p| p == path)
    }

    fn has_hash(&self, _hash: u64) -> bool {
        false
    }
}

/// A game that ships the files it is given.
struct Game {
    paths: Vec<String>,
    bins: Vec<(String, BinTree)>,
    shaders: Option<HashSet<u32>>,
}

impl Game {
    fn empty() -> Game {
        Game { paths: vec![], bins: vec![], shaders: None }
    }
}

impl GameProvider for Game {
    fn has_path(&self, path: &str) -> bool {
        self.paths.iter().any(|p| p == path) || self.bins.iter().any(|b| b.0 == path)
    }

    fn pull_raw(&self, _path: &str) -> Option<Vec<u8>> {
        None
    }

    fn game_bin(&self, path: &str) -> Option<BinTree> {
        self.bins.iter().find(|b| b.0 == path).map(|b| copy_tree(&b.1))
    }

    fn shader_defs(&self) -> Option<HashSet<u32>> {
        self.shaders.clone()
    }
}

fn names(list: &[&str]) -> Vec<String> {
    list.iter().map(|s| s.to_string()).collect()
}

fn prop(name: u32, value: PropertyValue) -> (u32, BinProperty) {
    (name, BinProperty { name_hash: FieldHash(name), value })
}

fn table(props: Vec<(u32, BinProperty)>) -> OrderedMap<BinProperty> {
    let mut map = OrderedMap::new();
    for (k, p) in props {
        map.insert(k, p);
    }
    map
}

fn object(class: u32, key: u32, props: Vec<(u32, BinProperty)>) -> BinObject {
    BinObject { class_hash: TypeHash(class), path_hash: PathHash(key), properties: table(props) }
}

fn tree_of(objects: Vec<BinObject>) -> BinTree {
    let mut tree = BinTree::new();
    for o in objects {
        tree.objects.insert(o.path_hash.0, o);
    }
    tree
}

fn text(s: &str) -> PropertyValue {
    PropertyValue::String(s.to_string())
}

fn session<'a>(
    tree: BinTree,
    file_path: &str,
    hashes: &'a Names,
    wad: &'a Wad,
    champions: &'a CharacterRelations,
    game: Option<&'a Game>,
) -> FixContext<'a, Names, Wad, Game> {
    FixContext {
        tree,
        hashes,
        wad,
        champions,
        file_path: file_path.to_string(),
        files_to_remove: Vec::new(),
        linked_trees: Vec::new(),
        valid_shaders: None,
        game,
        additional_bins: Vec::new(),
        scope: BinScope::unknown(),
        renames: Vec::new(),
    }
}

const GEAR_LINK_FIELD_HASH: u32 = 0xCB52_2723;
const GEAR_TYPE_HASH: u32 = 0x27E0_C761;

fn hashes() -> Names {
    Names::of(&[("SkinCharacterDataProperties", 0x1234)], &[])
}

fn no_champions() -> CharacterRelations {
    CharacterRelations { champions: vec![] }
}

fn empty_wad() -> Wad {
    Wad { paths: vec![] }
}

fn gear_target() -> EntryValidationTarget {
    EntryValidationTarget {
        entry_type: "GearSkinUpgrade".to_string(),
        type_hash: Some("0x27E0C761".to_string()),
        reference_field: "skinUpgradeData".to_string(),
        link_field: "0xcb522723".to_string(),
    }
}

fn main_object(link_hash: u32) -> BinObject {
    object(0x1234, 0, vec![prop(GEAR_LINK_FIELD_HASH, PropertyValue::Container(vec![PropertyValue::Link(link_hash)]))])
}

fn gear() -> BinObject {
    object(GEAR_TYPE_HASH, 0x1234, vec![])
}

fn dead(ctx: &FixContext<Names, Wad, Game>) -> Vec<(usize, u32)> {
    collect_dead_links(ctx, "SkinCharacterDataProperties", &vec![gear_target()])
}

#[test]
fn dead_link_detected_when_target_defined_nowhere() {
    let (h, w, c, g) = (hashes(), empty_wad(), no_champions(), Game::empty());
    let ctx = session(tree_of(vec![main_object(0x1234)]), "main.bin", &h, &w, &c, Some(&g));
    assert_eq!(dead(&ctx), vec![(0, 0x1234)]);
}

#[test]
fn not_dead_when_defined_in_tree() {
    let (h, w, c, g) = (hashes(), empty_wad(), no_champions(), Game::empty());
    let ctx = session(tree_of(vec![main_object(0x1234), gear()]), "main.bin", &h, &w, &c, Some(&g));
    assert!(dead(&ctx).is_empty());
}

#[test]
fn fail_open_when_no_game_provider() {
    let (h, w, c) = (hashes(), empty_wad(), no_champions());
    let ctx = session(tree_of(vec![main_object(0x1234)]), "main.bin", &h, &w, &c, None);
    assert!(ctx.game.is_none());
    assert_eq!(dead(&ctx), vec![(0, 0x1234)]);
    let rule = DetectionRule::DeadEntryLink {
        main_entry_type: "SkinCharacterDataProperties".to_string(),
        targets: vec![gear_target()],
    };
    assert!(!detect_in_context(&rule, &ctx));
    let g = Game::empty();
    let with_game = session(tree_of(vec![main_object(0x1234)]), "main.bin", &h, &w, &c, Some(&g));
    assert!(detect_in_context(&rule, &with_game));
}

#[test]
fn not_dead_when_resolved_via_game_linked_bin() {
    let (h, w, c) = (hashes(), empty_wad(), no_champions());
    let mut tree = tree_of(vec![main_object(0x1234)]);
    tree.linked = names(&["data/characters/x/spells/xspell.bin"]);
    let mut g = Game::empty();
    g.bins.push(("data/characters/x/spells/xspell.bin".to_string(), tree_of(vec![gear()])));
    let ctx = session(tree, "main.bin", &h, &w, &c, Some(&g));
    assert!(dead(&ctx).is_empty());
}

#[test]
fn not_dead_when_defined_in_game_champion_bin_closure() {
    let (h, w, c) = (hashes(), empty_wad(), no_champions());
    let mut champ_tree = BinTree::new();
    champ_tree.linked = names(&["data/characters/x/cac/x_base.bin"]);
    let mut g = Game::empty();
    g.bins.push(("data/characters/x/x.bin".to_string(), champ_tree));
    g.bins.push(("data/characters/x/cac/x_base.bin".to_string(), tree_of(vec![gear()])));

    let ctx = session(tree_of(vec![main_object(0x1234)]), "data/characters/x/skins/skin0.bin", &h, &w, &c, Some(&g));
    assert!(dead(&ctx).is_empty(), "entries in the champion-bin closure are alive at runtime");

    let ctx2 = session(tree_of(vec![main_object(0x1234)]), "main.bin", &h, &w, &c, Some(&g));
    assert_eq!(dead(&ctx2), vec![(0, 0x1234)]);
}

#[test]
fn not_dead_when_defined_in_game_multi_skins_bin() {
    let (h, w, c) = (hashes(), empty_wad(), no_champions());
    let multi = "data/characters/x/x_multi_skins_root_skins_skin0_skins_skin10_skins_skin2.bin";
    let mut g = Game::empty();
    for p in ["root", "skin0", "skin10", "skin2"] {
        g.bins.push((format!("data/characters/x/skins/{p}.bin"), BinTree::new()));
    }
    g.bins.push((multi.to_string(), tree_of(vec![gear()])));

    assert_eq!(
        find_game_multi_skins_bin(&g, "x").as_deref(),
        Some(multi),
        "slot list must be joined in lexicographic order"
    );

    let ctx = session(tree_of(vec![main_object(0x1234)]), "data/characters/x/skins/skin0.bin", &h, &w, &c, Some(&g));
    assert!(dead(&ctx).is_empty(), "entries in the game's multi-skins BIN are alive");
}

#[test]
fn the_closure_of_the_game_is_bounded() {
    let mut g = Game::empty();
    for i in 0..100 {
        let mut t = BinTree::new();
        t.linked = vec![format!("data/{}.bin", i + 1)];
        g.bins.push((format!("data/{i}.bin"), t));
    }
    let (_, bins) = game_closure(&g, vec!["data/0.bin".to_string()]);
    assert!(bins.len() <= GAME_CLOSURE_CAP);
}

#[test]
fn hash_literals_need_their_mark() {
    assert_eq!(parse_hex_hash("0xcb522723"), Some(0xcb52_2723));
    assert_eq!(parse_hex_hash("nonsense"), None);
}

const UI_CLASS: u32 = 0xaf9f_3bac;

fn tree_with(entries: &[(u32, u32)]) -> BinTree {
    let mut tree = BinTree::new();
    for (i, (class, key)) in entries.iter().enumerate() {
        tree.objects.insert(i as u32, object(*class, *key, vec![]));
    }
    tree
}

fn target(mode: ReplacedBinMode, lethal: &[&str]) -> ReplacedBinTarget {
    ReplacedBinTarget {
        class: format!("0x{UI_CLASS:08x}"),
        label: Some("OptionsTab".into()),
        mode,
        lethal_keys: names(lethal),
        reason: None,
    }
}

fn replaced(ours: BinTree, live: BinTree, targets: Vec<ReplacedBinTarget>) -> Vec<ReplacedBinHit> {
    let (h, w, c) = (hashes(), empty_wad(), no_champions());
    let mut g = Game::empty();
    g.bins.push(("ui.bin".to_string(), live));
    let ctx = session(ours, "ui.bin", &h, &w, &c, Some(&g));
    let hits = replaced_bin::detect_hits(&ctx, &targets);
    assert_eq!(replaced_bin::detect(&ctx, &targets), !hits.is_empty());
    hits
}

#[test]
fn grouping_collects_keys_per_class() {
    let t = tree_with(&[(UI_CLASS, 1), (UI_CLASS, 2), (0xdead, 3)]);
    let mut other = target(ReplacedBinMode::Dropped, &[]);
    other.class = "0x0000dead".to_string();
    let hits = replaced(BinTree::new(), t, vec![target(ReplacedBinMode::Dropped, &[]), other]);
    assert_eq!(hits[0].keys.len(), 2);
    assert_eq!(hits[1].keys.len(), 1);
}

#[test]
fn dropped_is_game_minus_mod() {
    let game = tree_with(&[(UI_CLASS, 1), (UI_CLASS, 2), (UI_CLASS, 3)]);
    let mod_tree = tree_with(&[(UI_CLASS, 1)]);
    let hits = replaced(mod_tree, game, vec![target(ReplacedBinMode::Dropped, &[])]);
    assert_eq!(hits[0].keys, vec![2, 3]);
}

#[test]
fn added_is_mod_minus_game() {
    let game = tree_with(&[(UI_CLASS, 1)]);
    let mod_tree = tree_with(&[(UI_CLASS, 1), (UI_CLASS, 9)]);
    let hits = replaced(mod_tree, game, vec![target(ReplacedBinMode::Added, &[])]);
    assert_eq!(hits[0].keys, vec![9]);
}

#[test]
fn lethal_keys_restrict_the_diff() {
    let game = tree_with(&[(UI_CLASS, 2), (UI_CLASS, 3), (UI_CLASS, 4)]);
    let hits = replaced(BinTree::new(), game, vec![target(ReplacedBinMode::Dropped, &["0x00000002"])]);
    assert_eq!(hits[0].keys, vec![2]);
}

#[test]
fn describe_names_the_class_and_direction() {
    let t = target(ReplacedBinMode::Dropped, &[]);
    let hit = ReplacedBinHit { target_index: 0, keys: vec![0x14e1_17aa, 0x889a_59de] };
    let text = hit.describe(&t);
    assert!(text.contains("OptionsTab"), "{text}");
    assert!(text.contains("dropped 2"), "{text}");
    assert!(text.contains("14e117aa"), "{text}");
}

#[test]
fn a_bin_the_game_does_not_ship_is_not_replaced() {
    let (h, w, c, g) = (hashes(), empty_wad(), no_champions(), Game::empty());
    let ctx = session(tree_with(&[(UI_CLASS, 9)]), "ui.bin", &h, &w, &c, Some(&g));
    assert!(!replaced_bin::detect(&ctx, &vec![target(ReplacedBinMode::Added, &[])]));
}

#[test]
fn recognises_a_character_root() {
    assert!(is_character_root("data/characters/jhin/jhin.bin"));
    assert!(is_character_root("DATA/Characters/Jhin/Jhin.bin"));
}

#[test]
fn rejects_skin_and_animation_bins() {
    assert!(!is_character_root("data/characters/jhin/skins/skin0.bin"));
    assert!(!is_character_root("data/characters/jhin/animations/skin0.bin"));
    assert!(!is_character_root("data/characters/jhin/other.bin"));
    assert!(!is_character_root("00df3e4432caeaa8"));
}

fn record(class: u32, field_hashes: &[u32]) -> BinTree {
    tree_of(vec![object(class, 1, field_hashes.iter().map(|h| prop(*h, PropertyValue::U32(0))).collect())])
}

fn missing(ours: BinTree, live: BinTree, wanted: &[&str]) -> Vec<String> {
    let (h, w, c) = (hashes(), empty_wad(), no_champions());
    let path = "data/characters/jhin/jhin.bin";
    let mut g = Game::empty();
    g.bins.push((path.to_string(), live));
    let ctx = session(ours, path, &h, &w, &c, Some(&g));
    let found = missing_fields(&ctx, "0x23ea1915", &names(wanted));
    assert_eq!(stale_character::detect(&ctx, "0x23ea1915", &names(wanted)), !found.is_empty());
    found
}

#[test]
fn a_field_is_missing_only_when_the_live_record_has_it() {
    const CLASS: u32 = 0x23ea_1915;
    const SPELLS: u32 = 0x74f5_d6ce;
    const SPEED: u32 = 0xe62d_9d92;
    let found = missing(record(CLASS, &[SPEED]), record(CLASS, &[SPELLS, SPEED]), &["0x74f5d6ce", "0xe62d9d92"]);
    assert_eq!(found, vec!["0x74f5d6ce"]);
}

#[test]
fn a_field_absent_from_both_is_not_missing() {
    const CLASS: u32 = 0x23ea_1915;
    assert!(missing(record(CLASS, &[]), record(CLASS, &[]), &["0xdeadbeef"]).is_empty());
}

#[test]
fn no_record_of_that_class_yields_nothing() {
    assert!(missing(record(0x1111, &[0x2222]), record(0x1111, &[0x2222, 0x3333]), &["0x00003333"]).is_empty());
}

fn shader_session_dead(tree: BinTree) -> Vec<u32> {
    let (h, w, c) = (hashes(), empty_wad(), no_champions());
    let mut g = Game::empty();
    g.shaders = Some([1u32].into_iter().collect());
    let ctx = session(tree, "main.bin", &h, &w, &c, Some(&g));
    assert!(can_validate(&ctx));
    dead_links(&ctx)
}

#[test]
fn finds_a_direct_shader_link() {
    let t = tree_of(vec![object(STATIC_MATERIAL_DEF, 1, vec![prop(SHADER_PROP_HASH, PropertyValue::Link(0xabcd))])]);
    assert_eq!(shader_session_dead(t), vec![0xabcd]);
}

#[test]
fn finds_a_nested_shader_link() {
    let inner = StructValue {
        class_hash: TypeHash(0x1234),
        properties: table(vec![prop(SHADER_PROP_HASH, PropertyValue::Link(0xbeef))]),
    };
    let t = tree_of(vec![object(STATIC_MATERIAL_DEF, 1, vec![prop(0x9999, PropertyValue::Embedded(inner))])]);
    assert_eq!(shader_session_dead(t), vec![0xbeef]);
}

#[test]
fn ignores_links_outside_static_material_def() {
    let t = tree_of(vec![object(0xdead_0000, 1, vec![prop(SHADER_PROP_HASH, PropertyValue::Link(0xabcd))])]);
    assert!(shader_session_dead(t).is_empty());
}

#[test]
fn ignores_other_properties_on_a_material() {
    let t = tree_of(vec![object(STATIC_MATERIAL_DEF, 1, vec![prop(0x1111_2222, PropertyValue::Link(0xabcd))])]);
    assert!(shader_session_dead(t).is_empty());
}

#[test]
fn a_null_link_is_not_a_link() {
    let t = tree_of(vec![object(STATIC_MATERIAL_DEF, 1, vec![prop(SHADER_PROP_HASH, PropertyValue::Link(0))])]);
    assert!(shader_session_dead(t).is_empty());
}

#[test]
fn mod_owned_keys_are_collected() {
    let t = tree_of(vec![
        object(STATIC_MATERIAL_DEF, 0x5555, vec![prop(SHADER_PROP_HASH, PropertyValue::Link(0x7777))]),
        object(0xaaaa, 0x7777, vec![]),
    ]);
    assert!(shader_session_dead(t).is_empty());
}

#[test]
fn a_shader_of_the_game_is_alive() {
    let (h, w, c) = (hashes(), empty_wad(), no_champions());
    let mut g = Game::empty();
    g.shaders = Some([0xabcdu32].into_iter().collect());
    let t = tree_of(vec![object(STATIC_MATERIAL_DEF, 1, vec![prop(SHADER_PROP_HASH, PropertyValue::Link(0xabcd))])]);
    let ctx = session(t, "main.bin", &h, &w, &c, Some(&g));
    assert!(!shader_link::detect(&ctx));
}
