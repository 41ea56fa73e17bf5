//! Detection in one file.

use std::collections::HashSet;

use hematite::bin::{BinObject, BinProperty, BinTree, FieldHash, GameHash, OrderedMap, PathHash, PropertyValue, TypeHash};
use hematite::context::{BinScope, CharacterRelations, FixContext};
use hematite::skinlite::copy_tree;
use hematite::traits::{GameProvider, HashProvider, WadProvider};
use hematite::bin::StructValue;
use hematite::config::DetectionRule;
use hematite::detect::anm_scope::{
    mesh_animations, never_loaded, unlinked_graph_animations, ANIMATION_GRAPH_DATA, FIELD_ANIMATION_NAME, FIELD_ANIMATION_NAMES,
    FIELD_ANIMATION_VARIANTS, FIELD_MESH_NAME, FIELD_MESH_SKELETON, VFX_MESH_DEFINITION_DATA,
};
use hematite::detect::dead_asset::{self, canonical, character_of_asset, dead_refs};
use hematite::detect::detect_in_context;
use hematite::detect::rules::detect_issue;
use hematite::factory::{JsonNumber, JsonValue};
use hematite::strings::fnv1a_hash;

/// A dictionary of the names it is given.
struct Names {
    types: Vec<(String, u32)>,
    fields: Vec<(String, u32)>,
}

impl Names {
    fn of(types: &[(&str, u32)], fields: &[(&str, u32)]) -> Names {
        Names {
            types: types.iter().map(|(n, h)| (n.to_string(), *h)).collect(),
            fields: fields.iter().map(|(n, h)| (n.to_string(), *h)).collect(),
        }
    }
}

impl HashProvider for Names {
    fn resolve_type(&self, hash: TypeHash) -> Option<&str> {
        self.types.iter().find(|t| t.1 == hash.0).map(|t| t.0.as_str())
    }

    fn resolve_field(&self, hash: FieldHash) -> Option<&str> {
        self.fields.iter().find(|f| f.1 == hash.0).map(|f| f.0.as_str())
    }

    fn resolve_entry(&self, _hash: PathHash) -> Option<&str> {
        None
    }

    fn resolve_game_path(&self, _hash: GameHash) -> Option<&str> {
        None
    }

    fn type_hash(&self, name: &str) -> Option<TypeHash> {
        self.types.iter().find(|t| t.0.eq_ignore_ascii_case(name)).map(|t| TypeHash(t.1))
    }

    fn field_hash(&self, name: &str) -> Option<FieldHash> {
        self.fields.iter().find(|f| f.0.eq_ignore_ascii_case(name)).map(|f| FieldHash(f.1))
    }

    fn has_game_path(&self, _path: &str) -> bool {
        false
    }

    fn is_loaded(&self) -> bool {
        !self.types.is_empty()
    }
}

/// An archive that holds the paths it is given.
struct Wad {
    paths: Vec<String>,
}

impl WadProvider for Wad {
    fn has_path(&self, path: &str) -> bool {
        self.paths.iter().any(|p| p == path)
    }

    fn has_hash(&self, _hash: u64) -> bool {
        false
    }
}

/// A game that ships the files it is given.
struct Game {
    paths: Vec<String>,
    bins: Vec<(String, BinTree)>,
    shaders: Option<HashSet<u32>>,
}

impl Game {
    fn empty() -> Game {
        Game { paths: vec![], bins: vec![], shaders: None }
    }
}

impl GameProvider for Game {
    fn has_path(&self, path: &str) -> bool {
        self.paths.iter().any(|p| p == path) || self.bins.iter().any(|b| b.0 == path)
    }

    fn pull_raw(&self, _path: &str) -> Option<Vec<u8>> {
        None
    }

    fn game_bin(&self, path: &str) -> Option<BinTree> {
        self.bins.iter().find(|b| b.0 == path).map(|b| copy_tree(&b.1))
    }

    fn shader_defs(&self) -> Option<HashSet<u32>> {
        self.shaders.clone()
    }
}

fn names(list: &[&str]) -> Vec<String> {
    list.iter().map(|s| s.to_string()).collect()
}

fn prop(name: u32, value: PropertyValue) -> (u32, BinProperty) {
    (name, BinProperty { name_hash: FieldHash(name), value })
}

fn table(props: Vec<(u32, BinProperty)>) -> OrderedMap<BinProperty> {
    let mut map = OrderedMap::new();
    for (k, p) in props {
        map.insert(k, p);
    }
    map
}

fn object(class: u32, key: u32, props: Vec<(u32, BinProperty)>) -> BinObject {
    BinObject { class_hash: TypeHash(class), path_hash: PathHash(key), properties: table(props) }
}

fn tree_of(objects: Vec<BinObject>) -> BinTree {
    let mut tree = BinTree::new();
    for o in objects {
        tree.objects.insert(o.path_hash.0, o);
    }
    tree
}

fn text(s: &str) -> PropertyValue {
    PropertyValue::String(s.to_string())
}

fn session<'a>(
    tree: BinTree,
    file_path: &str,
    hashes: &'a Names,
    wad: &'a Wad,
    champions: &'a CharacterRelations,
    game: Option<&'a Game>,
) -> FixContext<'a, Names, Wad, Game> {
    FixContext {
        tree,
        hashes,
        wad,
        champions,
        file_path: file_path.to_string(),
        files_to_remove: Vec::new(),
        linked_trees: Vec::new(),
        valid_shaders: None,
        game,
        additional_bins: Vec::new(),
        scope: BinScope::unknown(),
        renames: Vec::new(),
    }
}

/// Whether a path is picked up as a dead reference, where nobody ships anything.
fn selects(path: &str, exts: &[&str], prefixes: &[&str]) -> bool {
    let hashes = Names::of(&[], &[]);
    let wad = Wad { paths: vec![] };
    let champions = CharacterRelations { champions: vec![] };
    let game = Game::empty();
    let tree = tree_of(vec![object(1, 10, vec![prop(0x1, text(path))])]);
    let ctx = session(tree, "main.bin", &hashes, &wad, &champions, Some(&game));
    let found = dead_refs(&ctx, &names(exts), &names(prefixes), false);
    assert_eq!(dead_asset::detect(&ctx, &names(exts), &names(prefixes), false), !found.is_empty());
    found == vec![path.to_string()]
}

#[test]
fn matches_extension_case_insensitively() {
    assert!(selects("ASSETS/Characters/Jhin/x.ANM", &[".anm"], &[]));
    assert!(selects("assets/characters/jhin/x.anm", &[".anm"], &[]));
    assert!(!selects("assets/characters/jhin/x.tex", &[".anm"], &[]));
}

#[test]
fn matches_any_of_several_extensions() {
    assert!(selects("a/b.skn", &[".skn", ".skl"], &[]));
    assert!(selects("a/b.skl", &[".skn", ".skl"], &[]));
    assert!(!selects("a/b.scb", &[".skn", ".skl"], &[]));
}

#[test]
fn prefix_filter_restricts_scope() {
    assert!(selects("assets/characters/jhin/x.anm", &[".anm"], &["assets/characters/"]));
    assert!(!selects("assets/maps/shipping/x.anm", &[".anm"], &["assets/characters/"]));
}

#[test]
fn empty_prefix_list_matches_repathed_paths() {
    assert!(selects("ASSETS/bum/Characters/Jhin/Skins/Skin05/Animations/x.anm", &[".anm"], &[]));
}

#[test]
fn dead_asset_canonical_strips_a_repath_prefix() {
    assert_eq!(
        canonical("ASSETS/bum/Characters/Jhin/Skins/Skin05/Animations/x.anm").as_deref(),
        Some("ASSETS/Characters/Jhin/Skins/Skin05/Animations/x.anm")
    );
}

#[test]
fn canonical_is_idempotent_on_stock_paths() {
    let stock = "ASSETS/Characters/Jhin/Skins/Skin05/Animations/x.anm";
    assert_eq!(canonical(stock).as_deref(), Some(stock));
}

#[test]
fn canonical_normalises_backslashes_and_matches_case_insensitively() {
    assert_eq!(canonical(r"assets\rep\CHARACTERS\Jhin\x.anm").as_deref(), Some("ASSETS/CHARACTERS/Jhin/x.anm"));
}

#[test]
fn canonical_declines_paths_with_no_character_segment() {
    assert!(canonical("ASSETS/Maps/Shipping/x.anm").is_none());
}

#[test]
fn canonical_does_not_strip_an_inner_suffix() {
    let renamed = "ASSETS/Characters/Jhin/Skins/Skin55/Animations/Recall.SKINS_Jhin_Skin55.anm";
    assert_eq!(canonical(renamed).as_deref(), Some(renamed));
}

#[test]
fn a_reference_that_resolves_at_its_stock_path_is_alive() {
    let hashes = Names::of(&[], &[]);
    let wad = Wad { paths: vec![] };
    let champions = CharacterRelations { champions: vec![] };
    let mut game = Game::empty();
    game.paths = names(&["ASSETS/Characters/Jhin/x.anm"]);
    let tree = tree_of(vec![object(1, 10, vec![prop(0x1, text("ASSETS/bum/Characters/Jhin/x.anm"))])]);
    let ctx = session(tree, "main.bin", &hashes, &wad, &champions, Some(&game));
    assert!(dead_refs(&ctx, &names(&[".anm"]), &vec![], false).is_empty());
    assert_eq!(character_of_asset("assets/characters/jhin/x.anm").as_deref(), Some("jhin"));
}

fn strings(list: &[&str]) -> PropertyValue {
    PropertyValue::Container(list.iter().map(|s| text(s)).collect())
}

fn mesh_def(props: Vec<(u32, BinProperty)>) -> PropertyValue {
    PropertyValue::Embedded(StructValue { class_hash: TypeHash(VFX_MESH_DEFINITION_DATA), properties: table(props) })
}

#[test]
fn every_hash_matches_the_name_it_claims() {
    let h = fnv1a_hash;
    assert_eq!(h("animationgraphdata"), ANIMATION_GRAPH_DATA);
    assert_eq!(h("vfxmeshdefinitiondata"), VFX_MESH_DEFINITION_DATA);
    assert_eq!(h("mmeshname"), FIELD_MESH_NAME);
    assert_eq!(h("mmeshskeletonname"), FIELD_MESH_SKELETON);
    assert_eq!(h("manimationname"), FIELD_ANIMATION_NAME);
    assert_eq!(h("manimationvariants"), FIELD_ANIMATION_VARIANTS);
    assert_eq!(h("manimationnames"), FIELD_ANIMATION_NAMES);
}

#[test]
fn a_mesh_particles_clip_is_exempt() {
    let def = mesh_def(vec![
        prop(FIELD_MESH_NAME, text("x/m.skn")),
        prop(FIELD_MESH_SKELETON, text("x/m.skl")),
        prop(FIELD_ANIMATION_NAME, text("X/Anim.ANM")),
    ]);
    let tree = tree_of(vec![object(1, 10, vec![prop(99, def)])]);
    assert_eq!(mesh_animations(&tree), vec!["x/anim.anm".to_string()]);
}

#[test]
fn every_variant_of_a_mesh_particle_is_exempt() {
    let def = mesh_def(vec![
        prop(FIELD_MESH_NAME, text("x/m.skn")),
        prop(FIELD_MESH_SKELETON, text("x/m.skl")),
        prop(FIELD_ANIMATION_VARIANTS, strings(&["x/a.anm", "x/b.anm"])),
        prop(FIELD_ANIMATION_NAMES, strings(&["x/c.anm"])),
    ]);
    let tree = tree_of(vec![object(1, 10, vec![prop(99, def)])]);
    let found = mesh_animations(&tree);
    assert_eq!(found.len(), 3);
    assert!(found.contains(&"x/b.anm".to_string()));
    assert!(found.contains(&"x/c.anm".to_string()));
}

#[test]
fn a_definition_missing_its_skeleton_is_not_exempt() {
    let def = mesh_def(vec![prop(FIELD_MESH_NAME, text("x/m.skn")), prop(FIELD_ANIMATION_NAME, text("x/anim.anm"))]);
    let tree = tree_of(vec![object(1, 10, vec![prop(99, def)])]);
    assert!(mesh_animations(&tree).is_empty());
}

#[test]
fn an_animation_field_outside_a_mesh_definition_is_not_exempt() {
    let tree = tree_of(vec![object(1, 10, vec![prop(FIELD_ANIMATION_NAME, text("x/anim.anm"))])]);
    assert!(mesh_animations(&tree).is_empty());
}

#[test]
fn a_clip_is_listed_once() {
    let def = mesh_def(vec![
        prop(FIELD_MESH_NAME, text("x/m.skn")),
        prop(FIELD_MESH_SKELETON, text("x/m.skl")),
        prop(FIELD_ANIMATION_NAME, text("X/A.anm")),
        prop(FIELD_ANIMATION_VARIANTS, strings(&["x\\a.anm", "x/a.ANM"])),
    ]);
    let mut tree = tree_of(vec![object(1, 10, vec![prop(99, def)]), graph(100, &["x/live.anm"])]);
    tree.objects.insert(200, graph(200, &["x/orphan.anm", "X/Orphan.anm"]));
    tree.objects.insert(300, object(0xabcd, 300, vec![prop(0x2222, PropertyValue::Link(100))]));
    assert_eq!(mesh_animations(&tree), names(&["x/a.anm"]));
    assert_eq!(unlinked_graph_animations(&tree), names(&["x/orphan.anm"]));
    assert_eq!(never_loaded(&tree), names(&["x/a.anm", "x/orphan.anm"]));
}

fn graph(key: u32, clips: &[&str]) -> BinObject {
    object(ANIMATION_GRAPH_DATA, key, vec![prop(0x1111, strings(clips))])
}

#[test]
fn a_clip_only_in_an_unlinked_graph_is_suppressed() {
    let tree = tree_of(vec![
        graph(100, &["x/live.anm"]),
        graph(200, &["x/orphan.anm"]),
        object(0xabcd, 300, vec![prop(0x2222, PropertyValue::Link(100))]),
    ]);
    assert_eq!(unlinked_graph_animations(&tree), vec!["x/orphan.anm".to_string()]);
    assert_eq!(never_loaded(&tree), vec!["x/orphan.anm".to_string()]);
}

#[test]
fn a_clip_the_linked_graph_also_names_is_kept() {
    let tree = tree_of(vec![
        graph(100, &["x/shared.anm"]),
        graph(200, &["x/shared.anm", "x/orphan.anm"]),
        object(0xabcd, 300, vec![prop(0x2222, PropertyValue::Link(100))]),
    ]);
    let suppressed = unlinked_graph_animations(&tree);
    assert!(!suppressed.contains(&"x/shared.anm".to_string()));
    assert!(suppressed.contains(&"x/orphan.anm".to_string()));
}

#[test]
fn a_single_graph_suppresses_nothing() {
    let tree = tree_of(vec![graph(100, &["x/a.anm"]), object(0xabcd, 300, vec![prop(0x2222, PropertyValue::Link(100))])]);
    assert!(unlinked_graph_animations(&tree).is_empty());
}

#[test]
fn no_identifiable_link_suppresses_nothing() {
    let tree = tree_of(vec![graph(100, &["x/a.anm"]), graph(200, &["x/b.anm"])]);
    assert!(unlinked_graph_animations(&tree).is_empty());
}

#[test]
fn a_link_to_a_non_graph_is_not_a_graph_link() {
    let tree = tree_of(vec![
        graph(100, &["x/a.anm"]),
        graph(200, &["x/b.anm"]),
        object(0xabcd, 300, vec![prop(0x2222, PropertyValue::Link(999))]),
    ]);
    assert!(unlinked_graph_animations(&tree).is_empty());
}

#[test]
fn test_detect_entry_type_exists() {
    let hashes = Names::of(&[("SkinCharacterDataProperties", 0x1234)], &[]);
    let tree = tree_of(vec![object(0x1234, 0, vec![])]);
    let rule = DetectionRule::EntryTypeExistsAny { entry_types: names(&["SkinCharacterDataProperties"]) };
    assert!(detect_issue(&rule, &tree, &hashes, &Wad { paths: vec![] }));
}

#[test]
fn test_detect_recursive_extension() {
    let hashes = Names::of(&[("SkinCharacterDataProperties", 0x1234)], &[]);
    let tree = tree_of(vec![object(0x1234, 0, vec![prop(1, text("test.dds"))])]);
    let rule = DetectionRule::RecursiveStringExtensionNotInWad { extension: ".dds".to_string(), path_prefixes: vec![] };
    assert!(detect_issue(&rule, &tree, &hashes, &Wad { paths: vec![] }));
    assert!(!detect_issue(&rule, &tree, &hashes, &Wad { paths: names(&["test.dds"]) }));
}

#[test]
fn a_missing_field_is_found_and_a_wrong_one() {
    let hashes = Names::of(&[("Skin", 0x1234), ("Bar", 0x88)], &[("Style", 0x77)]);
    let wad = Wad { paths: vec![] };
    let rule = |embed: Option<&str>, expected: Option<JsonValue>| DetectionRule::MissingOrWrongField {
        entry_type: "Skin".to_string(),
        embed_path: None,
        embed_type: embed.map(str::to_string),
        field: "Style".to_string(),
        expected_value: expected,
    };
    let bits = 12.0f32.to_bits();
    let number = JsonNumber { unsigned: Some(12), signed: Some(12), real: bits, near_low: bits, near_high: bits };
    let twelve = || Some(JsonValue::Number(number));
    let bar = |props: Vec<(u32, BinProperty)>| {
        let embed = StructValue { class_hash: TypeHash(0x88), properties: table(props) };
        tree_of(vec![object(0x1234, 0, vec![prop(5, PropertyValue::Embedded(embed))])])
    };
    let bare = tree_of(vec![object(0x1234, 0, vec![])]);
    let plain = tree_of(vec![object(0x1234, 0, vec![prop(0x77, PropertyValue::U8(3))])]);
    assert!(detect_issue(&rule(None, None), &bare, &hashes, &wad));
    assert!(!detect_issue(&rule(None, twelve()), &plain, &hashes, &wad));
    assert!(detect_issue(&rule(Some("Bar"), None), &bare, &hashes, &wad));
    assert!(detect_issue(&rule(Some("Bar"), None), &bar(vec![]), &hashes, &wad));
    let wrong = bar(vec![prop(0x77, PropertyValue::U8(3))]);
    let right = bar(vec![prop(0x77, PropertyValue::U8(12))]);
    assert!(!detect_issue(&rule(Some("Bar"), None), &wrong, &hashes, &wad));
    assert!(detect_issue(&rule(Some("Bar"), twelve()), &wrong, &hashes, &wad));
    assert!(!detect_issue(&rule(Some("Bar"), twelve()), &right, &hashes, &wad));
}

#[test]
fn a_wrong_value_under_a_path_is_found() {
    let hashes = Names::of(&[("Skin", 0x1234)], &[("Style", 0x77), ("Bars", 0x66)]);
    let wad = Wad { paths: vec![] };
    let rule = |expected: &str| DetectionRule::MissingOrWrongField {
        entry_type: "Skin".to_string(),
        embed_path: Some("Bars".to_string()),
        embed_type: None,
        field: "Style".to_string(),
        expected_value: Some(JsonValue::String(expected.to_string())),
    };
    let embed = StructValue { class_hash: TypeHash(0x88), properties: table(vec![prop(0x77, PropertyValue::String("a".to_string()))]) };
    let tree = tree_of(vec![object(0x1234, 0, vec![prop(0x66, PropertyValue::Embedded(embed))])]);
    assert!(!detect_issue(&rule("a"), &tree, &hashes, &wad));
    assert!(detect_issue(&rule("b"), &tree, &hashes, &wad));
}

#[test]
fn a_link_is_invalid_where_its_shader_is() {
    let hashes = Names::of(&[("StaticMaterialDef", 0x1234)], &[]);
    let (wad, champions) = (Wad { paths: vec![] }, CharacterRelations { champions: vec![] });
    let rule = DetectionRule::InvalidShaderReference {
        shader_def_type: "StaticMaterialDef".to_string(),
        shader_link_field: "shader".to_string(),
    };
    let valid: HashSet<u32> = [7].into_iter().collect();
    let found = |link: u32, shaders: Option<&HashSet<u32>>| {
        let tree = tree_of(vec![object(0x1234, 1, vec![prop(5, PropertyValue::Link(link))])]);
        let ctx: FixContext<Names, Wad, Game> = FixContext {
            tree,
            hashes: &hashes,
            wad: &wad,
            champions: &champions,
            file_path: "x.bin".to_string(),
            files_to_remove: Vec::new(),
            linked_trees: Vec::new(),
            valid_shaders: shaders,
            game: None,
            additional_bins: Vec::new(),
            scope: BinScope::unknown(),
            renames: Vec::new(),
        };
        detect_in_context(&rule, &ctx)
    };
    assert!(found(8, Some(&valid)));
    assert!(!found(7, Some(&valid)));
    assert!(!found(0, Some(&valid)));
    assert!(!found(8, None));
}
