//! Repairs of one file.

use std::collections::HashSet;

use hematite::bin::{BinObject, BinProperty, BinTree, FieldHash, GameHash, OrderedMap, PathHash, PropertyValue, TypeHash};
use hematite::context::{BinScope, CharacterRelations, FixContext};
use hematite::skinlite::{clone_skin_tree, copy_tree};
use hematite::traits::{GameProvider, HashProvider, WadProvider};
use hematite::bin::StructValue;
use hematite::config::{ClassFieldTarget, DetectionRule, EntryValidationTarget};
use hematite::detect::rules::detect_issue;
use hematite::strings::fnv1a_hash;
use hematite::transform::rename_hash::{self, is_asset_path};
use hematite::transform::{merge_linked, pull_entries, regex_ops, replace_ext, resolve_refs, retype_file, split_entries, vfx_shape};

/// A dictionary of the names it is given.
struct Names {
    types: Vec<(String, u32)>,
    fields: Vec<(String, u32)>,
}

impl Names {
    fn of(types: &[(&str, u32)], fields: &[(&str, u32)]) -> Names {
        Names {
            types: types.iter().map(|(n, h)| (n.to_string(), *h)).collect(),
            fields: fields.iter().map(|(n, h)| (n.to_string(), *h)).collect(),
        }
    }
}

impl HashProvider for Names {
    fn resolve_type(&self, hash: TypeHash) -> Option<&str> {
        self.types.iter().find(|t| t.1 == hash.0).map(|t| t.0.as_str())
    }

    fn resolve_field(&self, hash: FieldHash) -> Option<&str> {
        self.fields.iter().find(|f| f.1 == hash.0).map(|f| f.0.as_str())
    }

    fn resolve_entry(&self, _hash: PathHash) -> Option<&str> {
        None
    }

    fn resolve_game_path(&self, _hash: GameHash) -> Option<&str> {
        None
    }

    fn type_hash(&self, name: &str) -> Option<TypeHash> {
        self.types.iter().find(|t| t.0.eq_ignore_ascii_case(name)).map(|t| TypeHash(t.1))
    }

    fn field_hash(&self, name: &str) -> Option<FieldHash> {
        self.fields.iter().find(|f| f.0.eq_ignore_ascii_case(name)).map(|f| FieldHash(f.1))
    }

    fn has_game_path(&self, _path: &str) -> bool {
        false
    }

    fn is_loaded(&self) -> bool {
        !self.types.is_empty()
    }
}

/// An archive that holds the paths it is given.
struct Wad {
    paths: Vec<String>,
}

impl WadProvider for Wad {
    fn has_path(&self, path: &str) -> bool {
        self.paths.iter().any(|p| p == path)
    }

    fn has_hash(&self, _hash: u64) -> bool {
        false
    }
}

/// A game that ships the files it is given.
struct Game {
    paths: Vec<String>,
    bins: Vec<(String, BinTree)>,
    shaders: Option<HashSet<u32>>,
}

impl Game {
    fn empty() -> Game {
        Game { paths: vec![], bins: vec![], shaders: None }
    }
}

impl GameProvider for Game {
    fn has_path(&self, path: &str) -> bool {
        self.paths.iter().any(|p| p == path) || self.bins.iter().any(|b| b.0 == path)
    }

    fn pull_raw(&self, _path: &str) -> Option<Vec<u8>> {
        None
    }

    fn game_bin(&self, path: &str) -> Option<BinTree> {
        self.bins.iter().find(|b| b.0 == path).map(|b| copy_tree(&b.1))
    }

    fn shader_defs(&self) -> Option<HashSet<u32>> {
        self.shaders.clone()
    }
}

fn names(list: &[&str]) -> Vec<String> {
    list.iter().map(|s| s.to_string()).collect()
}

fn prop(name: u32, value: PropertyValue) -> (u32, BinProperty) {
    (name, BinProperty { name_hash: FieldHash(name), value })
}

fn table(props: Vec<(u32, BinProperty)>) -> OrderedMap<BinProperty> {
    let mut map = OrderedMap::new();
    for (k, p) in props {
        map.insert(k, p);
    }
    map
}

fn object(class: u32, key: u32, props: Vec<(u32, BinProperty)>) -> BinObject {
    BinObject { class_hash: TypeHash(class), path_hash: PathHash(key), properties: table(props) }
}

fn tree_of(objects: Vec<BinObject>) -> BinTree {
    let mut tree = BinTree::new();
    for o in objects {
        tree.objects.insert(o.path_hash.0, o);
    }
    tree
}

fn text(s: &str) -> PropertyValue {
    PropertyValue::String(s.to_string())
}

fn session<'a>(
    tree: BinTree,
    file_path: &str,
    hashes: &'a Names,
    wad: &'a Wad,
    champions: &'a CharacterRelations,
    game: Option<&'a Game>,
) -> FixContext<'a, Names, Wad, Game> {
    FixContext {
        tree,
        hashes,
        wad,
        champions,
        file_path: file_path.to_string(),
        files_to_remove: Vec::new(),
        linked_trees: Vec::new(),
        valid_shaders: None,
        game,
        additional_bins: Vec::new(),
        scope: BinScope::unknown(),
        renames: Vec::new(),
    }
}

const GEAR_LINK_FIELD_HASH: u32 = 0xCB52_2723;
const CAC_LINK_FIELD_HASH: u32 = 0x1234_5678;
const SKIN_UPGRADE_DATA_FIELD_HASH: u32 = 0x9999_0001;
const GEAR_TYPE_HASH: u32 = 0x27E0_C761;
const MAIN_TYPE_HASH: u32 = 0x1234;
const SKIN0: &str = "data/characters/x/skins/skin0.bin";

fn hashes() -> Names {
    Names::of(
        &[("SkinCharacterDataProperties", MAIN_TYPE_HASH)],
        &[("skinUpgradeData", SKIN_UPGRADE_DATA_FIELD_HASH), ("textureName", 0x71), ("texturePath", 0x72), ("samplerName", 0x73)],
    )
}

fn no_champions() -> CharacterRelations {
    CharacterRelations { champions: vec![] }
}

fn wad_of(paths: &[&str]) -> Wad {
    Wad { paths: names(paths) }
}

fn game_of(paths: &[&str]) -> Game {
    let mut g = Game::empty();
    g.paths = names(paths);
    g
}

#[test]
fn test_recursive_merge_and_override_semantics() {
    let mut main_tree = tree_of(vec![object(999, 100, vec![])]);
    main_tree.linked = names(&["spell1.bin", "spell2.bin"]);
    let mut spell1 = tree_of(vec![object(111, 100, vec![]), object(111, 200, vec![])]);
    spell1.linked = names(&["particle.bin"]);
    let spell2 = tree_of(vec![object(222, 200, vec![]), object(222, 300, vec![])]);
    let particle = tree_of(vec![object(333, 400, vec![])]);

    let (h, w, c) = (hashes(), wad_of(&[]), no_champions());
    let mut ctx = session(main_tree, "main.bin", &h, &w, &c, None);
    ctx.linked_trees = vec![
        ("spell1.bin".to_string(), spell1),
        ("spell2.bin".to_string(), spell2),
        ("particle.bin".to_string(), particle),
    ];

    let merged_count = merge_linked::apply(&mut ctx);

    assert_eq!(merged_count, 3);
    assert_eq!(ctx.tree.objects.get(100).expect("100 must exist").class_hash.0, 999);
    assert_eq!(ctx.tree.objects.get(200).expect("200 must exist").class_hash.0, 111);
    assert!(ctx.tree.objects.contains_key(300));
    assert!(ctx.tree.objects.contains_key(400));
    assert!(ctx.tree.linked.is_empty());
    assert_eq!(ctx.files_to_remove.len(), 3);
    assert!(ctx.files_to_remove.contains(&"spell1.bin".to_string()));
    assert!(ctx.files_to_remove.contains(&"spell2.bin".to_string()));
    assert!(ctx.files_to_remove.contains(&"particle.bin".to_string()));
}

#[test]
fn a_link_that_cannot_be_merged_stays() {
    let mut main_tree = tree_of(vec![object(999, 100, vec![])]);
    main_tree.linked = names(&["base.bin"]);
    let (h, w, c) = (hashes(), wad_of(&[]), no_champions());
    let mut ctx = session(main_tree, "main.bin", &h, &w, &c, None);
    assert_eq!(merge_linked::apply(&mut ctx), 0);
    assert_eq!(ctx.tree.linked, names(&["base.bin"]));
    assert!(ctx.files_to_remove.is_empty());
}

fn gear_target() -> EntryValidationTarget {
    EntryValidationTarget {
        entry_type: "GearSkinUpgrade".to_string(),
        type_hash: Some("0x27E0C761".to_string()),
        reference_field: "skinUpgradeData".to_string(),
        link_field: "0xcb522723".to_string(),
    }
}

fn cac_target() -> EntryValidationTarget {
    EntryValidationTarget {
        entry_type: "CharacterAudio".to_string(),
        type_hash: Some("0x0BADF00D".to_string()),
        reference_field: "audio".to_string(),
        link_field: "0x12345678".to_string(),
    }
}

fn links_to(hash: u32) -> PropertyValue {
    PropertyValue::Container(vec![PropertyValue::Link(hash)])
}

fn gear_main(link_hash: u32) -> BinTree {
    let embed = StructValue {
        class_hash: TypeHash(GEAR_TYPE_HASH),
        properties: table(vec![prop(GEAR_LINK_FIELD_HASH, links_to(link_hash))]),
    };
    tree_of(vec![object(MAIN_TYPE_HASH, 0, vec![prop(SKIN_UPGRADE_DATA_FIELD_HASH, PropertyValue::Embedded(embed))])])
}

fn pull(ctx: &mut FixContext<Names, Wad, Game>, target: EntryValidationTarget, nuke: Option<&str>) -> u32 {
    pull_entries::apply(ctx, "SkinCharacterDataProperties", &vec![target], &nuke.map(str::to_string))
}

#[test]
fn pulls_missing_gear_entry_from_game_closure() {
    let (h, w, c) = (hashes(), wad_of(&[]), no_champions());
    let mut g = Game::empty();
    g.bins.push((SKIN0.to_string(), tree_of(vec![object(GEAR_TYPE_HASH, 0x1111_1111, vec![])])));
    let mut ctx = session(gear_main(0x1111_1111), SKIN0, &h, &w, &c, Some(&g));

    let count = pull(&mut ctx, gear_target(), None);

    assert!(count >= 1);
    let pulled = ctx.tree.objects.get(0x1111_1111).unwrap();
    assert_eq!(pulled.class_hash.0, GEAR_TYPE_HASH);
}

#[test]
fn nukes_fallback_field_when_unpullable() {
    let (h, w, c, g) = (hashes(), wad_of(&[]), no_champions(), Game::empty());
    let mut ctx = session(gear_main(0x2222_2222), SKIN0, &h, &w, &c, Some(&g));

    let count = pull(&mut ctx, gear_target(), Some("skinUpgradeData"));

    assert!(count >= 1);
    let main_obj = ctx.tree.objects.get(0).unwrap();
    assert!(
        !main_obj.properties.contains_key(SKIN_UPGRADE_DATA_FIELD_HASH),
        "skinUpgradeData embed should have been removed"
    );
}

#[test]
fn keeps_unpullable_link_when_no_nuke_field() {
    let (h, w, c, g) = (hashes(), wad_of(&[]), no_champions(), Game::empty());
    let tree = tree_of(vec![object(MAIN_TYPE_HASH, 0, vec![prop(CAC_LINK_FIELD_HASH, links_to(0x3333_3333))])]);
    let mut ctx = session(tree, SKIN0, &h, &w, &c, Some(&g));

    let count = pull(&mut ctx, cac_target(), None);

    assert_eq!(count, 0, "unpullable links are kept, not dropped");
    match &ctx.tree.objects.get(0).unwrap().properties.get(CAC_LINK_FIELD_HASH).unwrap().value {
        PropertyValue::Container(items) => assert!(
            items.iter().any(|v| matches!(v, PropertyValue::Link(h) if *h == 0x3333_3333)),
            "unpullable link value must survive untouched"
        ),
        other => panic!("expected Container, got {other:?}"),
    }
}

#[test]
fn keeps_bare_link_property_when_unpullable() {
    let (h, w, c, g) = (hashes(), wad_of(&[]), no_champions(), Game::empty());
    let tree = tree_of(vec![object(MAIN_TYPE_HASH, 0, vec![prop(CAC_LINK_FIELD_HASH, PropertyValue::Link(0x4444_4444))])]);
    let mut ctx = session(tree, SKIN0, &h, &w, &c, Some(&g));

    let count = pull(&mut ctx, cac_target(), None);

    assert_eq!(count, 0);
    match &ctx.tree.objects.get(0).unwrap().properties.get(CAC_LINK_FIELD_HASH).unwrap().value {
        PropertyValue::Link(h) => assert_eq!(*h, 0x4444_4444),
        other => panic!("bare Link must survive untouched, got {other:?}"),
    }
}

#[test]
fn noop_without_game_provider() {
    let (h, w, c) = (hashes(), wad_of(&[]), no_champions());
    let mut ctx = session(gear_main(0x4444_4444), SKIN0, &h, &w, &c, None);

    let count = pull(&mut ctx, gear_target(), Some("skinUpgradeData"));

    assert_eq!(count, 0);
    assert!(ctx.tree.objects.get(0).unwrap().properties.contains_key(SKIN_UPGRADE_DATA_FIELD_HASH));
}

#[test]
fn a_path_is_a_path() {
    assert!(is_asset_path(&text("ASSETS/Characters/Jhin/x.dds")));
    assert!(is_asset_path(&text(r"ASSETS\Characters\Jhin\x.tex")));
    assert!(is_asset_path(&text("x.dds")));
    assert!(is_asset_path(&PropertyValue::WadHash(0x1234)));
}

#[test]
fn a_sampler_name_is_not_a_path() {
    for name in ["Diffuse_Texture", "ToonShadingTex", "ToonShadingOutlineTex", "ToonShadingRimTex", "ScreenSpaceTexture"] {
        assert!(!is_asset_path(&text(name)), "{name} was treated as a path");
    }
}

#[test]
fn a_non_string_value_is_not_a_path() {
    assert!(!is_asset_path(&PropertyValue::U32(1)));
    assert!(!is_asset_path(&text("")));
}

#[test]
fn a_field_is_renamed_where_its_value_is_a_path() {
    let (h, w, c) = (hashes(), wad_of(&[]), no_champions());
    let tree = tree_of(vec![
        object(1, 10, vec![prop(0x71, text("a/x.dds"))]),
        object(1, 20, vec![prop(0x71, text("Diffuse_Texture"))]),
    ]);
    let mut ctx = session(tree, "main.bin", &h, &w, &c, None);
    assert_eq!(rename_hash::apply(&mut ctx, "textureName", "texturePath", true), 1);
    let first = ctx.tree.objects.get(10).unwrap();
    assert!(first.properties.contains_key(0x72));
    assert!(!first.properties.contains_key(0x71));
    assert_eq!(first.properties.get(0x72).unwrap().name_hash.0, 0x72);
    assert!(ctx.tree.objects.get(20).unwrap().properties.contains_key(0x71));
}

fn tree_with_string(value: &str) -> BinTree {
    tree_of(vec![object(0x1234, 0xAAAA, vec![prop(0x1, text(value))])])
}

fn string_value(tree: &BinTree) -> &str {
    match &tree.objects.get(0xAAAA).unwrap().properties.get(0x1).unwrap().value {
        PropertyValue::String(s) => s.as_str(),
        other => panic!("expected String value, got {other:?}"),
    }
}

fn extensions() -> Vec<String> {
    names(&["dds", "tex", "anm", "skn", "skl", "scb", "sco"])
}

fn resolve(value: &str, wad: &[&str], game: Option<&[&str]>) -> (u32, String) {
    let (h, w, c) = (hashes(), wad_of(wad), no_champions());
    let g = game.map(game_of);
    let mut ctx = session(tree_with_string(value), "main.bin", &h, &w, &c, g.as_ref());
    let count = resolve_refs::apply(&mut ctx, &extensions());
    (count, string_value(&ctx.tree).to_string())
}

#[test]
fn skips_when_mod_ships_file() {
    assert_eq!(resolve("assets/foo.dds", &["assets/foo.dds"], Some(&[])), (0, "assets/foo.dds".to_string()));
}

#[test]
fn skips_when_game_ships_file() {
    assert_eq!(resolve("assets/foo.dds", &[], Some(&["assets/foo.dds"])), (0, "assets/foo.dds".to_string()));
}

#[test]
fn rewrites_to_tex_twin_in_game() {
    assert_eq!(resolve("assets/foo.dds", &[], Some(&["assets/foo.tex"])), (1, "assets/foo.tex".to_string()));
}

#[test]
fn rewrites_suffix_stripped_anm() {
    assert_eq!(
        resolve("data/c/yone/anim/attack1.matcha_ambessa.anm", &[], Some(&["data/c/yone/anim/attack1.anm"])),
        (1, "data/c/yone/anim/attack1.anm".to_string())
    );
}

#[test]
fn noop_without_game() {
    assert_eq!(resolve("assets/foo.dds", &[], None), (0, "assets/foo.dds".to_string()));
}

#[test]
fn ignores_unlisted_extensions() {
    assert_eq!(resolve("assets/foo.bnk", &[], Some(&["assets/foo.bnk2"])), (0, "assets/foo.bnk".to_string()));
}

fn field_target(class: &str, field: &str) -> ClassFieldTarget {
    ClassFieldTarget { class: class.to_string(), field: field.to_string(), reason: None }
}

fn named(field: &str, value: PropertyValue) -> (u32, BinProperty) {
    prop(fnv1a_hash(field), value)
}

fn tree_with(class: &str, props: Vec<(u32, BinProperty)>) -> BinTree {
    tree_of(vec![object(fnv1a_hash(class), 1, props)])
}

#[test]
fn converts_targeted_string_and_records_trailer_pair() {
    let path = "ASSETS/Characters/Aatrox/Skins/Base/AatroxLoadscreen.tex";
    let mut tree = tree_with("CensoredImage", vec![named("image", text(path))]);
    let targets = vec![field_target("CensoredImage", "image")];
    assert!(retype_file::detect(&tree, &targets));

    let changes = retype_file::apply_to_tree(&mut tree, &targets);
    assert_eq!(changes, 1);
    assert!(!retype_file::detect(&tree, &targets));

    let obj = tree.objects.get(1).unwrap();
    match &obj.properties.get(fnv1a_hash("image")).unwrap().value {
        PropertyValue::WadHash(h) => assert_eq!(*h, 0xb7a434886d1ce5e6),
        other => panic!("expected WadHash, got {other:?}"),
    }
    assert_eq!(tree.trailer_files.get(&0xb7a434886d1ce5e6).map(String::as_str), Some(path));
}

#[test]
fn class_scoping_leaves_same_field_in_other_class_alone() {
    let mut tree = tree_with("VfxEmitterDefinitionData", vec![named("texture", text("ASSETS/foo.tex"))]);
    let targets = vec![field_target("SkinMeshDataProperties", "texture")];
    assert!(!retype_file::detect(&tree, &targets));
    assert_eq!(retype_file::apply_to_tree(&mut tree, &targets), 0);
    assert!(matches!(
        tree.objects.get(1).unwrap().properties.get(fnv1a_hash("texture")).unwrap().value,
        PropertyValue::String(_)
    ));
}

#[test]
fn converts_inside_nested_struct_option_and_list() {
    let sampler = StructValue {
        class_hash: TypeHash(fnv1a_hash("StaticMaterialShaderSamplerDef")),
        properties: table(vec![named("texturePath", text("ASSETS/mat.tex"))]),
    };
    let mut tree = tree_with(
        "SkinCharacterDataProperties",
        vec![
            named("iconCircle", PropertyValue::Optional(Box::new(Some(text("ASSETS/circle.tex"))))),
            named("samplerValues", PropertyValue::Container(vec![PropertyValue::Embedded(sampler)])),
        ],
    );
    let targets = vec![
        field_target("SkinCharacterDataProperties", "iconCircle"),
        field_target("StaticMaterialShaderSamplerDef", "texturePath"),
    ];
    assert!(retype_file::detect(&tree, &targets));
    assert_eq!(retype_file::apply_to_tree(&mut tree, &targets), 2);
    assert_eq!(tree.trailer_files.len(), 2);
    assert!(!retype_file::detect(&tree, &targets));

    let obj = tree.objects.get(1).unwrap();
    match &obj.properties.get(fnv1a_hash("iconCircle")).unwrap().value {
        PropertyValue::Optional(inner) => assert!(matches!(inner.as_ref().as_ref(), Some(PropertyValue::WadHash(_)))),
        other => panic!("expected optional, got {other:?}"),
    }
}

#[test]
fn hex_targets_resolve_without_names() {
    let field_hex = format!("0x{:08x}", fnv1a_hash("image"));
    let class_hex = format!("0x{:08x}", fnv1a_hash("CensoredImage"));
    let tree = tree_with("CensoredImage", vec![named("image", text("ASSETS/a.tex"))]);
    assert!(retype_file::detect(&tree, &vec![field_target(&class_hex, &field_hex)]));
}

#[test]
fn already_migrated_value_does_not_detect() {
    let tree = tree_with("CensoredImage", vec![named("image", PropertyValue::WadHash(0x1234))]);
    assert!(!retype_file::detect(&tree, &vec![field_target("CensoredImage", "image")]));
}

#[test]
fn wad_ref_hash_matches_game_hashing() {
    assert_eq!(
        retype_file::wad_ref_hash("ASSETS/Characters/Aatrox/Skins/Base/AatroxLoadscreen.tex"),
        0xb7a434886d1ce5e6
    );
}

#[test]
fn a_pattern_rewrites_what_it_matches() {
    let (h, w, c) = (hashes(), wad_of(&[]), no_champions());
    let mut ctx = session(tree_with_string("a/skin01_x.dds"), "main.bin", &h, &w, &c, None);
    assert_eq!(regex_ops::apply_replace(&mut ctx, r"skin(\d+)", "base$1", &None), 1);
    assert_eq!(string_value(&ctx.tree), "a/base01_x.dds");
    assert_eq!(regex_ops::apply_replace(&mut ctx, "(", "", &None), 0);
    assert_eq!(regex_ops::apply_replace(&mut ctx, "absent", "x", &None), 0);
    assert_eq!(string_value(&ctx.tree), "a/base01_x.dds");
}

#[test]
fn a_pattern_renames_the_fields_it_matches() {
    let (h, w, c) = (hashes(), wad_of(&[]), no_champions());
    let tree = tree_of(vec![object(1, 10, vec![prop(0x71, text("a/x.dds"))])]);
    let mut ctx = session(tree, "main.bin", &h, &w, &c, None);
    assert_eq!(regex_ops::apply_rename(&mut ctx, "Name$", "Path"), 1);
    assert!(ctx.tree.objects.get(10).unwrap().properties.contains_key(fnv1a_hash("texturePath")));
}

#[test]
fn an_extension_is_replaced_where_the_file_is_not_shipped() {
    let (h, c) = (hashes(), no_champions());
    let w = wad_of(&["a/kept.dds"]);
    let tree = tree_of(vec![object(1, 10, vec![prop(0x71, text("a/x.dds")), prop(0x73, text("a/kept.dds"))])]);
    let mut ctx = session(tree, "main.bin", &h, &w, &c, None);
    assert_eq!(replace_ext::apply(&mut ctx, ".dds", ".tex", &vec![], &None), 1);
    let props = &ctx.tree.objects.get(10).unwrap().properties;
    assert!(matches!(&props.get(0x71).unwrap().value, PropertyValue::String(s) if s == "a/x.tex"));
    assert!(matches!(&props.get(0x73).unwrap().value, PropertyValue::String(s) if s == "a/kept.dds"));
}

#[test]
fn entries_of_a_type_are_split_off() {
    let (h, w, c) = (hashes(), wad_of(&[]), no_champions());
    let tree = tree_of(vec![object(MAIN_TYPE_HASH, 10, vec![]), object(0x55, 20, vec![])]);
    let mut ctx = session(tree, "data/characters/yone/skins/skin0.bin", &h, &w, &c, None);
    let moved = split_entries::apply(
        &mut ctx,
        &names(&["SkinCharacterDataProperties", "NotInTheDictionary"]),
        "{source_dir}/{source_stem}_split.bin",
        true,
    );
    assert_eq!(moved, 1);
    assert!(!ctx.tree.objects.contains_key(10));
    assert!(ctx.tree.objects.contains_key(20));
    assert_eq!(ctx.additional_bins.len(), 1);
    assert_eq!(ctx.additional_bins[0].0, "data/characters/yone/skins/skin0_split.bin");
    assert!(ctx.additional_bins[0].1.objects.contains_key(10));
    assert_eq!(ctx.tree.linked, names(&["data/characters/yone/skins/skin0_split.bin"]));
}

#[test]
fn a_cylinder_is_migrated() {
    let (one, two) = (1.0f32.to_bits(), 2.0f32.to_bits());
    let h = Names::of(
        &[("VfxSystemDefinitionData", 1), ("ComplexEmitterDefinitionData", 2), ("SimpleEmitterDefinitionData", 3)],
        &[
            ("Shape", 10),
            ("BirthTranslation", 11),
            ("EmitOffset", 12),
            ("EmitRotationAngles", 13),
            ("EmitRotationAxes", 14),
            ("ConstantValue", 15),
            ("Radius", 16),
            ("Height", 17),
            ("Flags", 18),
        ],
    );
    let constant = |x: u32, y: u32, z: u32| {
        PropertyValue::Embedded(StructValue {
            class_hash: TypeHash(77),
            properties: table(vec![prop(15, PropertyValue::Vector3([x, y, z]))]),
        })
    };
    let axes = PropertyValue::Container(vec![PropertyValue::Vector3([0, one, 0]), PropertyValue::Vector3([0, 0, one])]);
    let shape = PropertyValue::Embedded(StructValue {
        class_hash: TypeHash(78),
        properties: table(vec![
            prop(11, constant(one, 0, 0)),
            prop(12, constant(two, one, 0)),
            prop(13, PropertyValue::Container(vec![])),
            prop(14, axes),
        ]),
    });
    let emitter = PropertyValue::Embedded(StructValue { class_hash: TypeHash(2), properties: table(vec![prop(10, shape)]) });
    let tree = tree_of(vec![object(1, 5, vec![prop(50, PropertyValue::Container(vec![emitter]))])]);
    let (w, c) = (wad_of(&[]), no_champions());
    let rule = DetectionRule::VfxShapeNeedsFix { entry_type: "VfxSystemDefinitionData".to_string() };
    assert!(detect_issue(&rule, &tree, &h, &w));
    let mut ctx = session(tree, "main.bin", &h, &w, &c, None);
    assert_eq!(vfx_shape::apply(&mut ctx, "VfxSystemDefinitionData"), 1);
    assert!(!detect_issue(&rule, &ctx.tree, &h, &w));

    let list = &ctx.tree.objects.get(5).unwrap().properties.get(50).unwrap().value;
    let emitter = match list {
        PropertyValue::Container(items) => match &items[0] {
            PropertyValue::Embedded(e) => e,
            other => panic!("expected an emitter, got {other:?}"),
        },
        other => panic!("expected a list, got {other:?}"),
    };
    assert!(!emitter.properties.contains_key(10));
    match &emitter.properties.get(vfx_shape::NEW_SHAPE_HASH).unwrap().value {
        PropertyValue::Struct(s) => {
            assert_eq!(s.class_hash.0, vfx_shape::SHAPE_TYPE_CYLINDER);
            assert!(matches!(s.properties.get(16).unwrap().value, PropertyValue::F32(r) if r == two));
            assert!(matches!(s.properties.get(17).unwrap().value, PropertyValue::F32(r) if r == one));
            assert!(matches!(s.properties.get(18).unwrap().value, PropertyValue::U8(1)));
        }
        other => panic!("expected a shape, got {other:?}"),
    }
    match &emitter.properties.get(vfx_shape::NEW_BIRTH_TRANSLATION_HASH).unwrap().value {
        PropertyValue::Embedded(s) => {
            assert!(matches!(s.properties.get(15).unwrap().value, PropertyValue::Vector3(v) if v == [one, 0, 0]))
        }
        other => panic!("expected a birth translation, got {other:?}"),
    }
}

fn skin0_tree(champ: &str, with_rr: bool, mrr_as_string: bool) -> BinTree {
    let scdp_key = fnv1a_hash(&format!("characters/{champ}/skins/skin0"));
    let rr_key = fnv1a_hash(&format!("characters/{champ}/skins/skin0/resources"));
    let mrr = fnv1a_hash("mresourceresolver");
    let mut props = vec![];
    if with_rr {
        let value = if mrr_as_string {
            PropertyValue::String(format!("Characters/{champ}/Skins/Skin0/Resources"))
        } else {
            PropertyValue::Link(rr_key)
        };
        props.push(prop(mrr, value));
    }
    let mut objects = vec![object(fnv1a_hash("skincharacterdataproperties"), scdp_key, props)];
    if with_rr {
        objects.push(object(fnv1a_hash("resourceresolver"), rr_key, vec![]));
    }
    tree_of(objects)
}

#[test]
fn clone_rekeys_scdp_and_rr_and_patches_link() {
    let tree = skin0_tree("kayn", true, false);
    let clone = clone_skin_tree(&tree, "kayn", 5).expect("clone");

    let scdp5 = fnv1a_hash("characters/kayn/skins/skin5");
    let rr5 = fnv1a_hash("characters/kayn/skins/skin5/resources");
    assert!(clone.objects.contains_key(scdp5));
    assert!(clone.objects.contains_key(rr5));
    assert!(!clone.objects.contains_key(fnv1a_hash("characters/kayn/skins/skin0")));

    let obj = clone.objects.get(scdp5).unwrap();
    assert_eq!(obj.path_hash.0, scdp5);
    match &obj.properties.get(fnv1a_hash("mresourceresolver")).unwrap().value {
        PropertyValue::Link(h) => assert_eq!(*h, rr5),
        other => panic!("expected link, got {other:?}"),
    }
}

#[test]
fn clone_patches_string_form_mrr() {
    let tree = skin0_tree("kayn", true, true);
    let clone = clone_skin_tree(&tree, "kayn", 12).expect("clone");
    let obj = clone.objects.get(fnv1a_hash("characters/kayn/skins/skin12")).unwrap();
    match &obj.properties.get(fnv1a_hash("mresourceresolver")).unwrap().value {
        PropertyValue::String(s) => assert_eq!(s, "Characters/kayn/Skins/Skin12/Resources"),
        other => panic!("expected string, got {other:?}"),
    }
}

#[test]
fn clone_without_rr_leaves_mrr_alone() {
    let tree = skin0_tree("kayn", false, false);
    let clone = clone_skin_tree(&tree, "kayn", 3).expect("clone");
    let obj = clone.objects.get(fnv1a_hash("characters/kayn/skins/skin3")).unwrap();
    assert!(!obj.properties.contains_key(fnv1a_hash("mresourceresolver")));
}

#[test]
fn no_scdp_means_no_clone() {
    assert!(clone_skin_tree(&BinTree::new(), "kayn", 1).is_none());
}

#[test]
fn rekey_moves_object_to_end_like_celestial() {
    let tree = skin0_tree("kayn", true, false);
    let clone = clone_skin_tree(&tree, "kayn", 7).expect("clone");
    let keys: Vec<u32> = clone.objects.entries.iter().map(|e| e.0).collect();
    assert_eq!(
        keys,
        vec![fnv1a_hash("characters/kayn/skins/skin7"), fnv1a_hash("characters/kayn/skins/skin7/resources")]
    );
}

#[test]
fn the_order_of_two_renames_is_free() {
    let (h, w, c) = (hashes(), wad_of(&[]), no_champions());
    let build = || {
        tree_of(vec![
            object(1, 10, vec![prop(0x73, text("Diffuse_Texture")), prop(0x71, text("a/b.dds"))]),
            object(1, 20, vec![prop(0x73, text("a/c.dds"))]),
        ])
    };
    let path_first = |ctx: &mut FixContext<Names, Wad, Game>| {
        rename_hash::apply(ctx, "textureName", "texturePath", true) + rename_hash::apply(ctx, "samplerName", "textureName", false)
    };
    let name_first = |ctx: &mut FixContext<Names, Wad, Game>| {
        rename_hash::apply(ctx, "samplerName", "textureName", false) + rename_hash::apply(ctx, "textureName", "texturePath", true)
    };
    let mut a = session(build(), "main.bin", &h, &w, &c, None);
    let mut b = session(build(), "main.bin", &h, &w, &c, None);
    assert_eq!(path_first(&mut a), 4);
    assert_eq!(name_first(&mut b), 4);
    for ctx in [&a, &b] {
        let props = &ctx.tree.objects.get(10).unwrap().properties;
        assert!(matches!(&props.get(0x71).unwrap().value, PropertyValue::String(s) if s == "Diffuse_Texture"));
        assert!(matches!(&props.get(0x72).unwrap().value, PropertyValue::String(s) if s == "a/b.dds"));
        assert!(!props.contains_key(0x73));
        let other = &ctx.tree.objects.get(20).unwrap().properties;
        assert!(matches!(&other.get(0x72).unwrap().value, PropertyValue::String(s) if s == "a/c.dds"));
        assert!(!other.contains_key(0x71) && !other.contains_key(0x73));
    }
    assert_eq!(path_first(&mut a), 0);
    assert_eq!(name_first(&mut b), 0);
    let mut again = session(copy_tree(&a.tree), "main.bin", &h, &w, &c, None);
    assert_eq!(name_first(&mut again), 0);
}

#[test]
fn a_champion_is_the_folder_below_characters() {
    assert_eq!(split_entries::resolve_template("{champion}", "data/characters/foo.bin"), "");
    assert_eq!(split_entries::resolve_template("{champion}", "DATA/Characters/Foo/x.bin"), "foo");
    assert_eq!(split_entries::resolve_template("{champion}", "data/other/foo/x.bin"), "");
}

#[test]
fn a_copy_keeps_the_bytes_behind_the_entries() {
    let mut tree = skin0_tree("jinx", true, false);
    tree.trailing = vec![1, 2, 3];
    assert_eq!(copy_tree(&tree).trailing, vec![1, 2, 3]);
    assert_eq!(clone_skin_tree(&tree, "jinx", 5).unwrap().trailing, vec![1, 2, 3]);
}
