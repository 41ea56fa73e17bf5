//! Loose textures and textures that the client cannot do without.

use hematite::bin::{BinObject, BinProperty, BinTree, FieldHash, OrderedMap, PathHash, PropertyValue, TypeHash};
use hematite::check::loose_textures::{evaluate, is_mipmap_level, stem_of, LooseTextureVerdict};
use hematite::check::required_texture::{is_map_mod, is_texture_path, run, RequiredTextureField};
use hematite::config::RequiredTextureConfig;
use hematite::diagnostic::ReasonCatalog;
use hematite::strings::fnv1a_hash;
use hematite::traits::NameSet;

struct Where<F: Fn(&str) -> bool>(F);

impl<F: Fn(&str) -> bool> NameSet for Where<F> {
    fn contains(&self, name: &str) -> bool {
        (self.0)(name)
    }
}

fn nothing(_: &str) -> bool {
    false
}

fn paths(n: usize) -> Vec<String> {
    (0..n).map(|i| format!("assets/characters/gragas/skins/skin1/tex{i}.dds")).collect()
}

#[test]
fn unreferenced_textures_are_lost() {
    let v = evaluate(&paths(10), false, &Where(nothing), &Where(nothing), &vec![], 6, 800_000).unwrap();
    assert_eq!((v.lost, v.total), (10, 10));
    assert_eq!(v.percent(), 100);
}

#[test]
fn a_mod_defining_a_skin_is_exempt() {
    assert!(evaluate(&paths(10), true, &Where(nothing), &Where(nothing), &vec![], 6, 800_000).is_none());
}

#[test]
fn a_referenced_texture_is_not_lost() {
    let referenced = Where(|p: &str| p.ends_with("tex0.dds"));
    let v = evaluate(&paths(10), false, &referenced, &Where(nothing), &vec![], 6, 800_000).unwrap();
    assert_eq!(v.lost, 9);
}

#[test]
fn shipping_the_converted_form_binds_it() {
    let mut files = paths(10);
    files.push("assets/characters/gragas/skins/skin1/tex0.tex".into());
    let v = evaluate(&files, false, &Where(nothing), &Where(nothing), &vec![], 6, 800_000).unwrap();
    assert_eq!(v.lost, 9);
}

#[test]
fn the_threshold_is_exclusive() {
    let files = paths(10);
    let bound = ["tex0.dds", "tex1.dds"];
    let referenced = Where(|p: &str| bound.iter().any(|b| p.ends_with(b)));
    assert!(evaluate(&files, false, &referenced, &Where(nothing), &vec![], 6, 800_000).is_none());
}

#[test]
fn small_samples_are_ignored() {
    assert!(evaluate(&paths(5), false, &Where(nothing), &Where(nothing), &vec![], 6, 800_000).is_none());
}

#[test]
fn interface_art_is_excluded() {
    let files = vec!["assets/characters/gragas/hud/icon.dds".to_string()];
    assert!(evaluate(&files, false, &Where(nothing), &Where(nothing), &vec![], 1, 800_000).is_none());
}

#[test]
fn mipmap_levels_are_excluded() {
    assert!(is_mipmap_level("4x_body"));
    assert!(is_mipmap_level("16x_body"));
    assert!(!is_mipmap_level("body"));
    assert!(!is_mipmap_level("x_body"));
}

#[test]
fn percent_truncates_rather_than_rounds() {
    let v = LooseTextureVerdict { lost: 799, total: 1000, convertible: 0 };
    assert_eq!(v.percent(), 79);
}

#[test]
fn a_lost_texture_with_a_counterpart_is_convertible() {
    let resolves = Where(|p: &str| p.ends_with("tex3.tex"));
    let v = evaluate(&paths(10), false, &Where(nothing), &resolves, &vec![], 6, 800_000).unwrap();
    assert_eq!(v.lost, 10);
    assert_eq!(v.convertible, 1);
    assert_eq!(stem_of("a/B.x.dds"), "B.x");
}

#[test]
fn map_content_is_recognised_and_skins_are_not() {
    assert!(is_map_mod(&vec!["data/maps/shipping/map11/map11.bin".to_string()]));
    assert!(is_map_mod(&vec!["ASSETS/Maps/Particles/x.dds".to_string()]));
    assert!(!is_map_mod(&vec!["data/characters/jhin/skins/skin0.bin".to_string()]));
    assert!(!is_map_mod(&vec![]));
}

#[test]
fn fields_are_hashed_from_their_configured_names() {
    let cfg = vec![RequiredTextureConfig {
        enabled: true,
        field: "CubemapProbePath".into(),
        reason: Some("missing_map_texture".into()),
    }];
    let fields = RequiredTextureField::from_config(&cfg);
    assert_eq!(fields.len(), 1);
    assert_eq!(fields[0].field_hash, 0xfe38_0acf);
}

#[test]
fn a_field_without_a_reason_is_dropped() {
    let cfg = vec![RequiredTextureConfig { enabled: true, field: "CubemapProbePath".into(), reason: None }];
    assert!(RequiredTextureField::from_config(&cfg).is_empty());
}

#[test]
fn the_cubemap_field_hash_is_fnv1a_of_the_lowercased_name() {
    assert_eq!(fnv1a_hash("cubemapprobepath"), 0xfe38_0acf);
}

#[test]
fn only_texture_extensions_count() {
    assert!(is_texture_path("x/Probe.DDS"));
    assert!(is_texture_path("x/probe.tex"));
    assert!(!is_texture_path("x/probe.bin"));
    assert!(!is_texture_path("x/probe"));
}

#[test]
fn a_required_texture_that_resolves_nowhere_is_reported_once() {
    let field = fnv1a_hash("cubemapprobepath");
    let mut properties = OrderedMap::new();
    properties.insert(
        field,
        BinProperty { name_hash: FieldHash(field), value: PropertyValue::String("maps/probe.dds".to_string()) },
    );
    let mut tree = BinTree::new();
    tree.objects.insert(1, BinObject { class_hash: TypeHash(5), path_hash: PathHash(1), properties });
    let fields = vec![RequiredTextureField { field_hash: field, reason: "missing_map_texture".to_string() }];
    let catalog = ReasonCatalog { reasons: vec![] };
    let bins = vec![tree];
    let found = run(&fields, &catalog, &bins, &Where(nothing));
    assert_eq!(found.len(), 1);
    assert_eq!(found[0].reason, "missing_map_texture");
    assert!(run(&fields, &catalog, &bins, &Where(|p: &str| p.ends_with("probe.dds"))).is_empty());
}

#[test]
fn no_textures_at_all_are_no_finding() {
    assert!(evaluate(&vec![], false, &Where(nothing), &Where(nothing), &vec![], 0, 800_000).is_none());
    assert!(evaluate(&vec![], false, &Where(nothing), &Where(nothing), &vec![], 0, 0).is_none());
}
