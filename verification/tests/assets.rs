//! The registry of files that repairs add.

use hematite::assets::AssetRegistry;
use hematite::repath::invis_tex_bytes;
use hematite::session::{register_deep_repair_assets, FallbackAssets};

#[test]
fn invis_tex_resolves() {
    let registry = AssetRegistry::new();
    let bytes = registry.get("invis_tex").expect("invis_tex must be registered by default");
    assert_eq!(*bytes, invis_tex_bytes());
}

#[test]
fn unknown_asset_returns_none() {
    assert!(AssetRegistry::new().get("__definitely_not_registered__").is_none());
}

#[test]
fn register_then_get_round_trips() {
    let bytes: &[u8] = b"hello-world";
    let mut registry = AssetRegistry::new();
    registry.register("__test_round_trip__", bytes.to_vec());
    assert_eq!(registry.get("__test_round_trip__").map(|v| v.as_slice()), Some(bytes));
}

#[test]
fn registering_again_replaces() {
    let mut registry = AssetRegistry::new();
    registry.register("x", vec![1]);
    registry.register("x", vec![2]);
    assert_eq!(registry.get("x"), Some(&vec![2]));
    assert_eq!(registry.registered_names().iter().filter(|n| *n == "x").count(), 1);
    assert!(registry.get("invis_tex").is_some());
}

#[test]
fn the_fallback_textures_are_registered() {
    let mut registry = AssetRegistry::new();
    registry.register("x", vec![9]);
    register_deep_repair_assets(
        &mut registry,
        FallbackAssets {
            colorwhiteplaceholder_dds: vec![1],
            colorwhiteplaceholder_tex: vec![2],
            outlinetonemap_dds: vec![3],
            outlinetonemap_tex: vec![4],
            toonshading_dds: vec![5],
            toonshading_tex: vec![6],
        },
    );
    assert_eq!(registry.get("colorwhiteplaceholder_dds"), Some(&vec![1]));
    assert_eq!(registry.get("toonshading_tex"), Some(&vec![6]));
    assert_eq!(registry.get("x"), Some(&vec![9]));
    assert!(registry.get("invis_tex").is_some());
}
