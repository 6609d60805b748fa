use tiled_map_web_viewer::manifest::manifest_entry_from_path;
use tiled_map_web_viewer::{MapAssetKind, MapManifestEntry};

#[test]
fn infer_kind_from_path_extension() {
    assert_eq!(MapAssetKind::from_path("maps/demo.tmx"), MapAssetKind::SingleMap);
    assert_eq!(
        MapAssetKind::from_path("maps/worlds/ruins.world"),
        MapAssetKind::World
    );
}

#[test]
fn default_entry_sets_title_and_kind() {
    let entry = manifest_entry_from_path("maps/ruins.world");
    assert_eq!(entry.title, "ruins");
    assert_eq!(entry.asset_kind(), MapAssetKind::World);
}

#[test]
fn missing_kind_falls_back_to_path_inference() {
    let entry = MapManifestEntry {
        path: "maps/sample.world".into(),
        title: "Sample".into(),
        kind: None,
        ..Default::default()
    };
    assert_eq!(entry.asset_kind(), MapAssetKind::World);
}
