use tiled_map_web_viewer::paths::{normalize_relative_path, resolve_reference_path};

#[test]
fn normalize_and_resolve_references() {
    assert_eq!(
        normalize_relative_path("curated/worlds/undertale/../undertale/room.tmx").unwrap(),
        "curated/worlds/undertale/room.tmx"
    );
    assert_eq!(
        resolve_reference_path(
            "curated/worlds/undertale/ruins.world",
            "../../undertale/room_ruins1.tmx"
        )
        .unwrap(),
        "curated/undertale/room_ruins1.tmx"
    );
}

#[test]
fn reject_paths_that_escape_asset_root() {
    let err = resolve_reference_path("maps/room.tmx", "../../oops.tsx").unwrap_err();
    assert!(err.message().contains("escapes asset root"));
}
