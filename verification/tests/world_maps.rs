use tiled_map_web_viewer::world_maps::{
    TiledWorldLoaderError, map_size_attributes, world_map_path, xml_attr,
};

#[test]
fn attributes_are_read_from_their_first_occurrence() {
    let tag = r#"<map version="1.10" width="40" height="30" tilewidth="16" tileheight="8""#;
    assert_eq!(xml_attr(tag, "width"), Some("40".to_string()));
    assert_eq!(xml_attr(tag, "tilewidth"), Some("16".to_string()));
    assert_eq!(xml_attr(tag, "tileheight"), Some("8".to_string()));
    assert_eq!(xml_attr(tag, "infinite"), None);
    assert_eq!(
        xml_attr(r#"<map tilewidth="16" width="40""#, "width"),
        Some("16".to_string())
    );
    assert_eq!(xml_attr(r#"<map width="40"#, "width"), None);
}

#[test]
fn map_size_attributes_of_a_finite_map() {
    let bytes = br#"<?xml version="1.0"?><map version="1.10" width="10" height="8" tilewidth="16" tileheight="12" infinite="0"><layer/></map>"#;
    let size = match map_size_attributes("maps/a.tmx", bytes) {
        Ok(s) => s,
        Err(e) => panic!("{}", e.message()),
    };
    assert_eq!(size.width, "10");
    assert_eq!(size.height, "8");
    assert_eq!(size.tile_width, "16");
    assert_eq!(size.tile_height, "12");
}

#[test]
fn map_size_attributes_errors() {
    let infinite = br#"<map width="10" height="8" tilewidth="16" tileheight="16" infinite="1">"#;
    match map_size_attributes("maps/a.tmx", infinite) {
        Err(TiledWorldLoaderError::WorldWithInfiniteMap) => {}
        _ => panic!("expected an infinite map"),
    }
    let infinite_true = br#"<map infinite="true">"#;
    assert!(matches!(
        map_size_attributes("maps/a.tmx", infinite_true),
        Err(TiledWorldLoaderError::WorldWithInfiniteMap)
    ));
    let missing = br#"<map width="10" height="8" tilewidth="16">"#;
    match map_size_attributes("maps/a.tmx", missing) {
        Err(e) => assert_eq!(
            e.message(),
            "Could not determine size for world map 'maps/a.tmx'"
        ),
        Ok(_) => panic!("expected a missing size"),
    }
    let no_tag = b"<tileset/>";
    assert!(matches!(
        map_size_attributes("maps/a.tmx", no_tag),
        Err(TiledWorldLoaderError::MissingWorldMapSize(_))
    ));
    let not_text = [0xffu8, 0xfe, 0x00];
    assert!(matches!(
        map_size_attributes("maps/a.tmx", &not_text),
        Err(TiledWorldLoaderError::MissingWorldMapSize(_))
    ));
}

#[test]
fn loader_error_messages() {
    assert_eq!(
        TiledWorldLoaderError::EmptyWorld.message(),
        "No map found in this world"
    );
    assert_eq!(
        TiledWorldLoaderError::WorldWithInfiniteMap.message(),
        "Infinite map found in this world (not supported)"
    );
    assert_eq!(
        TiledWorldLoaderError::Io("boom".to_string()).message(),
        "Could not load Tiled file: boom"
    );
}

#[test]
fn world_map_paths_join_the_world_directory() {
    assert_eq!(
        world_map_path("worlds/zone.world", "../maps/a.tmx"),
        "worlds/../maps/a.tmx"
    );
    assert_eq!(world_map_path("zone.world", "a.tmx"), "a.tmx");
    assert_eq!(world_map_path("worlds/zone.world", "/abs/a.tmx"), "/abs/a.tmx");
    assert_eq!(world_map_path("/zone.world", "a.tmx"), "/a.tmx");
    assert_eq!(world_map_path("/worlds/zone.world", "a.tmx"), "/worlds/a.tmx");
}
