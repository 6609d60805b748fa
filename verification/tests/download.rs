use tiled_map_web_viewer::bundle::{WorldDocument, WorldMapRef, decode_text_file, world_references};
use tiled_map_web_viewer::download::{
    asset_url, bundle_archive_name, check_http_status, delivery_summary,
};
use tiled_map_web_viewer::xml::xml_references;
use tiled_map_web_viewer::MapManifestEntry;

#[test]
fn delivery_summaries() {
    assert_eq!(
        delivery_summary(true, "downloads/room.zip", 3),
        "Saved 'downloads/room.zip' (3 files)"
    );
    assert_eq!(
        delivery_summary(false, "room.zip", 120),
        "Downloaded 'room.zip' (120 files)"
    );
    assert_eq!(delivery_summary(false, "x.zip", 0), "Downloaded 'x.zip' (0 files)");
}

#[test]
fn asset_urls_and_http_status() {
    assert_eq!(asset_url("assets//", "maps/a.tmx"), "assets/maps/a.tmx");
    assert_eq!(asset_url("https://x/assets", "a.png"), "https://x/assets/a.png");
    assert!(check_http_status("u", 200).is_ok());
    assert!(check_http_status("u", 299).is_ok());
    assert_eq!(
        check_http_status("http://x/a.png", 404).unwrap_err().message(),
        "failed to fetch 'http://x/a.png': HTTP 404"
    );
}

#[test]
fn archive_names_follow_titles() {
    let e = MapManifestEntry {
        path: "maps/room.tmx".into(),
        title: "".into(),
        ..Default::default()
    };
    assert_eq!(bundle_archive_name(&e), "maps-room-tmx.zip");
    let e = MapManifestEntry {
        path: "maps/room.tmx".into(),
        title: "---".into(),
        ..Default::default()
    };
    assert_eq!(bundle_archive_name(&e), "map.zip");
}

#[test]
fn xml_references_list_tileset_and_image_sources() {
    let refs = xml_references(
        r#"<map><tileset firstgid="1" source="a.tsx"/><layer/><image source="b.png"/><object template="t.tx"/></map>"#,
    )
    .unwrap();
    assert_eq!(refs, vec!["a.tsx".to_string(), "b.png".to_string()]);
}

#[test]
fn world_references_and_text_decoding() {
    let doc = WorldDocument {
        maps: vec![
            WorldMapRef { file_name: "a.tmx".into() },
            WorldMapRef { file_name: "../b.tmx".into() },
        ],
    };
    assert_eq!(
        world_references(Ok(doc)).unwrap(),
        vec!["a.tmx".to_string(), "../b.tmx".to_string()]
    );
    assert_eq!(
        world_references(Err("eof".to_string())).unwrap_err().message(),
        "failed to parse .world file: eof"
    );
    assert_eq!(decode_text_file("a.tmx", b"<map/>").unwrap(), "<map/>");
    let err = decode_text_file("a.tmx", &[0xff, 0xfe]).unwrap_err();
    assert!(err.message().starts_with("'a.tmx' is not valid UTF-8: "));
}
