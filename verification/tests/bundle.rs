use std::collections::HashMap;
use std::io::Cursor;

use tiled_map_web_viewer::bundle::{
    BundleCollector, BundleReply, BundleRequest, DownloadBundle, WorldDocument, WorldMapRef,
    bundle_to_zip_bytes,
};
use tiled_map_web_viewer::download::DownloadError;
use tiled_map_web_viewer::MapManifestEntry;

struct FakeSource {
    files: HashMap<String, Vec<u8>>,
}

impl FakeSource {
    fn new(files: Vec<(&str, &[u8])>) -> Self {
        let mut map = HashMap::new();
        for (path, bytes) in files {
            map.insert(path.to_string(), bytes.to_vec());
        }
        Self { files: map }
    }

    fn read_bytes(&self, relative_path: &str) -> Result<Vec<u8>, DownloadError> {
        match self.files.get(relative_path) {
            Some(bytes) => Ok(bytes.clone()),
            None => Err(DownloadError::new(format!(
                "missing test asset '{relative_path}'"
            ))),
        }
    }
}

fn parse_world(text: &str) -> Result<WorldDocument, String> {
    let value: serde_json::Value = serde_json::from_str(text).map_err(|e| e.to_string())?;
    let mut maps = Vec::new();
    if let Some(list) = value.get("maps").and_then(|m| m.as_array()) {
        for item in list {
            let file_name = item
                .get("fileName")
                .and_then(|f| f.as_str())
                .ok_or_else(|| "missing field `fileName`".to_string())?;
            maps.push(WorldMapRef {
                file_name: file_name.to_string(),
            });
        }
    }
    Ok(WorldDocument { maps })
}

fn build_download_bundle(
    source: &FakeSource,
    entry: &MapManifestEntry,
) -> Result<DownloadBundle, DownloadError> {
    let mut collector = BundleCollector::new(entry)?;
    let mut reply = BundleReply::Begin;
    loop {
        match collector.advance(reply)? {
            BundleRequest::Read(path) => reply = BundleReply::Bytes(source.read_bytes(&path)),
            BundleRequest::ParseWorld(text) => reply = BundleReply::World(parse_world(&text)),
            BundleRequest::Finished => break,
        }
    }
    Ok(collector.finish())
}

fn entry(path: &str, title: &str) -> MapManifestEntry {
    MapManifestEntry {
        path: path.into(),
        title: title.into(),
        ..Default::default()
    }
}

#[test]
fn bundle_tmx_collects_external_tileset_and_image() {
    let source = FakeSource::new(vec![
        (
            "maps/room.tmx",
            br#"<map><tileset source="../tilesets/test.tsx"/></map>"#.as_ref(),
        ),
        (
            "tilesets/test.tsx",
            br#"<tileset><image source="../images/test.png"/></tileset>"#.as_ref(),
        ),
        ("images/test.png", b"png-data".as_ref()),
    ]);

    let bundle = build_download_bundle(&source, &entry("maps/room.tmx", "Room")).unwrap();
    let paths = bundle.paths();
    assert_eq!(
        paths,
        vec![
            "images/test.png".to_string(),
            "maps/room.tmx".to_string(),
            "tilesets/test.tsx".to_string(),
        ]
    );
}

#[test]
fn bundle_tmx_collects_inline_tileset_images() {
    let source = FakeSource::new(vec![
        (
            "maps/room.tmx",
            br#"<map><tileset firstgid="1"><image source="../images/inline.png"/></tileset></map>"#
                .as_ref(),
        ),
        ("images/inline.png", b"png-data".as_ref()),
    ]);

    let bundle = build_download_bundle(&source, &entry("maps/room.tmx", "Room")).unwrap();
    let paths = bundle.paths();
    assert_eq!(
        paths,
        vec!["images/inline.png".to_string(), "maps/room.tmx".to_string()]
    );
}

#[test]
fn bundle_world_collects_maps_and_shared_dependencies_once() {
    let source = FakeSource::new(vec![
        (
            "worlds/zone.world",
            br#"{"maps":[{"fileName":"../maps/a.tmx"},{"fileName":"../maps/b.tmx"}]}"#.as_ref(),
        ),
        (
            "maps/a.tmx",
            br#"<map><tileset source="../tilesets/shared.tsx"/></map>"#.as_ref(),
        ),
        (
            "maps/b.tmx",
            br#"<map><tileset source="../tilesets/shared.tsx"/></map>"#.as_ref(),
        ),
        (
            "tilesets/shared.tsx",
            br#"<tileset><image source="../images/shared.png"/></tileset>"#.as_ref(),
        ),
        ("images/shared.png", b"png-data".as_ref()),
    ]);

    let bundle =
        build_download_bundle(&source, &entry("worlds/zone.world", "Zone World")).unwrap();
    let paths = bundle.paths();
    assert_eq!(
        paths,
        vec![
            "images/shared.png".to_string(),
            "maps/a.tmx".to_string(),
            "maps/b.tmx".to_string(),
            "tilesets/shared.tsx".to_string(),
            "worlds/zone.world".to_string(),
        ]
    );
}

#[test]
fn bundle_world_preserves_real_relative_paths() {
    let source = FakeSource::new(vec![
        (
            "curated/worlds/undertale/waterfall.world",
            br#"{"maps":[{"fileName":"../../undertale/room_tundra8.tmx"}]}"#.as_ref(),
        ),
        (
            "curated/undertale/room_tundra8.tmx",
            br#"<map><tileset source="tilesets/bg_tundra.tsx"/></map>"#.as_ref(),
        ),
        (
            "curated/undertale/tilesets/bg_tundra.tsx",
            br#"<tileset><image source="../textures/bg_tundra.png"/></tileset>"#.as_ref(),
        ),
        (
            "curated/undertale/textures/bg_tundra.png",
            b"png-data".as_ref(),
        ),
    ]);

    let bundle = build_download_bundle(
        &source,
        &entry("curated/worlds/undertale/waterfall.world", "Waterfall"),
    )
    .unwrap();
    let paths = bundle.paths();
    assert_eq!(
        paths,
        vec![
            "curated/undertale/room_tundra8.tmx".to_string(),
            "curated/undertale/textures/bg_tundra.png".to_string(),
            "curated/undertale/tilesets/bg_tundra.tsx".to_string(),
            "curated/worlds/undertale/waterfall.world".to_string(),
        ]
    );
}

#[test]
fn zip_archive_keeps_expected_paths() {
    let source = FakeSource::new(vec![
        (
            "maps/room.tmx",
            br#"<map><tileset source="../tilesets/test.tsx"/></map>"#.as_ref(),
        ),
        (
            "tilesets/test.tsx",
            br#"<tileset><image source="../images/test.png"/></tileset>"#.as_ref(),
        ),
        ("images/test.png", b"png-data".as_ref()),
    ]);

    let bundle = build_download_bundle(&source, &entry("maps/room.tmx", "Room")).unwrap();
    let zip_bytes = bundle_to_zip_bytes(&bundle).unwrap();
    let reader = Cursor::new(zip_bytes);
    let mut archive = zip::ZipArchive::new(reader).unwrap();
    let mut names = Vec::new();
    for index in 0..archive.len() {
        let file = archive.by_index(index).unwrap();
        names.push(file.name().unwrap().to_string());
    }
    names.sort();
    assert_eq!(
        names,
        vec![
            "images/test.png".to_string(),
            "maps/room.tmx".to_string(),
            "tilesets/test.tsx".to_string(),
        ]
    );
}

#[test]
fn bundle_archive_is_named_after_the_title() {
    let source = FakeSource::new(vec![("maps/room.tmx", b"<map/>".as_ref())]);
    let bundle =
        build_download_bundle(&source, &entry("maps/room.tmx", "  Dark Sanctuary!! ")).unwrap();
    assert_eq!(bundle.archive_name, "dark-sanctuary.zip");
    assert_eq!(bundle.paths(), vec!["maps/room.tmx".to_string()]);
}

#[test]
fn bundle_reports_missing_file() {
    let source = FakeSource::new(vec![(
        "maps/room.tmx",
        br#"<map><tileset source="../tilesets/gone.tsx"/></map>"#.as_ref(),
    )]);
    let err = build_download_bundle(&source, &entry("maps/room.tmx", "Room")).unwrap_err();
    assert_eq!(err.message(), "missing test asset 'tilesets/gone.tsx'");
}

#[test]
fn bundle_reports_escaping_reference() {
    let source = FakeSource::new(vec![(
        "maps/room.tmx",
        br#"<map><tileset source="../../outside.tsx"/></map>"#.as_ref(),
    )]);
    let err = build_download_bundle(&source, &entry("maps/room.tmx", "Room")).unwrap_err();
    assert!(err.message().contains("escapes asset root"));
}

#[test]
fn bundle_reports_broken_world() {
    let source = FakeSource::new(vec![("worlds/zone.world", b"{not json".as_ref())]);
    let err = build_download_bundle(&source, &entry("worlds/zone.world", "Zone")).unwrap_err();
    assert!(err.message().starts_with("failed to parse .world file: "));
}
