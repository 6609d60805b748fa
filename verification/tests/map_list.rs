use tiled_map_web_viewer::map_list::{
    entries_from_path_list, is_map_asset_file, manifest_txt_path, sort_maps_by_path,
};
use tiled_map_web_viewer::{MapAssetKind, MapManifestEntry};

fn entry(path: &str, title: &str) -> MapManifestEntry {
    MapManifestEntry {
        path: path.into(),
        title: title.into(),
        ..Default::default()
    }
}

#[test]
fn sorting_by_path_is_stable() {
    let mut maps = vec![
        entry("b.tmx", "first b"),
        entry("a.tmx", "a"),
        entry("b.tmx", "second b"),
        entry("B.tmx", "upper"),
        entry("ab.world", "ab"),
    ];
    sort_maps_by_path(&mut maps);
    let seen: Vec<(&str, &str)> = maps
        .iter()
        .map(|e| (e.path.as_str(), e.title.as_str()))
        .collect();
    assert_eq!(
        seen,
        vec![
            ("B.tmx", "upper"),
            ("a.tmx", "a"),
            ("ab.world", "ab"),
            ("b.tmx", "first b"),
            ("b.tmx", "second b"),
        ]
    );
}

#[test]
fn path_lists_give_one_entry_per_line() {
    let entries = entries_from_path_list("maps\\a.tmx\r\n   \nworlds/b.world\n\nc.tmx");
    let paths: Vec<&str> = entries.iter().map(|e| e.path.as_str()).collect();
    assert_eq!(paths, vec!["maps/a.tmx", "worlds/b.world", "c.tmx"]);
    assert_eq!(entries[0].title, "a");
    assert_eq!(entries[1].asset_kind(), MapAssetKind::World);
    assert!(entries_from_path_list("").is_empty());
    assert!(entries_from_path_list("\n").is_empty());
}

#[test]
fn text_manifest_sits_next_to_the_json_one() {
    assert_eq!(manifest_txt_path("assets/maps.json"), "assets/maps.txt");
    assert_eq!(manifest_txt_path("a.json/b.json"), "a.txt/b.txt");
    assert_eq!(manifest_txt_path("maps.yaml"), "maps.yaml");
}

#[test]
fn map_files_are_chosen_by_extension() {
    assert!(is_map_asset_file("maps/room.tmx"));
    assert!(is_map_asset_file("maps/ROOM.TMX"));
    assert!(is_map_asset_file("w/zone.World"));
    assert!(!is_map_asset_file("tiles/a.tsx"));
    assert!(!is_map_asset_file("tmx"));
}
