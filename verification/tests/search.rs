use tiled_map_web_viewer::search::{
    MapSection, grouped_maps_for_categories, map_entry_matches_search, map_list_blocks,
    select_on_click,
};
use tiled_map_web_viewer::{MapAssetKind, MapCategory, MapManifestEntry};

#[test]
fn empty_query_matches_every_entry() {
    let entry = MapManifestEntry {
        title: "room_tundra8".into(),
        path: "curated/undertale/room_tundra8.tmx".into(),
        ..Default::default()
    };
    assert!(map_entry_matches_search(&entry, ""));
    assert!(map_entry_matches_search(&entry, "   "));
}

#[test]
fn search_matches_title_and_path_case_insensitively() {
    let entry = MapManifestEntry {
        title: "Dark Sanctuary".into(),
        path: "curated/worlds/deltarune/deltarune_ch4/dark_sanctuary.world".into(),
        ..Default::default()
    };
    assert!(map_entry_matches_search(&entry, "sanctuary"));
    assert!(map_entry_matches_search(&entry, "CURATED/WORLDS"));
    assert!(!map_entry_matches_search(&entry, "waterfall"));
}

#[test]
fn search_matches_section_and_category() {
    let entry = MapManifestEntry {
        title: "room_torhouse".into(),
        path: "curated/undertale/room_torhouse.tmx".into(),
        section: Some("curated".into()),
        category: Some("worlds".into()),
        ..Default::default()
    };
    assert!(map_entry_matches_search(&entry, "curated"));
    assert!(map_entry_matches_search(&entry, "worlds"));
}

#[test]
fn search_trims_query_and_ignores_its_case() {
    let entry = MapManifestEntry {
        title: "Snowdin Town".into(),
        path: "maps/snowdin.tmx".into(),
        ..Default::default()
    };
    assert!(map_entry_matches_search(&entry, "  SNOWDIN town  "));
    assert_eq!(
        map_entry_matches_search(&entry, "Town"),
        map_entry_matches_search(&entry, "town")
    );
    assert!(!map_entry_matches_search(&entry, "snowdin  town"));
}

fn entry(path: &str, category: Option<&str>, section: Option<&str>) -> MapManifestEntry {
    MapManifestEntry {
        path: path.into(),
        category: category.map(|c| c.to_string()),
        section: section.map(|s| s.to_string()),
        ..Default::default()
    }
}

#[test]
fn groups_without_categories_form_a_flat_list() {
    let a = entry("a.tmx", None, None);
    let b = entry("b.world", None, None);
    let c = entry("c.tmx", None, None);
    let groups = grouped_maps_for_categories(&vec![], vec![&a, &b, &c], "Other", "Maps", "Worlds");
    assert_eq!(groups.len(), 1);
    assert_eq!(groups[0].0, "Maps");
    let paths: Vec<&str> = groups[0].1.iter().map(|e| e.path.as_str()).collect();
    assert_eq!(paths, vec!["a.tmx", "b.world", "c.tmx"]);
    assert_eq!(groups[0].1[1].asset_kind(), MapAssetKind::World);

    let empty = grouped_maps_for_categories(&vec![], vec![], "Other", "Maps", "Worlds");
    assert_eq!(empty.len(), 1);
    assert!(empty[0].1.is_empty());
}

#[test]
fn groups_with_categories_keep_every_entry_once() {
    let cats = vec![
        MapCategory {
            name: "Undertale".into(),
            key: "ut".into(),
            directory: "undertale".into(),
        },
        MapCategory {
            name: "Deltarune".into(),
            key: "dr".into(),
            directory: "deltarune".into(),
        },
    ];
    let a = entry("a.tmx", Some("dr"), None);
    let b = entry("b.tmx", Some("ut"), None);
    let c = entry("c.tmx", Some("zz"), None);
    let d = entry("d.tmx", None, None);
    let groups = grouped_maps_for_categories(&cats, vec![&a, &b, &c, &d], "Other", "Maps", "Worlds");
    let names: Vec<&str> = groups.iter().map(|g| g.0.as_str()).collect();
    assert_eq!(names, vec!["Undertale", "Deltarune", "Other"]);
    assert_eq!(groups[0].1[0].path, "b.tmx");
    assert_eq!(groups[1].1[0].path, "a.tmx");
    let rest: Vec<&str> = groups[2].1.iter().map(|e| e.path.as_str()).collect();
    assert_eq!(rest, vec!["c.tmx", "d.tmx"]);
    let total: usize = groups.iter().map(|g| g.1.len()).sum();
    assert_eq!(total, 4);
}

#[test]
fn list_blocks_follow_sections() {
    let maps = vec![
        entry("a.tmx", None, Some("curated")),
        entry("b.tmx", None, Some("raw")),
        entry("c.tmx", None, None),
        entry("d.tmx", None, Some("hidden")),
    ];
    let sections = vec![
        MapSection {
            key: "curated".into(),
            name: "Curated".into(),
        },
        MapSection {
            key: "raw".into(),
            name: "Raw".into(),
        },
        MapSection {
            key: "hidden".into(),
            name: "Hidden".into(),
        },
    ];
    let visible = vec!["curated".to_string(), "raw".to_string()];
    let (blocks, no_maps) = map_list_blocks(&maps, None, &sections, &visible, "", "Other");
    assert!(!no_maps);
    let headings: Vec<Option<String>> = blocks.iter().map(|b| b.heading.clone()).collect();
    assert_eq!(
        headings,
        vec![
            Some("Curated".to_string()),
            Some("Raw".to_string()),
            Some("Other".to_string())
        ]
    );
    assert_eq!(blocks[2].entries[0].path, "c.tmx");

    let (only, no_maps) = map_list_blocks(&maps, Some("raw"), &sections, &visible, "", "Other");
    assert!(!no_maps);
    assert_eq!(only.len(), 1);
    assert_eq!(only[0].heading, None);
    assert_eq!(only[0].entries[0].path, "b.tmx");

    let (none, no_maps) = map_list_blocks(&maps, Some("raw"), &sections, &visible, "zzz", "Other");
    assert!(no_maps);
    assert!(none.is_empty());

    let (flat, _) = map_list_blocks(&maps, None, &vec![], &visible, "a.t", "Other");
    assert_eq!(flat.len(), 1);
    assert_eq!(flat[0].entries.len(), 1);
}

#[test]
fn clicking_selects_and_loads_a_new_entry_only() {
    let mut selected: Option<String> = None;
    assert!(select_on_click(&mut selected, "maps/a.tmx"));
    assert_eq!(selected, Some("maps/a.tmx".to_string()));
    assert!(!select_on_click(&mut selected, "maps/a.tmx"));
    assert_eq!(selected, Some("maps/a.tmx".to_string()));
    assert!(select_on_click(&mut selected, "maps/b.tmx"));
    assert_eq!(selected, Some("maps/b.tmx".to_string()));
}
