use tiled_map_web_viewer::resources::{
    Preloader, ResourceCache, extract_external_paths, parent_path, resolve_relative_path,
};

#[test]
fn external_paths_come_from_sources_then_templates() {
    let xml = r#"<map><tileset firstgid="1" source="../tilesets/a.tsx"/><objectgroup><object template="../templates/t.tx"/></objectgroup><image source="img.png"/><tileset source="b.tsx"/></map>"#;
    let paths = extract_external_paths(xml, "maps");
    assert_eq!(
        paths,
        vec![
            "tilesets/a.tsx".to_string(),
            "maps/b.tsx".to_string(),
            "templates/t.tx".to_string(),
        ]
    );
}

#[test]
fn external_paths_stop_at_an_unclosed_value() {
    let xml = r#"<map><tileset source="a.tsx"/><tileset source="b.tsx"#;
    assert_eq!(extract_external_paths(xml, ""), vec!["a.tsx".to_string()]);
    assert!(extract_external_paths("<map/>", "maps").is_empty());
}

#[test]
fn relative_paths_resolve_against_the_base() {
    assert_eq!(resolve_relative_path("maps/sub", "../../x/./y.tsx"), "x/y.tsx");
    assert_eq!(resolve_relative_path("", "../a.tsx"), "a.tsx");
    assert_eq!(resolve_relative_path("maps", "tiles//a.tsx"), "maps/tiles/a.tsx");
    assert_eq!(parent_path("maps/m.tmx"), "maps");
    assert_eq!(parent_path("m.tmx"), "");
}

#[test]
fn preloader_reads_nested_resources_once() {
    let main = br#"<map><tileset source="../tiles/a.tsx"/><tileset source="../tiles/a.tsx"/></map>"#;
    let mut pre = Preloader::new(main, "maps/m.tmx");
    let first = pre.next_request();
    assert_eq!(first, Some("tiles/a.tsx".to_string()));
    pre.deliver(
        "tiles/a.tsx".to_string(),
        br#"<tileset><object template="../tpl/o.tx"/><image source="a.png"/></tileset>"#.to_vec(),
    );
    assert_eq!(pre.next_request(), Some("tpl/o.tx".to_string()));
    pre.deliver("tpl/o.tx".to_string(), b"<template/>".to_vec());
    assert_eq!(pre.next_request(), None);
    let cache = pre.into_cache();
    let main_bytes = main.to_vec();
    assert_eq!(
        cache.read_from(&main_bytes, "tiles/a.tsx").unwrap(),
        br#"<tileset><object template="../tpl/o.tx"/><image source="a.png"/></tileset>"#.to_vec()
    );
    assert_eq!(cache.read_from(&main_bytes, "tpl/o.tx").unwrap(), b"<template/>".to_vec());
    assert_eq!(cache.read_from(&main_bytes, "maps/m.tmx").unwrap(), main_bytes);
    assert_eq!(
        cache.read_from(&main_bytes, "other/x.tsx").unwrap_err(),
        "Resource not pre-loaded: other/x.tsx"
    );
}

#[test]
fn resource_cache_keeps_the_latest_bytes() {
    let mut cache = ResourceCache::new();
    assert!(!cache.contains("a.tsx"));
    cache.insert("a.tsx".to_string(), vec![1, 2]);
    cache.insert("a.tsx".to_string(), vec![3]);
    assert_eq!(cache.get("a.tsx"), Some(&vec![3]));
    assert!(cache.contains("a.tsx"));
    assert_eq!(cache.get("b.tsx"), None);
}

#[test]
fn absolute_bases_keep_their_root() {
    assert_eq!(resolve_relative_path("/maps", "../x.tsx"), "/x.tsx");
    assert_eq!(resolve_relative_path("/", "../../x.tsx"), "/x.tsx");
    assert_eq!(resolve_relative_path("/maps/sub", "t/a.tsx"), "/maps/sub/t/a.tsx");
    assert_eq!(parent_path("/m.tmx"), "/");
    assert_eq!(parent_path("/maps/m.tmx"), "/maps");
    assert_eq!(parent_path("/"), "");
}

#[test]
fn resource_cache_compares_paths_by_component() {
    let mut cache = ResourceCache::new();
    cache.insert("maps/a.tsx".to_string(), vec![7]);
    assert_eq!(cache.get("maps/./a.tsx"), Some(&vec![7]));
    assert_eq!(cache.get("maps//a.tsx"), Some(&vec![7]));
    assert!(cache.contains("maps/a.tsx/"));
    assert_eq!(cache.get("/maps/a.tsx"), None);
    assert_eq!(cache.get("maps/b.tsx"), None);
    cache.insert("maps/./a.tsx".to_string(), vec![8]);
    assert_eq!(cache.get("maps/a.tsx"), Some(&vec![8]));
    let main = b"<map/>".to_vec();
    assert_eq!(cache.read_from(&main, "maps//a.tsx").unwrap(), vec![8]);
}
