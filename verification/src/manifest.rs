//! The map manifest: what the viewer lists, with the kind, title and grouping
//! of each map or world file.
use vstd::prelude::*;
use crate::paths::{file_name_chars, name_extension_chars, name_stem_chars, path_extension, path_stem, slashed};
use crate::text::{ascii_lower_chars, ascii_lower_seq, chars_eq, chars_of, replace_chars, string_of};

verus! {

/// Whether a manifest entry is a single map (`.tmx`) or a world (`.world`).
#[derive(Clone, Copy, Debug, PartialEq, Eq, Structural)]
pub enum MapAssetKind {
    SingleMap,
    World,
}

impl Default for MapAssetKind {
    fn default() -> (k: MapAssetKind)
        ensures
            k == MapAssetKind::SingleMap,
    {
        MapAssetKind::SingleMap
    }
}

/// The kind that a path names: a world when its extension, in ASCII lower case,
/// is `world`; a map otherwise.
pub open spec fn kind_for_path(path: Seq<char>) -> MapAssetKind {
    match path_extension(path) {
        Some(e) => if ascii_lower_seq(e) == "world"@ {
            MapAssetKind::World
        } else {
            MapAssetKind::SingleMap
        },
        None => MapAssetKind::SingleMap,
    }
}

/// The label shown for a kind.
pub open spec fn kind_label(k: MapAssetKind) -> Seq<char> {
    match k {
        MapAssetKind::SingleMap => "Map"@,
        MapAssetKind::World => "World"@,
    }
}

impl MapAssetKind {
    /// Infers the kind of an asset from the extension of its path.
    pub fn from_path(path: &str) -> (k: MapAssetKind)
        ensures
            k == kind_for_path(path@),
    {
        let v = chars_of(path);
        match file_name_chars(&v) {
            Some(n) => match name_extension_chars(&n) {
                Some(e) => {
                    let lower = ascii_lower_chars(&e);
                    if chars_eq(&lower, "world") {
                        MapAssetKind::World
                    } else {
                        MapAssetKind::SingleMap
                    }
                },
                None => MapAssetKind::SingleMap,
            },
            None => MapAssetKind::SingleMap,
        }
    }

    /// The label shown for this kind.
    pub fn label(self) -> (s: &'static str)
        ensures
            s@ == kind_label(self),
    {
        match self {
            MapAssetKind::SingleMap => "Map",
            MapAssetKind::World => "World",
        }
    }
}

/// A small coloured tag shown next to a map.
#[derive(Clone, Debug)]
pub struct MapBadge {
    pub label: String,
    pub tone: Option<String>,
}

impl Default for MapBadge {
    fn default() -> (b: MapBadge)
        ensures
            b.label@ == Seq::<char>::empty(),
            b.tone is None,
    {
        MapBadge { label: String::new(), tone: None }
    }
}

/// A label and value shown in the details of a map.
#[derive(Clone, Debug)]
pub struct MapDetail {
    pub label: String,
    pub value: String,
}

impl Default for MapDetail {
    fn default() -> (d: MapDetail)
        ensures
            d.label@ == Seq::<char>::empty(),
            d.value@ == Seq::<char>::empty(),
    {
        MapDetail { label: String::new(), value: String::new() }
    }
}

/// One map or world listed by the viewer.
#[derive(Clone, Debug)]
pub struct MapManifestEntry {
    pub path: String,
    pub title: String,
    pub kind: Option<MapAssetKind>,
    pub section: Option<String>,
    pub category: Option<String>,
    pub badges: Vec<MapBadge>,
    pub details: Vec<MapDetail>,
}

/// The title shown for an entry: its title, or its path when the title is empty.
pub open spec fn shown_title(e: MapManifestEntry) -> Seq<char> {
    if e.title@.len() == 0 {
        e.path@
    } else {
        e.title@
    }
}

/// The kind of an entry: the one it states, else the one its path implies.
pub open spec fn entry_kind(e: MapManifestEntry) -> MapAssetKind {
    match e.kind {
        Some(k) => k,
        None => kind_for_path(e.path@),
    }
}

impl Default for MapManifestEntry {
    fn default() -> (e: MapManifestEntry)
        ensures
            e.path@ == Seq::<char>::empty(),
            e.title@ == Seq::<char>::empty(),
            e.kind is None,
            e.section is None,
            e.category is None,
            e.badges@.len() == 0,
            e.details@.len() == 0,
    {
        MapManifestEntry {
            path: String::new(),
            title: String::new(),
            kind: None,
            section: None,
            category: None,
            badges: Vec::new(),
            details: Vec::new(),
        }
    }
}

impl MapManifestEntry {
    /// The title to show: the entry's title, or its path when the title is empty.
    pub fn display_title(&self) -> (s: &str)
        ensures
            s@ == shown_title(*self),
    {
        if self.title.as_str().is_empty() {
            self.path.as_str()
        } else {
            self.title.as_str()
        }
    }

    /// The entry's kind, inferred from its path when the entry does not state it.
    pub fn asset_kind(&self) -> (k: MapAssetKind)
        ensures
            k == entry_kind(*self),
    {
        match self.kind {
            Some(k) => k,
            None => MapAssetKind::from_path(self.path.as_str()),
        }
    }
}

/// All entries of a manifest file.
#[derive(Clone, Debug)]
pub struct MapManifest {
    pub maps: Vec<MapManifestEntry>,
}

impl Default for MapManifest {
    fn default() -> (m: MapManifest)
        ensures
            m.maps@.len() == 0,
    {
        MapManifest { maps: Vec::new() }
    }
}

/// The entry made for a bare path: backslashes become slashes, the title is the
/// file stem (or the whole path when there is none) and the kind is the one the
/// path implies; nothing else is set.
pub open spec fn entry_for_path(e: MapManifestEntry, path: Seq<char>) -> bool {
    let normalized = slashed(path);
    &&& e.path@ == normalized
    &&& e.title@ == (match path_stem(normalized) {
        Some(s) => s,
        None => normalized,
    })
    &&& e.kind == Some(kind_for_path(normalized))
    &&& e.section is None
    &&& e.category is None
    &&& e.badges@.len() == 0
    &&& e.details@.len() == 0
}

/// Builds the manifest entry for a map or world file known only by its path.
pub fn manifest_entry_from_path(path: &str) -> (e: MapManifestEntry)
    ensures
        entry_for_path(e, path@),
{
    let raw = chars_of(path);
    let normalized = replace_chars(&raw, '\\', '/');
    let normalized_text = string_of(&normalized);
    let title = match file_name_chars(&normalized) {
        Some(n) => string_of(&name_stem_chars(&n)),
        None => string_of(&normalized),
    };
    let kind = MapAssetKind::from_path(normalized_text.as_str());
    MapManifestEntry {
        path: normalized_text,
        title,
        kind: Some(kind),
        section: None,
        category: None,
        badges: Vec::new(),
        details: Vec::new(),
    }
}

} // verus!
