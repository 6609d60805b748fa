//! Asset-bundle, path and manifest logic of a Tiled map viewer, with its contracts.
pub mod bundle;
pub mod download;
pub mod loading;
pub mod manifest;
pub mod map_list;
pub mod paths;
pub mod resources;
pub mod search;
pub mod text;
pub mod view_settings;
pub mod world_maps;
pub mod xml;

pub use manifest::{MapAssetKind, MapBadge, MapDetail, MapManifest, MapManifestEntry};
pub use search::MapCategory;
