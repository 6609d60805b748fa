# tiled_map_web_viewer

A viewer for Tiled maps and worlds, built on Bevy, whose logic is a Verus
library with proved contracts.

- `src/` — the verified library:
  - `manifest`, `search`, `map_list`: manifest entries, search, grouping,
    ordering and the blocks of the map list;
  - `paths`, `text`: path normalisation and resolution, and the character-level
    helpers the contracts are written over;
  - `xml`, `bundle`, `download`: references inside Tiled files, collecting a
    map's files into a bundle, and its zip archive;
  - `resources`, `world_maps`: reading external tilesets and templates ahead of
    parsing, and the maps of a world;
  - `loading`, `view_settings`: the phases of loading a map, the batched
    cleanup, and the interface's settings.
- `tests/` — tests of the library.
- `app/` — the Bevy application around the library: rendering, input, asset
  I/O, the web page, and the floating-point camera and grid geometry.

## Collections

Where a set or map is keyed by a path, the library keeps it in a `Vec` with
the invariant stated in its contracts, rather than in `BTreeMap<String, _>`,
`BTreeSet<String>` or `HashMap<PathBuf, _>`: vstd gives no specification for
`PathBuf`, and for `String` keys the std maps' specifications cannot be used
to prove even what one `insert` leaves behind. So:

- the files of a download bundle are a `Vec` kept sorted by the bytes of
  their paths with no path twice (`insert_file`), the order in which a
  `BTreeMap<String, _>` walks them; a path counts as visited when its file
  is there (`contains_path`);
- the cache of tilesets and templates read ahead of parsing is a `Vec` of
  entries looked up by the components of their paths, as `Path` compares
  them, the later entry for a path standing in for an earlier one;
- the batched cleanup keeps its queue in a `VecDeque`, which vstd specifies.
