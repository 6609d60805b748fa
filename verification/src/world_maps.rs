//! The maps of a Tiled world: where each one lies next to the world file, and
//! the size attributes read from a map's `<map>` tag when the world does not
//! state its size.
use vstd::prelude::*;
use vstd::utf8::{decode_utf8, valid_utf8};
use crate::bundle::string_from_utf8;
use crate::resources::{find_chars_from, find_from, lemma_find_from, parent_dir, parent_path};
use crate::text::{chars_eq, chars_of, slice_chars, string_of};

verus! {

/// What can go wrong when a world is loaded, as its message shows it.
pub enum LoaderFault {
    Io(Seq<char>),
    EmptyWorld,
    WorldWithInfiniteMap,
    MissingWorldMapSize(Seq<char>),
}

/// Why loading a world failed.
pub enum TiledWorldLoaderError {
    /// Reading or parsing a file failed, with the message that says why.
    Io(String),
    /// The world names no map.
    EmptyWorld,
    /// A map of the world is infinite, which is not supported.
    WorldWithInfiniteMap,
    /// The size of the map at this path could not be determined.
    MissingWorldMapSize(String),
}

impl View for TiledWorldLoaderError {
    type V = LoaderFault;

    open spec fn view(&self) -> LoaderFault {
        match self {
            TiledWorldLoaderError::Io(m) => LoaderFault::Io(m@),
            TiledWorldLoaderError::EmptyWorld => LoaderFault::EmptyWorld,
            TiledWorldLoaderError::WorldWithInfiniteMap => LoaderFault::WorldWithInfiniteMap,
            TiledWorldLoaderError::MissingWorldMapSize(p) => LoaderFault::MissingWorldMapSize(p@),
        }
    }
}

/// The message shown for a fault.
pub open spec fn fault_message(f: LoaderFault) -> Seq<char> {
    match f {
        LoaderFault::Io(m) => "Could not load Tiled file: "@ + m,
        LoaderFault::EmptyWorld => "No map found in this world"@,
        LoaderFault::WorldWithInfiniteMap => "Infinite map found in this world (not supported)"@,
        LoaderFault::MissingWorldMapSize(p) => "Could not determine size for world map '"@ + p + "'"@,
    }
}

impl TiledWorldLoaderError {
    /// The message shown for this error.
    pub fn message(&self) -> (s: String)
        ensures
            s@ == fault_message(self@),
    {
        match self {
            TiledWorldLoaderError::Io(m) => {
                let mut s = String::from_str("Could not load Tiled file: ");
                s.append(m.as_str());
                s
            },
            TiledWorldLoaderError::EmptyWorld => String::from_str("No map found in this world"),
            TiledWorldLoaderError::WorldWithInfiniteMap => String::from_str(
                "Infinite map found in this world (not supported)",
            ),
            TiledWorldLoaderError::MissingWorldMapSize(p) => {
                let mut s = String::from_str("Could not determine size for world map '");
                s.append(p.as_str());
                s.append("'");
                s
            },
        }
    }
}

/// The path of a world's map: its file name joined to the world file's
/// directory, as `Path::join` joins them (an absolute file name stands alone).
pub open spec fn joined_map_path(world: Seq<char>, filename: Seq<char>) -> Seq<char> {
    let dir = parent_dir(world);
    if filename.len() > 0 && filename[0] == '/' {
        filename
    } else if dir.len() == 0 {
        filename
    } else if dir == seq!['/'] {
        dir + filename
    } else {
        dir + seq!['/'] + filename
    }
}

/// The path of the map `filename` of the world whose file is at `world_path`.
pub fn world_map_path(world_path: &str, filename: &str) -> (r: String)
    ensures
        r@ == joined_map_path(world_path@, filename@),
{
    let dir = parent_path(world_path);
    let name = chars_of(filename);
    if name.len() > 0 && name[0] == '/' {
        return string_of(&name);
    }
    let dc = chars_of(dir.as_str());
    if dc.len() == 0 {
        return string_of(&name);
    }
    let mut r = dir;
    if dc.len() == 1 && dc[0] == '/' {
        assert(dc@ =~= seq!['/']);
        r.append(filename);
        return r;
    }
    assert(dc@ != seq!['/']) by {
        if dc@ == seq!['/'] {
            assert(dc@[0] == '/');
        }
    }
    r.append("/");
    proof {
        reveal_strlit("/");
    }
    r.append(filename);
    r
}

/// The value of the first attribute written `name="..."` in `text`: the text
/// between the quote after the first occurrence of `name="` and the next quote.
pub open spec fn attr_value(text: Seq<char>, name: Seq<char>) -> Option<Seq<char>> {
    let pat = name + seq!['=', '"'];
    let start = find_from(text, pat, 0);
    if start < 0 {
        None
    } else {
        let vs = start + pat.len();
        let end = find_from(text, seq!['"'], vs);
        if end < 0 {
            None
        } else {
            Some(text.subrange(vs, end))
        }
    }
}

/// The value of the attribute `name` in `text` (see `attr_value`).
pub fn xml_attr(text: &str, name: &str) -> (r: Option<String>)
    ensures
        match r {
            Some(v) => attr_value(text@, name@) == Some(v@),
            None => attr_value(text@, name@) is None,
        },
{
    let t = chars_of(text);
    let mut pat = chars_of(name);
    pat.push('=');
    pat.push('"');
    assert(pat@ =~= name@ + seq!['=', '"']);
    let start = match find_chars_from(&t, &pat, 0) {
        Some(s) => s,
        None => return None,
    };
    proof {
        lemma_find_from(t@, pat@, 0);
    }
    let quote = vec!['"'];
    assert(quote@ =~= seq!['"']);
    let vs = start + pat.len();
    let end = match find_chars_from(&t, &quote, vs) {
        Some(e) => e,
        None => return None,
    };
    proof {
        lemma_find_from(t@, quote@, vs as int);
    }
    let v = slice_chars(&t, vs, end);
    Some(string_of(&v))
}

/// The inside of a map file's `<map` tag: from `<map` up to, not including,
/// the next `>`.
pub open spec fn map_tag(text: Seq<char>) -> Option<Seq<char>> {
    let start = find_from(text, seq!['<', 'm', 'a', 'p'], 0);
    if start < 0 {
        None
    } else {
        let end = find_from(text, seq!['>'], start);
        if end < 0 {
            None
        } else {
            Some(text.subrange(start, end))
        }
    }
}

/// The size attributes of a map, as written: `width`, `height`, `tilewidth`
/// and `tileheight`.
pub struct MapSizeText {
    pub width: String,
    pub height: String,
    pub tile_width: String,
    pub tile_height: String,
}

/// The size attributes read from a map file, or the reason they cannot be:
/// the file is not UTF-8, has no `<map ...>` tag, or lacks one of the four
/// attributes (the size is missing); or its `infinite` is `1` or `true`.
pub open spec fn map_size_attrs(path: Seq<char>, bytes: Seq<u8>) -> Result<(Seq<char>, Seq<char>, Seq<char>, Seq<char>), LoaderFault> {
    let missing = LoaderFault::MissingWorldMapSize(path);
    if !valid_utf8(bytes) {
        Err(missing)
    } else {
        match map_tag(decode_utf8(bytes)) {
            None => Err(missing),
            Some(attrs) => {
                let inf = attr_value(attrs, "infinite"@);
                if inf == Some(seq!['1']) || inf == Some("true"@) {
                    Err(LoaderFault::WorldWithInfiniteMap)
                } else {
                    match (
                        attr_value(attrs, "width"@),
                        attr_value(attrs, "height"@),
                        attr_value(attrs, "tilewidth"@),
                        attr_value(attrs, "tileheight"@),
                    ) {
                        (Some(w), Some(h), Some(tw), Some(th)) => Ok((w, h, tw, th)),
                        _ => Err(missing),
                    }
                }
            },
        }
    }
}

/// The size attributes of a map as written, taken by their characters.
pub open spec fn size_text_view(s: MapSizeText) -> (Seq<char>, Seq<char>, Seq<char>, Seq<char>) {
    (s.width@, s.height@, s.tile_width@, s.tile_height@)
}

/// Reads the size attributes of the map file at `map_path` from its bytes
/// (see `map_size_attrs`). Their values are numbers for the caller to parse;
/// one that does not parse leaves the size missing too.
pub fn map_size_attributes(map_path: &str, bytes: &[u8]) -> (r: Result<MapSizeText, TiledWorldLoaderError>)
    ensures
        match r {
            Ok(s) => map_size_attrs(map_path@, bytes@) == Ok::<_, LoaderFault>(size_text_view(s)),
            Err(e) => map_size_attrs(map_path@, bytes@) == Err::<(Seq<char>, Seq<char>, Seq<char>, Seq<char>), _>(e@),
        },
{
    let missing = TiledWorldLoaderError::MissingWorldMapSize(string_of(&chars_of(map_path)));
    let text = match string_from_utf8(bytes) {
        Ok(s) => s,
        Err(_) => return Err(missing),
    };
    let t = chars_of(text.as_str());
    let open_tag = vec!['<', 'm', 'a', 'p'];
    let close = vec!['>'];
    assert(open_tag@ =~= seq!['<', 'm', 'a', 'p']);
    assert(close@ =~= seq!['>']);
    let start = match find_chars_from(&t, &open_tag, 0) {
        Some(s) => s,
        None => return Err(missing),
    };
    proof {
        lemma_find_from(t@, open_tag@, 0);
    }
    let end = match find_chars_from(&t, &close, start) {
        Some(e) => e,
        None => return Err(missing),
    };
    proof {
        lemma_find_from(t@, close@, start as int);
    }
    let attrs_chars = slice_chars(&t, start, end);
    let attrs = string_of(&attrs_chars);
    let infinite = xml_attr(attrs.as_str(), "infinite");
    let is_infinite = match &infinite {
        Some(v) => {
            let vc = chars_of(v.as_str());
            let one = chars_eq(&vc, "1");
            let yes = chars_eq(&vc, "true");
            proof {
                reveal_strlit("1");
                assert("1"@ =~= seq!['1']);
            }
            one || yes
        },
        None => false,
    };
    if is_infinite {
        return Err(TiledWorldLoaderError::WorldWithInfiniteMap);
    }
    let width = match xml_attr(attrs.as_str(), "width") {
        Some(v) => v,
        None => return Err(missing),
    };
    let height = match xml_attr(attrs.as_str(), "height") {
        Some(v) => v,
        None => return Err(missing),
    };
    let tile_width = match xml_attr(attrs.as_str(), "tilewidth") {
        Some(v) => v,
        None => return Err(missing),
    };
    let tile_height = match xml_attr(attrs.as_str(), "tileheight") {
        Some(v) => v,
        None => return Err(missing),
    };
    Ok(MapSizeText { width, height, tile_width, tile_height })
}

} // verus!
