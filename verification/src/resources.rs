//! The external tilesets (`.tsx`) and object templates (`.tx`) that a Tiled
//! file names: finding them in its text, resolving their paths, reading them
//! ahead of parsing, and serving them from memory afterwards.
use vstd::prelude::*;
use vstd::utf8::{decode_utf8, valid_utf8};
use crate::bundle::copy_bytes;
use crate::paths::{file_name_chars, is_component, name_extension, file_name, name_extension_chars};
use crate::text::{chars_eq, chars_of, join_chars, join_with, occurs_at, slice_chars, split_chars, split_on, string_of};

verus! {

/// The index of the first occurrence of `pat` in `s` at or after `from`, or -1.
pub open spec fn find_from(s: Seq<char>, pat: Seq<char>, from: int) -> int
    decreases s.len() + 1 - from,
{
    if from < 0 || from + pat.len() > s.len() {
        -1
    } else if s.subrange(from, from + pat.len()) == pat {
        from
    } else {
        find_from(s, pat, from + 1)
    }
}

/// `find_from` gives -1 or a match at or after `from`, and no match lies
/// between `from` and it.
pub proof fn lemma_find_from(s: Seq<char>, pat: Seq<char>, from: int)
    requires
        from >= 0,
    ensures
        find_from(s, pat, from) == -1 || (from <= find_from(s, pat, from) && find_from(s, pat, from)
            + pat.len() <= s.len() && s.subrange(find_from(s, pat, from), find_from(s, pat, from) + pat.len())
            == pat),
        forall|j: int|
            from <= j && (find_from(s, pat, from) == -1 || j < find_from(s, pat, from)) && j + pat.len()
                <= s.len() ==> #[trigger] s.subrange(j, j + pat.len()) != pat,
    decreases s.len() + 1 - from,
{
    if from + pat.len() <= s.len() && s.subrange(from, from + pat.len()) != pat {
        lemma_find_from(s, pat, from + 1);
    }
}

/// The first occurrence of `pat` in `s` at or after `from`, as `str::find` on
/// the rest of the text finds it.
pub(crate) fn find_chars_from(s: &Vec<char>, pat: &Vec<char>, from: usize) -> (r: Option<usize>)
    requires
        from <= s.len(),
    ensures
        match r {
            Some(k) => k as int == find_from(s@, pat@, from as int),
            None => find_from(s@, pat@, from as int) == -1,
        },
{
    if pat.len() > s.len() {
        return None;
    }
    if pat.len() == 0 {
        assert(s@.subrange(from as int, from as int) =~= pat@);
        return Some(from);
    }
    let mut i: usize = from;
    while i <= s.len() - pat.len()
        invariant
            from <= i,
            0 < pat.len() <= s.len(),
            find_from(s@, pat@, from as int) == find_from(s@, pat@, i as int),
        decreases s.len() - i,
    {
        if occurs_at(s, pat, i) {
            return Some(i);
        }
        i = i + 1;
    }
    None
}

/// The values in double quotes that follow each occurrence of `pat` (which
/// ends with the opening quote), searching from `from`: after a value the
/// search goes on from its closing quote, and it stops at the first occurrence
/// whose value has no closing quote.
pub open spec fn quoted_values(xml: Seq<char>, pat: Seq<char>, from: int) -> Seq<Seq<char>>
    decreases xml.len() - from,
{
    if from < 0 || from > xml.len() || pat.len() == 0 {
        Seq::empty()
    } else {
        let start = find_from(xml, pat, from);
        if start < 0 {
            Seq::empty()
        } else {
            let vs = start + pat.len();
            let end = find_from(xml, seq!['"'], vs);
            if end < 0 {
                Seq::empty()
            } else {
                proof {
                    lemma_find_from(xml, pat, from);
                    lemma_find_from(xml, seq!['"'], vs);
                }
                seq![xml.subrange(vs, end)] + quoted_values(xml, pat, end)
            }
        }
    }
}

/// `source="`, the text before a tileset's or image's path.
pub open spec fn source_pattern() -> Seq<char> {
    seq!['s', 'o', 'u', 'r', 'c', 'e', '=', '"']
}

/// `template="`, the text before an object template's path.
pub open spec fn template_pattern() -> Seq<char> {
    seq!['t', 'e', 'm', 'p', 'l', 'a', 't', 'e', '=', '"']
}

/// Whether `s` ends with `suffix`.
pub open spec fn ends_with(s: Seq<char>, suffix: Seq<char>) -> bool {
    s.len() >= suffix.len() && s.skip(s.len() - suffix.len()) == suffix
}

/// Whether a referenced path names an external tileset or object template.
pub open spec fn is_external_ref(v: Seq<char>) -> bool {
    ends_with(v, seq!['.', 't', 's', 'x']) || ends_with(v, seq!['.', 't', 'x'])
}

/// The component that stands for the root of an absolute path.
pub open spec fn root_component() -> Seq<char> {
    seq!['/']
}

/// Whether a path is absolute: it starts with `/`.
pub open spec fn is_rooted(p: Seq<char>) -> bool {
    p.len() > 0 && p[0] == '/'
}

/// The components of a `/`-separated path, as `Path::components` yields
/// them: the root first for an absolute path, then the non-empty pieces,
/// without the `.` pieces that do not stand first.
pub open spec fn path_components(p: Seq<char>) -> Seq<Seq<char>> {
    if is_rooted(p) {
        seq![root_component()] + kept_components(split_on(p, '/'))
    } else {
        kept_components(split_on(p, '/'))
    }
}

/// A path written from its components: `/` between them, and after the root.
pub open spec fn render(c: Seq<Seq<char>>) -> Seq<char> {
    if c.len() > 0 && c[0] == root_component() {
        seq!['/'] + join_with(c.skip(1), '/')
    } else {
        join_with(c, '/')
    }
}

/// The pieces of `pieces` that `path_components` keeps, in order.
pub open spec fn kept_components(pieces: Seq<Seq<char>>) -> Seq<Seq<char>>
    decreases pieces.len(),
{
    if pieces.len() == 0 {
        pieces
    } else {
        let init = kept_components(pieces.drop_last());
        let x = pieces.last();
        if x.len() == 0 || (x == seq!['.'] && pieces.len() > 1) {
            init
        } else {
            init.push(x)
        }
    }
}

/// One step of resolving a relative path: `..` removes the last component when
/// there is one other than the root, any other component is appended, and an
/// empty piece or `.` changes nothing.
pub open spec fn walk_step(acc: Seq<Seq<char>>, piece: Seq<char>) -> Seq<Seq<char>> {
    if piece == seq!['.', '.'] {
        if acc.len() > 0 && acc.last() != root_component() {
            acc.drop_last()
        } else {
            acc
        }
    } else if is_component(piece) {
        acc.push(piece)
    } else {
        acc
    }
}

/// The components reached from `acc` by walking the pieces of a relative path.
pub open spec fn walk(acc: Seq<Seq<char>>, pieces: Seq<Seq<char>>) -> Seq<Seq<char>>
    decreases pieces.len(),
{
    if pieces.len() == 0 {
        acc
    } else {
        walk_step(walk(acc, pieces.drop_last()), pieces.last())
    }
}

/// The path that `relative` names from the directory `base`, `..` taking away
/// the last component of what has been reached so far.
pub open spec fn resolved_relative(base: Seq<char>, relative: Seq<char>) -> Seq<char> {
    render(walk(path_components(base), split_on(relative, '/')))
}

/// The directory of the path with components `c`, as `Path::parent` gives it;
/// the empty path for a path with no parent (no component, or only the root).
pub open spec fn parent_of_components(c: Seq<Seq<char>>) -> Seq<char> {
    if c.len() == 0 || c == seq![root_component()] {
        Seq::empty()
    } else {
        render(c.drop_last())
    }
}

/// The directory of a path, as `Path::parent` gives it, the empty path for a
/// path with no parent.
pub open spec fn parent_dir(p: Seq<char>) -> Seq<char> {
    parent_of_components(path_components(p))
}

/// The resolved paths of those `values` that name an external tileset or
/// template, in order.
pub open spec fn external_only(values: Seq<Seq<char>>, base: Seq<char>) -> Seq<Seq<char>>
    decreases values.len(),
{
    if values.len() == 0 {
        Seq::empty()
    } else if is_external_ref(values.last()) {
        external_only(values.drop_last(), base).push(resolved_relative(base, values.last()))
    } else {
        external_only(values.drop_last(), base)
    }
}

/// The external tilesets and templates that a Tiled file's text names, each
/// resolved against `base`: those of `source="..."` first, then those of
/// `template="..."`, each in the order of the text.
pub open spec fn external_refs(xml: Seq<char>, base: Seq<char>) -> Seq<Seq<char>> {
    external_only(quoted_values(xml, source_pattern(), 0), base) + external_only(
        quoted_values(xml, template_pattern(), 0),
        base,
    )
}

/// The strings taken by their characters.
pub open spec fn string_seq(v: Seq<String>) -> Seq<Seq<char>> {
    v.map_values(|s: String| s@)
}

/// The components of the path whose characters are `v`.
fn components_of(v: &Vec<char>) -> (r: Vec<Vec<char>>)
    ensures
        r.deep_view() == path_components(v@),
{
    let pieces = split_chars(v, '/');
    let ghost pv = pieces.deep_view();
    let mut kept: Vec<Vec<char>> = Vec::new();
    let mut k: usize = 0;
    while k < pieces.len()
        invariant
            k <= pieces.len(),
            pv == pieces.deep_view(),
            pv == split_on(v@, '/'),
            kept.deep_view() == kept_components(pv.take(k as int)),
        decreases pieces.len() - k,
    {
        let piece = &pieces[k];
        let ghost before = kept.deep_view();
        assert(pv.take(k + 1).drop_last() =~= pv.take(k as int));
        assert(pv.take(k + 1).last() == piece@);
        let dot = chars_eq(piece, ".");
        proof {
            reveal_strlit(".");
            assert(dot == (piece@ == seq!['.'])) by {
                if piece@ == seq!['.'] {
                    assert(piece@ =~= "."@);
                }
                if dot {
                    assert(piece@ =~= seq!['.']);
                }
            }
        }
        if piece.len() > 0 && !(dot && k > 0) {
            let copy = slice_chars(piece, 0, piece.len());
            assert(copy@ =~= piece@);
            assert(copy.deep_view() =~= copy@);
            kept.push(copy);
            assert(kept.deep_view() =~= before.push(piece@));
        }
        k = k + 1;
    }
    assert(pv.take(pieces.len() as int) =~= pv);
    if v.len() > 0 && v[0] == '/' {
        let ghost rest = kept.deep_view();
        let root = vec!['/'];
        assert(root@ =~= root_component());
        assert(root.deep_view() =~= root@);
        kept.insert(0, root);
        assert(kept.deep_view() =~= seq![root_component()] + rest);
    }
    kept
}

/// Whether `c` is the root component.
fn is_root_piece(c: &Vec<char>) -> (b: bool)
    ensures
        b == (c@ == root_component()),
{
    if c.len() == 1 && c[0] == '/' {
        assert(c@ =~= root_component());
        true
    } else {
        false
    }
}

/// The path written from the components `c` (see `render`).
fn render_components(c: Vec<Vec<char>>) -> (r: Vec<char>)
    ensures
        r@ == render(c.deep_view()),
{
    let ghost cv = c.deep_view();
    if c.len() > 0 && is_root_piece(&c[0]) {
        assert(cv[0] == c@[0]@);
        assert(cv[0] == root_component());
        let mut rest = c;
        let _root = rest.remove(0);
        assert(rest.deep_view() =~= cv.skip(1));
        let joined = join_chars(&rest, '/');
        let mut r = vec!['/'];
        let mut k: usize = 0;
        while k < joined.len()
            invariant
                k <= joined.len(),
                r@ == seq!['/'] + joined@.take(k as int),
            decreases joined.len() - k,
        {
            r.push(joined[k]);
            k = k + 1;
            assert(r@ =~= seq!['/'] + joined@.take(k as int));
        }
        assert(joined@.take(joined.len() as int) =~= joined@);
        assert(r@ == seq!['/'] + join_with(cv.skip(1), '/'));
        r
    } else {
        proof {
            if c.len() > 0 {
                assert(cv[0] == c@[0]@);
            }
        }
        join_chars(&c, '/')
    }
}

/// Walks the pieces `pieces` of a relative path from the components `acc`.
fn walk_pieces(acc: Vec<Vec<char>>, pieces: &Vec<Vec<char>>) -> (r: Vec<Vec<char>>)
    ensures
        r.deep_view() == walk(acc.deep_view(), pieces.deep_view()),
{
    let ghost start = acc.deep_view();
    let ghost pv = pieces.deep_view();
    let mut acc = acc;
    let mut i: usize = 0;
    assert(pv.take(0) =~= Seq::<Seq<char>>::empty());
    while i < pieces.len()
        invariant
            i <= pieces.len(),
            pv == pieces.deep_view(),
            acc.deep_view() == walk(start, pv.take(i as int)),
        decreases pieces.len() - i,
    {
        let piece = &pieces[i];
        assert(pv.take(i + 1).drop_last() =~= pv.take(i as int));
        assert(pv.take(i + 1).last() == piece@);
        let ghost before = acc.deep_view();
        let up = chars_eq(piece, "..");
        let dot = chars_eq(piece, ".");
        proof {
            reveal_strlit("..");
            reveal_strlit(".");
            assert(up == (piece@ == seq!['.', '.'])) by {
                if piece@ == seq!['.', '.'] {
                    assert(piece@ =~= ".."@);
                }
                if up {
                    assert(piece@ =~= seq!['.', '.']);
                }
            }
            assert(dot == (piece@ == seq!['.'])) by {
                if piece@ == seq!['.'] {
                    assert(piece@ =~= "."@);
                }
                if dot {
                    assert(piece@ =~= seq!['.']);
                }
            }
        }
        let at_root = acc.len() > 0 && is_root_piece(&acc[acc.len() - 1]);
        proof {
            if acc.len() > 0 {
                assert(before.last() == acc@[acc.len() - 1]@);
            }
        }
        if up {
            if acc.len() > 0 && !at_root {
                acc.pop();
                assert(acc.deep_view() =~= before.drop_last());
            }
        } else if piece.len() > 0 && !dot {
            let copy = slice_chars(piece, 0, piece.len());
            assert(copy@ =~= piece@);
            assert(copy.deep_view() =~= copy@);
            acc.push(copy);
            assert(acc.deep_view() =~= before.push(piece@));
        }
        i = i + 1;
    }
    assert(pv.take(pieces.len() as int) =~= pv);
    acc
}

/// Resolves `relative` against the directory `base`: `..` takes away the last
/// component reached so far (nothing when there is none but the root), every
/// other component is appended, and empty pieces and `.` are passed over. The
/// result is written with `/` between components, and starts with `/` when
/// `base` does.
pub fn resolve_relative_path(base: &str, relative: &str) -> (r: String)
    ensures
        r@ == resolved_relative(base@, relative@),
{
    let bv = chars_of(base);
    let start = components_of(&bv);
    let rv = chars_of(relative);
    let pieces = split_chars(&rv, '/');
    let reached = walk_pieces(start, &pieces);
    let joined = render_components(reached);
    string_of(&joined)
}

/// The directory of `path` (see `parent_dir`): its components but the last,
/// or the empty path when it has no parent.
pub fn parent_path(path: &str) -> (r: String)
    ensures
        r@ == parent_dir(path@),
{
    let v = chars_of(path);
    let mut c = components_of(&v);
    let ghost all = c.deep_view();
    if c.len() == 0 || (c.len() == 1 && is_root_piece(&c[0])) {
        proof {
            if c.len() == 1 {
                assert(all[0] == c@[0]@);
                assert(all =~= seq![root_component()]);
            }
        }
        return String::new();
    }
    proof {
        if c.len() == 1 {
            assert(all[0] == c@[0]@);
        }
        assert(all.len() == c.len());
        if all == seq![root_component()] {
            assert(all[0] == root_component());
        }
    }
    assert(all != seq![root_component()]);
    c.pop();
    assert(c.deep_view() =~= all.drop_last());
    let joined = render_components(c);
    string_of(&joined)
}

/// Whether the characters of `v` end with those of `suffix`.
fn chars_end_with(v: &Vec<char>, suffix: &Vec<char>) -> (b: bool)
    ensures
        b == ends_with(v@, suffix@),
{
    if suffix.len() > v.len() {
        return false;
    }
    let at = v.len() - suffix.len();
    let r = occurs_at(v, suffix, at);
    assert(v@.subrange(at as int, at + suffix.len()) =~= v@.skip(at as int));
    r
}

/// Appends to `out`, in order, the resolved paths of the external tilesets and
/// templates whose values follow `pat` in `xml`.
fn collect_refs(xml: &Vec<char>, pat: &Vec<char>, base: &str, out: &mut Vec<String>)
    requires
        pat.len() > 0,
    ensures
        string_seq(final(out)@) == string_seq(old(out)@) + external_only(quoted_values(xml@, pat@, 0), base@),
{
    let ghost total = quoted_values(xml@, pat@, 0);
    let ghost first = string_seq(out@);
    let ghost mut seen: Seq<Seq<char>> = Seq::empty();
    let quote = vec!['"'];
    assert(quote@ =~= seq!['"']);
    let tsx = vec!['.', 't', 's', 'x'];
    let tx = vec!['.', 't', 'x'];
    assert(tsx@ =~= seq!['.', 't', 's', 'x']);
    assert(tx@ =~= seq!['.', 't', 'x']);
    let mut pos: usize = 0;
    assert(seen + quoted_values(xml@, pat@, 0) =~= total);
    loop
        invariant
            pos <= xml.len(),
            pat.len() > 0,
            quote@ == seq!['"'],
            tsx@ == seq!['.', 't', 's', 'x'],
            tx@ == seq!['.', 't', 'x'],
            total == quoted_values(xml@, pat@, 0),
            seen + quoted_values(xml@, pat@, pos as int) == total,
            string_seq(out@) == first + external_only(seen, base@),
        ensures
            string_seq(out@) == first + external_only(total, base@),
        decreases xml.len() - pos,
    {
        let start = match find_chars_from(xml, pat, pos) {
            Some(s) => s,
            None => {
                assert(quoted_values(xml@, pat@, pos as int) =~= Seq::<Seq<char>>::empty());
                assert(seen =~= total);
                break;
            },
        };
        proof {
            lemma_find_from(xml@, pat@, pos as int);
        }
        let vs = start + pat.len();
        let end = match find_chars_from(xml, &quote, vs) {
            Some(e) => e,
            None => {
                assert(quoted_values(xml@, pat@, pos as int) =~= Seq::<Seq<char>>::empty());
                assert(seen =~= total);
                break;
            },
        };
        proof {
            lemma_find_from(xml@, quote@, vs as int);
        }
        let value = slice_chars(xml, vs, end);
        let ghost rest = quoted_values(xml@, pat@, end as int);
        assert(quoted_values(xml@, pat@, pos as int) == seq![value@] + rest);
        let ghost before = seen;
        proof {
            seen = seen.push(value@);
            assert(seen + rest =~= before + (seq![value@] + rest));
            assert(seen.drop_last() =~= before);
        }
        if chars_end_with(&value, &tsx) || chars_end_with(&value, &tx) {
            let resolved = resolve_relative_path(base, string_of(&value).as_str());
            let ghost prev = out@;
            out.push(resolved);
            assert(string_seq(out@) =~= string_seq(prev).push(resolved@));
            assert(string_seq(out@) =~= first + external_only(seen, base@));
        } else {
            assert(external_only(seen, base@) == external_only(before, base@));
        }
        pos = end;
    }
}

/// The external tilesets (`.tsx`) and object templates (`.tx`) that the text
/// of a Tiled file names in `source="..."` and `template="..."` attributes,
/// each resolved against the directory `base_dir` (see `external_refs`).
pub fn extract_external_paths(xml: &str, base_dir: &str) -> (r: Vec<String>)
    ensures
        string_seq(r@) == external_refs(xml@, base_dir@),
{
    let text = chars_of(xml);
    let source = vec!['s', 'o', 'u', 'r', 'c', 'e', '=', '"'];
    let template = vec!['t', 'e', 'm', 'p', 'l', 'a', 't', 'e', '=', '"'];
    assert(source@ =~= source_pattern());
    assert(template@ =~= template_pattern());
    let mut out: Vec<String> = Vec::new();
    assert(string_seq(out@) =~= Seq::<Seq<char>>::empty());
    collect_refs(&text, &source, base_dir, &mut out);
    collect_refs(&text, &template, base_dir, &mut out);
    assert(string_seq(out@) =~= external_refs(xml@, base_dir@));
    out
}

/// What `String::from_utf8_lossy` makes of `bytes`.
pub uninterp spec fn lossy_text(bytes: Seq<u8>) -> Seq<char>;

/// `String::from_utf8_lossy`, taken as an owned string. The contract claims
/// what `std` documents: valid UTF-8 is decoded as it stands; for other input
/// only the name `lossy_text` is given (invalid sequences become U+FFFD).
#[verifier::external_body]
fn text_of_bytes(bytes: &[u8]) -> (s: String)
    ensures
        s@ == lossy_text(bytes@),
        valid_utf8(bytes@) ==> s@ == decode_utf8(bytes@),
{
    String::from_utf8_lossy(bytes).into_owned()
}

/// A resource read ahead of parsing: its path and its bytes.
pub struct CachedResource {
    pub path: String,
    pub bytes: Vec<u8>,
}

/// The key of a path in the cache: its components, so that paths that
/// `Path` holds equal (such as `a/./b` and `a//b/` and `a/b`) find the same entry.
pub open spec fn path_key(p: Seq<char>) -> Seq<Seq<char>> {
    path_components(p)
}

/// The resources read ahead of parsing, taken by the key of their path. A
/// later entry for a key stands in for an earlier one.
pub open spec fn cache_map(entries: Seq<CachedResource>) -> Map<Seq<Seq<char>>, Seq<u8>>
    decreases entries.len(),
{
    if entries.len() == 0 {
        Map::empty()
    } else {
        cache_map(entries.drop_last()).insert(path_key(entries.last().path@), entries.last().bytes@)
    }
}

/// Whether two components are equal.
fn piece_eq(x: &Vec<char>, y: &Vec<char>) -> (r: bool)
    ensures
        r == (x@ == y@),
{
    if x.len() != y.len() {
        return false;
    }
    let mut k: usize = 0;
    while k < x.len()
        invariant
            k <= x.len() == y.len(),
            forall|m: int| 0 <= m < k ==> x@[m] == y@[m],
        decreases x.len() - k,
    {
        if x[k] != y[k] {
            return false;
        }
        k = k + 1;
    }
    assert(x@ =~= y@);
    true
}

/// Whether two sequences of components are equal.
fn components_eq(a: &Vec<Vec<char>>, b: &Vec<Vec<char>>) -> (r: bool)
    ensures
        r == (a.deep_view() == b.deep_view()),
{
    if a.len() != b.len() {
        assert(a.deep_view().len() != b.deep_view().len());
        return false;
    }
    let mut i: usize = 0;
    while i < a.len()
        invariant
            i <= a.len() == b.len(),
            forall|k: int| 0 <= k < i ==> a.deep_view()[k] == b.deep_view()[k],
        decreases a.len() - i,
    {
        let same = piece_eq(&a[i], &b[i]);
        assert(a.deep_view()[i as int] =~= a@[i as int]@);
        assert(b.deep_view()[i as int] =~= b@[i as int]@);
        if !same {
            return false;
        }
        i = i + 1;
    }
    assert(a.deep_view() =~= b.deep_view());
    true
}

/// The resources read ahead of parsing, by path.
pub struct ResourceCache {
    entries: Vec<CachedResource>,
}

impl View for ResourceCache {
    type V = Map<Seq<Seq<char>>, Seq<u8>>;

    closed spec fn view(&self) -> Map<Seq<Seq<char>>, Seq<u8>> {
        cache_map(self.entries@)
    }
}

/// Whether a path names a resource that is served from the cache: its
/// extension is exactly `tsx` or `tx`.
pub open spec fn is_preloaded_kind(path: Seq<char>) -> bool {
    match file_name(path) {
        Some(n) => name_extension(n) == Some(seq!['t', 's', 'x']) || name_extension(n) == Some(
            seq!['t', 'x'],
        ),
        None => false,
    }
}

/// What a parser is served for `path`: a tileset or template from the cache
/// (found by the key of its path), or the message that it was not read ahead;
/// anything else is the main file.
pub open spec fn served(cache: Map<Seq<Seq<char>>, Seq<u8>>, main: Seq<u8>, path: Seq<char>) -> Result<Seq<u8>, Seq<char>> {
    if is_preloaded_kind(path) {
        if cache.contains_key(path_key(path)) {
            Ok(cache[path_key(path)])
        } else {
            Err("Resource not pre-loaded: "@ + path)
        }
    } else {
        Ok(main)
    }
}

impl ResourceCache {
    /// An empty cache.
    pub fn new() -> (c: ResourceCache)
        ensures
            c@ == Map::<Seq<Seq<char>>, Seq<u8>>::empty(),
    {
        ResourceCache { entries: Vec::new() }
    }

    /// The bytes cached for `path`, found by the key of its path, if any.
    pub fn get(&self, path: &str) -> (r: Option<&Vec<u8>>)
        ensures
            match r {
                Some(b) => self@.contains_key(path_key(path@)) && self@[path_key(path@)] == b@,
                None => !self@.contains_key(path_key(path@)),
            },
    {
        let key = components_of(&chars_of(path));
        let ghost k = path_key(path@);
        let mut j: usize = self.entries.len();
        let ghost all = self.entries@;
        assert(all.take(j as int) =~= all);
        while j > 0
            invariant
                j <= self.entries.len(),
                all == self.entries@,
                k == path_key(path@),
                key.deep_view() == k,
                cache_map(all).contains_key(k) == cache_map(all.take(j as int)).contains_key(k),
                cache_map(all.take(j as int)).contains_key(k) ==> cache_map(all)[k] == cache_map(
                    all.take(j as int),
                )[k],
            decreases j,
        {
            let e = &self.entries[j - 1];
            assert(all.take(j as int).drop_last() =~= all.take(j - 1));
            assert(all.take(j as int).last() == *e);
            let ek = components_of(&chars_of(e.path.as_str()));
            assert(cache_map(all.take(j as int)) == cache_map(all.take(j - 1)).insert(
                path_key(e.path@),
                e.bytes@,
            ));
            if components_eq(&ek, &key) {
                assert(path_key(e.path@) == k);
                return Some(&e.bytes);
            }
            j = j - 1;
        }
        assert(all.take(0) =~= Seq::<CachedResource>::empty());
        None
    }

    /// Whether `path` is cached, by the key of its path.
    pub fn contains(&self, path: &str) -> (b: bool)
        ensures
            b == self@.contains_key(path_key(path@)),
    {
        self.get(path).is_some()
    }

    /// Caches `bytes` for `path`, in place of what was cached for its key.
    pub fn insert(&mut self, path: String, bytes: Vec<u8>)
        ensures
            final(self)@ == old(self)@.insert(path_key(path@), bytes@),
    {
        let ghost before = self.entries@;
        self.entries.push(CachedResource { path, bytes });
        assert(self.entries@.drop_last() =~= before);
    }

    /// What a parser is served for `path` (see `served`): a tileset or template
    /// from the cache, anything else from the main file's bytes `main`.
    pub fn read_from(&self, main: &Vec<u8>, path: &str) -> (r: Result<Vec<u8>, String>)
        ensures
            match r {
                Ok(b) => served(self@, main@, path@) == Ok::<Seq<u8>, Seq<char>>(b@),
                Err(m) => served(self@, main@, path@) == Err::<Seq<u8>, Seq<char>>(m@),
            },
    {
        let v = chars_of(path);
        let cached_kind = match file_name_chars(&v) {
            Some(n) => match name_extension_chars(&n) {
                Some(e) => {
                    let tsx = chars_eq(&e, "tsx");
                    let tx = chars_eq(&e, "tx");
                    proof {
                        reveal_strlit("tsx");
                        reveal_strlit("tx");
                        assert(tsx == (e@ == seq!['t', 's', 'x'])) by {
                            if e@ == seq!['t', 's', 'x'] {
                                assert(e@ =~= "tsx"@);
                            }
                            if tsx {
                                assert(e@ =~= seq!['t', 's', 'x']);
                            }
                        }
                        assert(tx == (e@ == seq!['t', 'x'])) by {
                            if e@ == seq!['t', 'x'] {
                                assert(e@ =~= "tx"@);
                            }
                            if tx {
                                assert(e@ =~= seq!['t', 'x']);
                            }
                        }
                    }
                    tsx || tx
                },
                None => false,
            },
            None => false,
        };
        if cached_kind {
            match self.get(path) {
                Some(b) => Ok(copy_bytes(b)),
                None => {
                    let mut m = String::from_str("Resource not pre-loaded: ");
                    m.append(path);
                    Err(m)
                },
            }
        } else {
            Ok(copy_bytes(main))
        }
    }
}

/// The paths among `refs` that `cache` does not hold, in order.
pub open spec fn uncached(refs: Seq<Seq<char>>, cache: Map<Seq<Seq<char>>, Seq<u8>>) -> Seq<Seq<char>>
    decreases refs.len(),
{
    if refs.len() == 0 {
        refs
    } else if cache.contains_key(path_key(refs.last())) {
        uncached(refs.drop_last(), cache)
    } else {
        uncached(refs.drop_last(), cache).push(refs.last())
    }
}

/// The queue left and the path to read next: paths are taken from the back of
/// the queue, those already cached are passed over, and there is none to read
/// when the queue runs out.
pub open spec fn next_uncached(queue: Seq<Seq<char>>, cache: Map<Seq<Seq<char>>, Seq<u8>>) -> (Seq<Seq<char>>, Option<Seq<char>>)
    decreases queue.len(),
{
    if queue.len() == 0 {
        (queue, None)
    } else if cache.contains_key(path_key(queue.last())) {
        next_uncached(queue.drop_last(), cache)
    } else {
        (queue.drop_last(), Some(queue.last()))
    }
}

/// Reads ahead, one at a time, the tilesets and templates that a Tiled file
/// names, and those that they name in turn. The caller performs each read
/// that `next_request` asks for and hands back its bytes with `deliver`; a
/// failed read is simply not delivered.
pub struct Preloader {
    queue: Vec<String>,
    cache: ResourceCache,
}

impl Preloader {
    /// The paths still to consider, the next one last.
    pub closed spec fn pending(&self) -> Seq<Seq<char>> {
        string_seq(self.queue@)
    }

    /// The resources read so far, by path.
    pub closed spec fn loaded(&self) -> Map<Seq<Seq<char>>, Seq<u8>> {
        self.cache@
    }

    /// Starts from the bytes of the Tiled file at `asset_path`: the paths to
    /// read are those its text names, resolved against its directory.
    pub fn new(bytes: &[u8], asset_path: &str) -> (p: Preloader)
        ensures
            p.pending() == external_refs(lossy_text(bytes@), parent_dir(asset_path@)),
            p.loaded() == Map::<Seq<Seq<char>>, Seq<u8>>::empty(),
    {
        let text = text_of_bytes(bytes);
        let base = parent_path(asset_path);
        let queue = extract_external_paths(text.as_str(), base.as_str());
        Preloader { queue, cache: ResourceCache::new() }
    }

    /// The next path to read, if any (see `next_uncached`).
    pub fn next_request(&mut self) -> (r: Option<String>)
        ensures
            final(self).loaded() == old(self).loaded(),
            final(self).pending() == next_uncached(old(self).pending(), old(self).loaded()).0,
            match r {
                Some(p) => next_uncached(old(self).pending(), old(self).loaded()).1 == Some(p@),
                None => next_uncached(old(self).pending(), old(self).loaded()).1 is None,
            },
    {
        loop
            invariant
                self.loaded() == old(self).loaded(),
                next_uncached(self.pending(), self.loaded()) == next_uncached(old(self).pending(), old(self).loaded()),
            decreases self.queue.len(),
        {
            let ghost q = self.pending();
            match self.queue.pop() {
                None => {
                    assert(q.len() == 0);
                    return None;
                },
                Some(p) => {
                    assert(q.last() == p@);
                    assert(self.pending() =~= q.drop_last());
                    if !self.cache.contains(p.as_str()) {
                        return Some(p);
                    }
                },
            }
        }
    }

    /// Takes in the bytes read for `path`: they are cached for it, and the
    /// tilesets and templates their text names, resolved against the
    /// directory of `path`, join the queue unless already cached.
    pub fn deliver(&mut self, path: String, bytes: Vec<u8>)
        ensures
            final(self).pending() == old(self).pending() + uncached(
                external_refs(lossy_text(bytes@), parent_dir(path@)),
                old(self).loaded(),
            ),
            final(self).loaded() == old(self).loaded().insert(path_key(path@), bytes@),
    {
        let text = text_of_bytes(bytes.as_slice());
        let dir = parent_path(path.as_str());
        let nested = extract_external_paths(text.as_str(), dir.as_str());
        let ghost refs = string_seq(nested@);
        let ghost start = self.pending();
        let mut i: usize = 0;
        while i < nested.len()
            invariant
                i <= nested.len(),
                refs == string_seq(nested@),
                self.loaded() == old(self).loaded(),
                self.pending() == start + uncached(refs.take(i as int), old(self).loaded()),
            decreases nested.len() - i,
        {
            let np = &nested[i];
            assert(refs.take(i + 1).drop_last() =~= refs.take(i as int));
            assert(refs.take(i + 1).last() == np@);
            if !self.cache.contains(np.as_str()) {
                let ghost before = self.pending();
                self.queue.push(np.clone());
                assert(self.pending() =~= before.push(np@));
            }
            i = i + 1;
        }
        assert(refs.take(nested.len() as int) =~= refs);
        self.cache.insert(path, bytes);
    }

    /// The resources read, once no request is left.
    pub fn into_cache(self) -> (c: ResourceCache)
        ensures
            c@ == self.loaded(),
    {
        self.cache
    }
}

/// A resource that was delivered is what the parser is served for its path,
/// and for every path with the same components, when that path names a
/// tileset or template.
pub proof fn lemma_delivered_resource_is_served(
    loaded: Map<Seq<Seq<char>>, Seq<u8>>,
    main: Seq<u8>,
    path: Seq<char>,
    asked: Seq<char>,
    bytes: Seq<u8>,
)
    requires
        is_preloaded_kind(asked),
        path_key(asked) == path_key(path),
    ensures
        served(loaded.insert(path_key(path), bytes), main, asked) == Ok::<Seq<u8>, Seq<char>>(bytes),
{
}

/// A path that has already been read is never asked for again.
pub proof fn lemma_cached_path_not_requested(queue: Seq<Seq<char>>, cache: Map<Seq<Seq<char>>, Seq<u8>>)
    ensures
        next_uncached(queue, cache).1 matches Some(p) ==> !cache.contains_key(path_key(p)),
        next_uncached(queue, cache).0.len() < queue.len() || queue.len() == 0,
    decreases queue.len(),
{
    if queue.len() > 0 && cache.contains_key(path_key(queue.last())) {
        lemma_cached_path_not_requested(queue.drop_last(), cache);
    }
}

/// The tilesets and templates that the bytes of a file name, resolved against
/// the directory of the file whose path has components `key`.
pub open spec fn refs_of_key(key: Seq<Seq<char>>, bytes: Seq<u8>) -> Seq<Seq<char>> {
    external_refs(lossy_text(bytes), parent_of_components(key))
}

/// The tilesets and templates that the bytes of the file at `path` name,
/// resolved against its directory.
pub open spec fn refs_of(path: Seq<char>, bytes: Seq<u8>) -> Seq<Seq<char>> {
    refs_of_key(path_key(path), bytes)
}

/// Whether a path is taken care of: read, still queued, being read, or
/// failed to read.
pub open spec fn covered(
    loaded: Map<Seq<Seq<char>>, Seq<u8>>,
    pending: Seq<Seq<char>>,
    in_flight: Option<Seq<char>>,
    failed: Set<Seq<char>>,
    x: Seq<char>,
) -> bool {
    loaded.contains_key(path_key(x)) || pending.contains(x) || in_flight == Some(x) || failed.contains(x)
}

/// Read-ahead in order: every path that the main file (`main_refs`) or a
/// file read so far names is read, queued, being read or failed to read.
pub open spec fn preload_closed(
    main_refs: Seq<Seq<char>>,
    loaded: Map<Seq<Seq<char>>, Seq<u8>>,
    pending: Seq<Seq<char>>,
    in_flight: Option<Seq<char>>,
    failed: Set<Seq<char>>,
) -> bool {
    &&& forall|i: int| 0 <= i < main_refs.len() ==> covered(loaded, pending, in_flight, failed, #[trigger] main_refs[i])
    &&& forall|k: Seq<Seq<char>>, i: int|
        #[trigger] loaded.contains_key(k) && 0 <= i < refs_of_key(k, loaded[k]).len() ==> covered(
            loaded,
            pending,
            in_flight,
            failed,
            #[trigger] refs_of_key(k, loaded[k])[i],
        )
}

/// A read-ahead starts in order: what the main file names is all queued.
pub proof fn lemma_preload_starts_closed(main_refs: Seq<Seq<char>>)
    ensures
        preload_closed(main_refs, Map::empty(), main_refs, None, Set::empty()),
{
    assert forall|i: int| 0 <= i < main_refs.len() implies covered(
        Map::empty(),
        main_refs,
        None,
        Set::empty(),
        #[trigger] main_refs[i],
    ) by {
        assert(main_refs.contains(main_refs[i]));
    }
}

proof fn lemma_next_uncached_shape(queue: Seq<Seq<char>>, cache: Map<Seq<Seq<char>>, Seq<u8>>)
    ensures
        next_uncached(queue, cache).0 == queue.take(next_uncached(queue, cache).0.len() as int),
        next_uncached(queue, cache).0.len() <= queue.len(),
        forall|k: int|
            next_uncached(queue, cache).0.len() <= k < queue.len() ==> cache.contains_key(path_key(#[trigger] queue[k]))
                || next_uncached(queue, cache).1 == Some(queue[k]),
    decreases queue.len(),
{
    if queue.len() > 0 {
        let rest = queue.drop_last();
        if cache.contains_key(path_key(queue.last())) {
            lemma_next_uncached_shape(rest, cache);
            let d = next_uncached(rest, cache).0;
            assert(rest.take(d.len() as int) =~= queue.take(d.len() as int));
            assert forall|k: int| d.len() <= k < queue.len() implies cache.contains_key(path_key(#[trigger] queue[k]))
                || next_uncached(queue, cache).1 == Some(queue[k]) by {
                if k < rest.len() {
                    assert(rest[k] == queue[k]);
                }
            }
        } else {
            assert(rest =~= queue.take(rest.len() as int));
        }
    } else {
        assert(queue.take(0) =~= queue);
    }
}

/// Asking for the next path keeps a read-ahead in order, with that path now
/// being read.
pub proof fn lemma_request_keeps_closed(
    main_refs: Seq<Seq<char>>,
    loaded: Map<Seq<Seq<char>>, Seq<u8>>,
    pending: Seq<Seq<char>>,
    failed: Set<Seq<char>>,
)
    requires
        preload_closed(main_refs, loaded, pending, None, failed),
    ensures
        preload_closed(main_refs, loaded, next_uncached(pending, loaded).0, next_uncached(pending, loaded).1, failed),
{
    lemma_next_uncached_shape(pending, loaded);
    let (rest, next) = next_uncached(pending, loaded);
    assert forall|x: Seq<char>| covered(loaded, pending, None, failed, x) implies covered(loaded, rest, next, failed, x) by {
        if pending.contains(x) && !loaded.contains_key(path_key(x)) {
            let k = choose|k: int| 0 <= k < pending.len() && pending[k] == x;
            if k < rest.len() {
                assert(rest[k] == x);
            } else {
                assert(loaded.contains_key(path_key(pending[k])) || next == Some(pending[k]));
            }
        }
    }
    assert forall|i: int| 0 <= i < main_refs.len() implies covered(loaded, rest, next, failed, #[trigger] main_refs[i]) by {
        assert(covered(loaded, pending, None, failed, main_refs[i]));
    }
    assert forall|k: Seq<Seq<char>>, i: int|
        #[trigger] loaded.contains_key(k) && 0 <= i < refs_of_key(k, loaded[k]).len() implies covered(
            loaded,
            rest,
            next,
            failed,
            #[trigger] refs_of_key(k, loaded[k])[i],
        ) by {
        assert(covered(loaded, pending, None, failed, refs_of_key(k, loaded[k])[i]));
    }
}

proof fn lemma_uncached_covers(refs: Seq<Seq<char>>, cache: Map<Seq<Seq<char>>, Seq<u8>>, i: int)
    requires
        0 <= i < refs.len(),
    ensures
        cache.contains_key(path_key(refs[i])) || uncached(refs, cache).contains(refs[i]),
    decreases refs.len(),
{
    if i < refs.len() - 1 {
        lemma_uncached_covers(refs.drop_last(), cache, i);
        assert(refs.drop_last()[i] == refs[i]);
        if !cache.contains_key(path_key(refs[i])) {
            let u = uncached(refs.drop_last(), cache);
            let k = choose|k: int| 0 <= k < u.len() && u[k] == refs[i];
            if !cache.contains_key(path_key(refs.last())) {
                assert(uncached(refs, cache)[k] == refs[i]);
            }
        }
    } else if !cache.contains_key(path_key(refs.last())) {
        let u = uncached(refs, cache);
        assert(u[u.len() - 1] == refs[i]);
    }
}

/// Delivering the path being read keeps a read-ahead in order: it is read,
/// and what it names is read or queued.
pub proof fn lemma_delivery_keeps_closed(
    main_refs: Seq<Seq<char>>,
    loaded: Map<Seq<Seq<char>>, Seq<u8>>,
    pending: Seq<Seq<char>>,
    failed: Set<Seq<char>>,
    path: Seq<char>,
    bytes: Seq<u8>,
)
    requires
        preload_closed(main_refs, loaded, pending, Some(path), failed),
        !loaded.contains_key(path_key(path)),
    ensures
        preload_closed(
            main_refs,
            loaded.insert(path_key(path), bytes),
            pending + uncached(refs_of(path, bytes), loaded),
            None,
            failed,
        ),
{
    let l2 = loaded.insert(path_key(path), bytes);
    let added = uncached(refs_of(path, bytes), loaded);
    let p2 = pending + added;
    assert forall|x: Seq<char>| covered(loaded, pending, Some(path), failed, x) implies covered(l2, p2, None, failed, x) by {
        if pending.contains(x) {
            let k = choose|k: int| 0 <= k < pending.len() && pending[k] == x;
            assert(p2[k] == x);
        }
    }
    assert forall|i: int| 0 <= i < main_refs.len() implies covered(l2, p2, None, failed, #[trigger] main_refs[i]) by {
        assert(covered(loaded, pending, Some(path), failed, main_refs[i]));
    }
    assert forall|k: Seq<Seq<char>>, i: int|
        #[trigger] l2.contains_key(k) && 0 <= i < refs_of_key(k, l2[k]).len() implies covered(
            l2,
            p2,
            None,
            failed,
            #[trigger] refs_of_key(k, l2[k])[i],
        ) by {
        if k == path_key(path) {
            let r = refs_of(path, bytes);
            assert(refs_of_key(k, l2[k]) == r);
            lemma_uncached_covers(r, loaded, i);
            if !loaded.contains_key(path_key(r[i])) {
                let m = choose|m: int| 0 <= m < added.len() && added[m] == r[i];
                assert(p2[pending.len() + m] == r[i]);
            }
        } else {
            assert(loaded.contains_key(k) && l2[k] == loaded[k]);
            assert(covered(loaded, pending, Some(path), failed, refs_of_key(k, loaded[k])[i]));
        }
    }
}

/// A read that fails keeps a read-ahead in order: the path counts as failed.
pub proof fn lemma_failure_keeps_closed(
    main_refs: Seq<Seq<char>>,
    loaded: Map<Seq<Seq<char>>, Seq<u8>>,
    pending: Seq<Seq<char>>,
    failed: Set<Seq<char>>,
    path: Seq<char>,
)
    requires
        preload_closed(main_refs, loaded, pending, Some(path), failed),
    ensures
        preload_closed(main_refs, loaded, pending, None, failed.insert(path)),
{
    let f2 = failed.insert(path);
    assert forall|x: Seq<char>| covered(loaded, pending, Some(path), failed, x) implies covered(loaded, pending, None, f2, x) by {}
    assert forall|i: int| 0 <= i < main_refs.len() implies covered(loaded, pending, None, f2, #[trigger] main_refs[i]) by {
        assert(covered(loaded, pending, Some(path), failed, main_refs[i]));
    }
    assert forall|k: Seq<Seq<char>>, i: int|
        #[trigger] loaded.contains_key(k) && 0 <= i < refs_of_key(k, loaded[k]).len() implies covered(
            loaded,
            pending,
            None,
            f2,
            #[trigger] refs_of_key(k, loaded[k])[i],
        ) by {
        assert(covered(loaded, pending, Some(path), failed, refs_of_key(k, loaded[k])[i]));
    }
}

proof fn lemma_nothing_left(queue: Seq<Seq<char>>, cache: Map<Seq<Seq<char>>, Seq<u8>>)
    ensures
        next_uncached(queue, cache).1 is None ==> next_uncached(queue, cache).0.len() == 0,
    decreases queue.len(),
{
    if queue.len() > 0 && cache.contains_key(path_key(queue.last())) {
        lemma_nothing_left(queue.drop_last(), cache);
    }
}

/// When `next_request` has nothing left to ask for, every tileset and template
/// that the main file or any file read names has been read (under the key of
/// its path) or failed to read.
pub proof fn lemma_preload_closes(
    main_refs: Seq<Seq<char>>,
    loaded: Map<Seq<Seq<char>>, Seq<u8>>,
    pending: Seq<Seq<char>>,
    failed: Set<Seq<char>>,
)
    requires
        preload_closed(main_refs, loaded, pending, None, failed),
        next_uncached(pending, loaded).1 is None,
    ensures
        forall|i: int| 0 <= i < main_refs.len() ==> loaded.contains_key(path_key(#[trigger] main_refs[i]))
            || failed.contains(main_refs[i]),
        forall|k: Seq<Seq<char>>, i: int|
            #[trigger] loaded.contains_key(k) && 0 <= i < refs_of_key(k, loaded[k]).len() ==> loaded.contains_key(
                path_key(#[trigger] refs_of_key(k, loaded[k])[i]),
            ) || failed.contains(refs_of_key(k, loaded[k])[i]),
{
    lemma_request_keeps_closed(main_refs, loaded, pending, failed);
    lemma_nothing_left(pending, loaded);
    assert(next_uncached(pending, loaded).0 =~= Seq::<Seq<char>>::empty());
    assert forall|i: int| 0 <= i < main_refs.len() implies loaded.contains_key(path_key(#[trigger] main_refs[i]))
        || failed.contains(main_refs[i]) by {
        assert(covered(loaded, Seq::empty(), None, failed, main_refs[i]));
    }
    assert forall|k: Seq<Seq<char>>, i: int|
        #[trigger] loaded.contains_key(k) && 0 <= i < refs_of_key(k, loaded[k]).len() implies loaded.contains_key(
            path_key(#[trigger] refs_of_key(k, loaded[k])[i]),
        ) || failed.contains(refs_of_key(k, loaded[k])[i]) by {
        assert(covered(loaded, Seq::empty(), None, failed, refs_of_key(k, loaded[k])[i]));
    }
}

} // verus!
