//! Relative asset paths: normalisation, resolution of references between
//! files, and the file name, stem and extension of a path.
use vstd::prelude::*;
use crate::download::{DownloadError, outcome};
use crate::text::{
    ascii_lower_chars, ascii_lower_seq, chars_eq, chars_of, contains_chars, join_chars, join_with, last_index_of, occurs_in,
    lemma_split_on_nonempty, replace_char, replace_chars, rfind_char, slice_chars, split_chars,
    split_on, string_of,
    trim, trim_chars,
};

verus! {

/// `s` with every backslash turned into a forward slash.
pub open spec fn slashed(s: Seq<char>) -> Seq<char> {
    replace_char(s, '\\', '/')
}

/// One piece of a path applied to the pieces kept so far: empty pieces and `.`
/// are skipped, `..` drops the last kept piece (and fails when none is left),
/// any other piece is kept.
pub open spec fn path_step(kept: Option<Seq<Seq<char>>>, piece: Seq<char>) -> Option<Seq<Seq<char>>> {
    match kept {
        None => None,
        Some(p) => if piece.len() == 0 || piece == seq!['.'] {
            Some(p)
        } else if piece == seq!['.', '.'] {
            if p.len() == 0 {
                None
            } else {
                Some(p.drop_last())
            }
        } else {
            Some(p.push(piece))
        },
    }
}

/// The pieces that remain once `pieces` are applied in order, or `None` when a
/// `..` would climb above the start.
pub open spec fn resolve_pieces(pieces: Seq<Seq<char>>) -> Option<Seq<Seq<char>>>
    decreases pieces.len(),
{
    if pieces.len() == 0 {
        Some(Seq::<Seq<char>>::empty())
    } else {
        path_step(resolve_pieces(pieces.drop_last()), pieces.last())
    }
}

/// What normalising `path` gives: the kept pieces joined by `/`, or the message
/// of the error when the path climbs above the asset root or names the root itself.
pub open spec fn normalized_path(path: Seq<char>) -> Result<Seq<char>, Seq<char>> {
    let shown = slashed(path);
    match resolve_pieces(split_on(shown, '/')) {
        None => Err("reference escapes asset root: '"@ + shown + "'"@),
        Some(p) => if p.len() == 0 {
            Err("path resolves to asset root: '"@ + shown + "'"@)
        } else {
            Ok(join_with(p, '/'))
        },
    }
}

proof fn lemma_resolve_none_stays(pieces: Seq<Seq<char>>, k: int)
    requires
        0 <= k <= pieces.len(),
        resolve_pieces(pieces.take(k)) is None,
    ensures
        resolve_pieces(pieces) is None,
    decreases pieces.len() - k,
{
    if k < pieces.len() {
        assert(pieces.take(k + 1).drop_last() =~= pieces.take(k));
        lemma_resolve_none_stays(pieces, k + 1);
    } else {
        assert(pieces.take(k) =~= pieces);
    }
}

/// A message made of `prefix`, the characters of `middle`, and `suffix`.
pub fn framed_message(prefix: &str, middle: &Vec<char>, suffix: &str) -> (e: DownloadError)
    ensures
        e@ == prefix@ + middle@ + suffix@,
{
    let mut s = String::from_str(prefix);
    let m = string_of(middle);
    s.append(m.as_str());
    s.append(suffix);
    DownloadError::new(s)
}

/// Normalises a relative asset path: backslashes become slashes, empty pieces
/// and `.` are dropped, `..` removes the previous piece. Fails when the path
/// climbs above the asset root or resolves to the root itself.
pub fn normalize_relative_path(path: &str) -> (r: Result<String, DownloadError>)
    ensures
        outcome(r) == normalized_path(path@),
{
    let raw = chars_of(path);
    let shown = replace_chars(&raw, '\\', '/');
    let pieces = split_chars(&shown, '/');
    let ghost pv = pieces.deep_view();
    let mut parts: Vec<Vec<char>> = Vec::new();
    let mut i: usize = 0;
    while i < pieces.len()
        invariant
            i <= pieces.len(),
            pv == pieces.deep_view(),
            shown@ == slashed(path@),
            pv == split_on(shown@, '/'),
            resolve_pieces(pv.take(i as int)) == Some(parts.deep_view()),
        decreases pieces.len() - i,
    {
        let piece = &pieces[i];
        let ghost before = parts.deep_view();
        proof {
            assert(pv.take(i + 1).drop_last() =~= pv.take(i as int));
            assert(pv.take(i + 1).last() == piece@);
        }
        if piece.len() == 0 || chars_eq(piece, ".") {
            proof {
                reveal_strlit(".");
                assert(piece@.len() == 0 || piece@ =~= seq!['.']);
                assert(path_step(Some(before), piece@) == Some(before));
            }
        } else if chars_eq(piece, "..") {
            proof {
                reveal_strlit("..");
                assert(piece@ =~= seq!['.', '.']);
                assert(piece@ != seq!['.']);
            }
            if parts.len() == 0 {
                proof {
                    assert(resolve_pieces(pv.take(i + 1)) is None);
                    lemma_resolve_none_stays(pv, i + 1);
                    assert(shown@ == slashed(path@));
                    assert(normalized_path(path@) == Err::<Seq<char>, Seq<char>>(
                        "reference escapes asset root: '"@ + shown@ + "'"@,
                    ));
                }
                return Err(framed_message("reference escapes asset root: '", &shown, "'"));
            }
            parts.pop();
            assert(parts.deep_view() =~= before.drop_last());
        } else {
            proof {
                reveal_strlit(".");
                reveal_strlit("..");
                assert(piece@.len() != 0);
                assert(piece@ != seq!['.']) by {
                    if piece@ == seq!['.'] {
                        assert(piece@ =~= "."@);
                    }
                }
                assert(piece@ != seq!['.', '.']) by {
                    if piece@ == seq!['.', '.'] {
                        assert(piece@ =~= ".."@);
                    }
                }
            }
            let kept = slice_chars(piece, 0, piece.len());
            assert(kept@ =~= piece@);
            assert(kept.deep_view() =~= kept@);
            parts.push(kept);
            assert(parts.deep_view() =~= before.push(piece@));
        }
        i = i + 1;
    }
    assert(pv.take(pieces.len() as int) =~= pv);
    if parts.len() == 0 {
        return Err(framed_message("path resolves to asset root: '", &shown, "'"));
    }
    let joined = join_chars(&parts, '/');
    Ok(string_of(&joined))
}

/// The path that `reference` names when it stands inside the file `base`: the
/// directory part of `base` (up to its last `/`), a `/`, then `reference`; or
/// `reference` alone when `base` has no directory part.
pub open spec fn joined_reference(base: Seq<char>, reference: Seq<char>) -> Seq<char> {
    let k = last_index_of(base, '/');
    if k > 0 {
        base.take(k).push('/') + reference
    } else {
        reference
    }
}

/// What resolving `reference` found inside the file `base` gives: the trimmed
/// reference must be non-empty, hold no `://` and not start with `/`; it is then
/// joined to the directory of `base` and normalised.
pub open spec fn resolved_reference(base: Seq<char>, reference: Seq<char>) -> Result<Seq<char>, Seq<char>> {
    let r = trim(reference);
    if r.len() == 0 {
        Err("empty reference found inside '"@ + base + "'"@)
    } else if occurs_in(r, "://"@) {
        Err("external URL references are not supported: '"@ + r + "'"@)
    } else if r[0] == '/' {
        Err("absolute references are not supported: '"@ + r + "'"@)
    } else {
        normalized_path(joined_reference(base, r))
    }
}

/// Resolves a reference found inside the asset file `base_file` to a normalised
/// path relative to the asset root.
pub fn resolve_reference_path(base_file: &str, reference: &str) -> (r: Result<String, DownloadError>)
    ensures
        outcome(r) == resolved_reference(base_file@, reference@),
{
    let raw = chars_of(reference);
    let refc = trim_chars(&raw);
    let base = chars_of(base_file);
    if refc.len() == 0 {
        return Err(framed_message("empty reference found inside '", &base, "'"));
    }
    let scheme = chars_of("://");
    if contains_chars(&refc, &scheme) {
        return Err(framed_message("external URL references are not supported: '", &refc, "'"));
    }
    if refc[0] == '/' {
        return Err(framed_message("absolute references are not supported: '", &refc, "'"));
    }
    let joined = match rfind_char(&base, '/') {
        Some(k) => {
            if k > 0 {
                let mut j = slice_chars(&base, 0, k);
                j.push('/');
                let mut t: usize = 0;
                let ghost head = j@;
                while t < refc.len()
                    invariant
                        t <= refc.len(),
                        j@ == head + refc@.take(t as int),
                    decreases refc.len() - t,
                {
                    j.push(refc[t]);
                    t = t + 1;
                    assert(j@ =~= head + refc@.take(t as int));
                }
                assert(refc@.take(refc.len() as int) =~= refc@);
                j
            } else {
                refc
            }
        },
        None => refc,
    };
    let joined_text = string_of(&joined);
    normalize_relative_path(joined_text.as_str())
}

/// `c` does not occur in `s`.
pub open spec fn lacks(s: Seq<char>, c: char) -> bool {
    forall|k: int| 0 <= k < s.len() ==> s[k] != c
}

/// A piece that normalisation keeps as it is: non-empty, neither `.` nor `..`,
/// and free of both kinds of slash.
pub open spec fn plain_piece(p: Seq<char>) -> bool {
    &&& p.len() > 0
    &&& p != seq!['.']
    &&& p != seq!['.', '.']
    &&& lacks(p, '/')
    &&& lacks(p, '\\')
}

/// A clean relative path: no backslash, and every `/`-separated piece plain.
pub open spec fn clean_path(q: Seq<char>) -> bool {
    &&& lacks(q, '\\')
    &&& forall|i: int| 0 <= i < split_on(q, '/').len() ==> plain_piece(#[trigger] split_on(q, '/')[i])
}

proof fn lemma_split_pieces_lack_sep(s: Seq<char>, sep: char)
    ensures
        forall|i: int| 0 <= i < split_on(s, sep).len() ==> lacks(#[trigger] split_on(s, sep)[i], sep),
    decreases s.len(),
{
    lemma_split_on_nonempty(s, sep);
    if s.len() > 0 {
        lemma_split_pieces_lack_sep(s.drop_last(), sep);
        lemma_split_on_nonempty(s.drop_last(), sep);
        let init = split_on(s.drop_last(), sep);
        if s.last() != sep {
            let lastp = init.last().push(s.last());
            assert(lacks(init.last(), sep));
            assert(lacks(lastp, sep));
        }
    }
}

proof fn lemma_split_pieces_lack(s: Seq<char>, sep: char, c: char)
    requires
        lacks(s, c),
    ensures
        forall|i: int| 0 <= i < split_on(s, sep).len() ==> lacks(#[trigger] split_on(s, sep)[i], c),
    decreases s.len(),
{
    lemma_split_on_nonempty(s, sep);
    if s.len() > 0 {
        lemma_split_pieces_lack(s.drop_last(), sep, c);
        lemma_split_on_nonempty(s.drop_last(), sep);
        let init = split_on(s.drop_last(), sep);
        if s.last() != sep {
            assert(lacks(init.last(), c));
            assert(s.last() == s[s.len() - 1]);
            assert(lacks(init.last().push(s.last()), c));
        }
    }
}

proof fn lemma_split_single(x: Seq<char>, sep: char)
    requires
        lacks(x, sep),
    ensures
        split_on(x, sep) == seq![x],
    decreases x.len(),
{
    if x.len() > 0 {
        lemma_split_single(x.drop_last(), sep);
        assert(x.drop_last().push(x.last()) =~= x);
        assert(split_on(x, sep) =~= seq![x]);
    } else {
        assert(x =~= Seq::<char>::empty());
    }
}

proof fn lemma_split_after_sep(a: Seq<char>, b: Seq<char>, sep: char)
    requires
        lacks(b, sep),
    ensures
        split_on(a.push(sep) + b, sep) == split_on(a, sep).push(b),
    decreases b.len(),
{
    let whole = a.push(sep) + b;
    if b.len() == 0 {
        assert(whole =~= a.push(sep));
        assert(whole.drop_last() =~= a);
        assert(b =~= Seq::<char>::empty());
    } else {
        let bi = b.drop_last();
        lemma_split_after_sep(a, bi, sep);
        assert(whole.drop_last() =~= a.push(sep) + bi);
        assert(whole.last() == b.last());
        assert(b.last() == b[b.len() - 1]);
        assert(bi.push(b.last()) =~= b);
        assert(split_on(whole, sep) =~= split_on(a, sep).push(b));
    }
}

proof fn lemma_split_join(parts: Seq<Seq<char>>, sep: char)
    requires
        parts.len() >= 1,
        forall|i: int| 0 <= i < parts.len() ==> lacks(#[trigger] parts[i], sep),
    ensures
        split_on(join_with(parts, sep), sep) == parts,
    decreases parts.len(),
{
    if parts.len() == 1 {
        lemma_split_single(parts[0], sep);
        assert(parts =~= seq![parts[0]]);
    } else {
        let init = parts.drop_last();
        assert forall|i: int| 0 <= i < init.len() implies lacks(#[trigger] init[i], sep) by {
            assert(init[i] == parts[i]);
        }
        lemma_split_join(init, sep);
        assert(lacks(parts.last(), sep));
        lemma_split_after_sep(join_with(init, sep), parts.last(), sep);
        assert(init.push(parts.last()) =~= parts);
    }
}

proof fn lemma_join_lacks(parts: Seq<Seq<char>>, sep: char, c: char)
    requires
        sep != c,
        forall|i: int| 0 <= i < parts.len() ==> lacks(#[trigger] parts[i], c),
    ensures
        lacks(join_with(parts, sep), c),
    decreases parts.len(),
{
    if parts.len() > 1 {
        let init = parts.drop_last();
        assert forall|i: int| 0 <= i < init.len() implies lacks(#[trigger] init[i], c) by {
            assert(init[i] == parts[i]);
        }
        lemma_join_lacks(init, sep, c);
        assert(lacks(parts.last(), c));
        let j = join_with(init, sep).push(sep) + parts.last();
        assert forall|k: int| 0 <= k < j.len() implies j[k] != c by {
            if k >= join_with(init, sep).len() + 1 {
                assert(j[k] == parts.last()[k - join_with(init, sep).len() - 1]);
            }
        }
    } else if parts.len() == 1 {
        assert(lacks(parts[0], c));
    }
}

proof fn lemma_resolve_keeps_plain(pieces: Seq<Seq<char>>)
    requires
        forall|i: int| 0 <= i < pieces.len() ==> lacks(#[trigger] pieces[i], '/') && lacks(pieces[i], '\\'),
    ensures
        resolve_pieces(pieces) matches Some(p) ==> forall|i: int| 0 <= i < p.len() ==> plain_piece(#[trigger] p[i]),
    decreases pieces.len(),
{
    if pieces.len() > 0 {
        let init = pieces.drop_last();
        assert forall|i: int| 0 <= i < init.len() implies lacks(#[trigger] init[i], '/') && lacks(init[i], '\\') by {
            assert(init[i] == pieces[i]);
        }
        lemma_resolve_keeps_plain(init);
        assert(lacks(pieces.last(), '/') && lacks(pieces.last(), '\\'));
    }
}

proof fn lemma_resolve_plain_is_identity(parts: Seq<Seq<char>>)
    requires
        forall|i: int| 0 <= i < parts.len() ==> plain_piece(#[trigger] parts[i]),
    ensures
        resolve_pieces(parts) == Some(parts),
    decreases parts.len(),
{
    if parts.len() > 0 {
        let init = parts.drop_last();
        assert forall|i: int| 0 <= i < init.len() implies plain_piece(#[trigger] init[i]) by {
            assert(init[i] == parts[i]);
        }
        lemma_resolve_plain_is_identity(init);
        assert(plain_piece(parts.last()));
        assert(init.push(parts.last()) =~= parts);
    }
}

proof fn lemma_slashed_lacks_backslash(s: Seq<char>)
    ensures
        lacks(slashed(s), '\\'),
{
}

proof fn lemma_slashed_identity(s: Seq<char>)
    requires
        lacks(s, '\\'),
    ensures
        slashed(s) == s,
{
    assert(slashed(s) =~= s);
}

/// Every path that normalisation returns is clean: free of backslashes, and
/// made only of non-empty pieces other than `.` and `..`.
pub proof fn lemma_normalized_path_is_clean(path: Seq<char>)
    requires
        normalized_path(path) is Ok,
    ensures
        clean_path(normalized_path(path)->Ok_0),
{
    let shown = slashed(path);
    let pieces = split_on(shown, '/');
    lemma_slashed_lacks_backslash(path);
    lemma_split_pieces_lack_sep(shown, '/');
    lemma_split_pieces_lack(shown, '/', '\\');
    lemma_resolve_keeps_plain(pieces);
    let p = resolve_pieces(pieces)->Some_0;
    let q = join_with(p, '/');
    assert forall|i: int| 0 <= i < p.len() implies lacks(#[trigger] p[i], '\\') by {
        assert(plain_piece(p[i]));
    }
    lemma_join_lacks(p, '/', '\\');
    assert forall|i: int| 0 <= i < p.len() implies lacks(#[trigger] p[i], '/') by {
        assert(plain_piece(p[i]));
    }
    lemma_split_join(p, '/');
}

/// A clean path normalises to itself.
pub proof fn lemma_clean_path_is_normalized(q: Seq<char>)
    requires
        clean_path(q),
        q.len() > 0,
    ensures
        normalized_path(q) == Ok::<Seq<char>, Seq<char>>(q),
{
    lemma_slashed_identity(q);
    let pieces = split_on(q, '/');
    lemma_split_on_nonempty(q, '/');
    lemma_resolve_plain_is_identity(pieces);
    lemma_split_pieces_lack_sep(q, '/');
    lemma_join_split(q, '/');
}

proof fn lemma_join_split(s: Seq<char>, sep: char)
    ensures
        join_with(split_on(s, sep), sep) == s,
    decreases s.len(),
{
    lemma_split_on_nonempty(s, sep);
    if s.len() > 0 {
        let a = s.drop_last();
        lemma_join_split(a, sep);
        lemma_split_on_nonempty(a, sep);
        let init = split_on(a, sep);
        if s.last() == sep {
            assert(init.push(Seq::<char>::empty()).drop_last() =~= init);
            assert(join_with(init, sep).push(sep) + Seq::<char>::empty() =~= s);
        } else {
            let upd = init.update(init.len() - 1, init.last().push(s.last()));
            if init.len() == 1 {
                assert(join_with(init, sep) == init[0]);
                assert(upd[0] =~= s);
            } else {
                assert(upd.drop_last() =~= init.drop_last());
                assert(join_with(init, sep) == join_with(init.drop_last(), sep).push(sep) + init.last());
                assert(upd.last() == init.last().push(s.last()));
                assert(join_with(upd, sep) == join_with(init.drop_last(), sep).push(sep) + init.last().push(
                    s.last(),
                ));
                assert(s =~= a.push(s.last()));
                assert(join_with(upd, sep) =~= s);
            }
        }
    } else {
        assert(split_on(s, sep) == seq![Seq::<char>::empty()]);
        assert(s =~= Seq::<char>::empty());
    }
}

/// Normalising twice gives what normalising once gives: a normalised path is
/// its own normal form.
pub proof fn lemma_normalize_idempotent(path: Seq<char>)
    requires
        normalized_path(path) is Ok,
    ensures
        normalized_path(normalized_path(path)->Ok_0) == normalized_path(path),
{
    lemma_normalized_path_is_clean(path);
    let q = normalized_path(path)->Ok_0;
    let shown = slashed(path);
    let pieces = split_on(shown, '/');
    lemma_split_pieces_lack_sep(shown, '/');
    lemma_split_pieces_lack(shown, '/', '\\');
    lemma_resolve_keeps_plain(pieces);
    let p = resolve_pieces(pieces)->Some_0;
    assert forall|i: int| 0 <= i < p.len() implies lacks(#[trigger] p[i], '/') by {
        assert(plain_piece(p[i]));
    }
    lemma_split_join(p, '/');
    assert(p.len() >= 1);
    assert(q.len() > 0) by {
        assert(split_on(q, '/') == p);
        if q.len() == 0 {
            assert(split_on(q, '/') == seq![Seq::<char>::empty()]);
            assert(plain_piece(p[0]));
        }
    }
    lemma_clean_path_is_normalized(q);
}

/// A piece that `std::path::Path` counts as a component: non-empty and not `.`.
pub open spec fn is_component(p: Seq<char>) -> bool {
    p.len() > 0 && p != seq!['.']
}

/// The last component among `pieces`, if any.
pub open spec fn last_component(pieces: Seq<Seq<char>>) -> Option<Seq<char>>
    decreases pieces.len(),
{
    if pieces.len() == 0 {
        None
    } else if is_component(pieces.last()) {
        Some(pieces.last())
    } else {
        last_component(pieces.drop_last())
    }
}

/// The file name of a `/`-separated path, as `Path::file_name` gives it: the
/// last component, unless there is none or it is `..`.
pub open spec fn file_name(path: Seq<char>) -> Option<Seq<char>> {
    match last_component(split_on(path, '/')) {
        Some(c) => if c == seq!['.', '.'] {
            None
        } else {
            Some(c)
        },
        None => None,
    }
}

/// The extension of a file name: what follows its last `.`, unless the name
/// has no `.` or its only `.` is the first character.
pub open spec fn name_extension(name: Seq<char>) -> Option<Seq<char>> {
    let k = last_index_of(name, '.');
    if k <= 0 {
        None
    } else {
        Some(name.skip(k + 1))
    }
}

/// The stem of a file name: what precedes its last `.`, or the whole name when
/// it has no `.` or its only `.` is the first character.
pub open spec fn name_stem(name: Seq<char>) -> Seq<char> {
    let k = last_index_of(name, '.');
    if k <= 0 {
        name
    } else {
        name.take(k)
    }
}

/// The extension of a path, as `Path::extension` gives it.
pub open spec fn path_extension(path: Seq<char>) -> Option<Seq<char>> {
    match file_name(path) {
        Some(n) => name_extension(n),
        None => None,
    }
}

/// The file stem of a path, as `Path::file_stem` gives it.
pub open spec fn path_stem(path: Seq<char>) -> Option<Seq<char>> {
    match file_name(path) {
        Some(n) => Some(name_stem(n)),
        None => None,
    }
}

/// The file name of the path whose characters are `v`.
pub fn file_name_chars(v: &Vec<char>) -> (r: Option<Vec<char>>)
    ensures
        match r {
            Some(n) => file_name(v@) == Some(n@),
            None => file_name(v@) is None,
        },
{
    let pieces = split_chars(v, '/');
    let ghost pv = pieces.deep_view();
    let mut j: usize = pieces.len();
    assert(pv.take(j as int) =~= pv);
    while j > 0
        invariant
            j <= pieces.len(),
            pv == pieces.deep_view(),
            pv == split_on(v@, '/'),
            last_component(pv) == last_component(pv.take(j as int)),
        decreases j,
    {
        let piece = &pieces[j - 1];
        assert(pv.take(j as int).drop_last() =~= pv.take(j - 1));
        assert(pv.take(j as int).last() == piece@);
        if piece.len() > 0 && !chars_eq(piece, ".") {
            proof {
                reveal_strlit(".");
                assert(piece@ != seq!['.']) by {
                    if piece@ == seq!['.'] {
                        assert(piece@ =~= "."@);
                    }
                }
            }
            if chars_eq(piece, "..") {
                proof {
                    reveal_strlit("..");
                    assert(piece@ =~= seq!['.', '.']);
                }
                return None;
            }
            proof {
                reveal_strlit("..");
                assert(piece@ != seq!['.', '.']) by {
                    if piece@ == seq!['.', '.'] {
                        assert(piece@ =~= ".."@);
                    }
                }
            }
            return Some(slice_chars(piece, 0, piece.len()));
        }
        proof {
            reveal_strlit(".");
            if piece@.len() > 0 {
                assert(piece@ =~= seq!['.']);
            }
        }
        j = j - 1;
    }
    None
}

/// The extension of the file name `name`.
pub fn name_extension_chars(name: &Vec<char>) -> (r: Option<Vec<char>>)
    ensures
        match r {
            Some(e) => name_extension(name@) == Some(e@),
            None => name_extension(name@) is None,
        },
{
    match rfind_char(name, '.') {
        Some(k) => {
            if k == 0 {
                None
            } else {
                let e = slice_chars(name, k + 1, name.len());
                assert(e@ =~= name@.skip(k + 1));
                Some(e)
            }
        },
        None => None,
    }
}

/// The stem of the file name `name`.
pub fn name_stem_chars(name: &Vec<char>) -> (r: Vec<char>)
    ensures
        r@ == name_stem(name@),
{
    match rfind_char(name, '.') {
        Some(k) => {
            if k == 0 {
                slice_chars(name, 0, name.len())
            } else {
                let e = slice_chars(name, 0, k);
                assert(e@ =~= name@.take(k as int));
                e
            }
        },
        None => slice_chars(name, 0, name.len()),
    }
}

/// The extension of `path` in ASCII lower case, if it has one.
pub fn extension_of(path: &str) -> (r: Option<String>)
    ensures
        match r {
            Some(e) => path_extension(path@) matches Some(x) && e@ == ascii_lower_seq(x),
            None => path_extension(path@) is None,
        },
{
    let v = chars_of(path);
    match file_name_chars(&v) {
        Some(n) => match name_extension_chars(&n) {
            Some(e) => {
                let lower = ascii_lower_chars(&e);
                Some(string_of(&lower))
            },
            None => None,
        },
        None => None,
    }
}

/// Every path that resolving a reference yields is normalised: it names a
/// file below the asset root in its normal form.
pub proof fn lemma_resolved_reference_is_normal(base: Seq<char>, reference: Seq<char>)
    requires
        resolved_reference(base, reference) is Ok,
    ensures
        normalized_path(resolved_reference(base, reference)->Ok_0) == resolved_reference(base, reference),
{
    let r = trim(reference);
    lemma_normalize_idempotent(joined_reference(base, r));
}

/// A reference naming an external URL never resolves: whenever its trimmed
/// text holds `://` (at any position `i`), resolving it inside any file fails
/// with the message that external URLs are not supported.
pub proof fn lemma_url_reference_is_refused(base: Seq<char>, reference: Seq<char>, i: int)
    requires
        0 <= i,
        i + 3 <= trim(reference).len(),
        trim(reference)[i] == ':',
        trim(reference)[i + 1] == '/',
        trim(reference)[i + 2] == '/',
    ensures
        resolved_reference(base, reference) is Err,
        resolved_reference(base, reference) == Err::<Seq<char>, Seq<char>>(
            "external URL references are not supported: '"@ + trim(reference) + "'"@,
        ),
{
    reveal_strlit("://");
    let r = trim(reference);
    assert(r.subrange(i, i + 3) =~= "://"@);
    assert(occurs_in(r, "://"@));
}

} // verus!
