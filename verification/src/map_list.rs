//! The list of maps: ordering it by path, reading it from a plain-text list of
//! paths, and choosing the files that are maps.
use vstd::prelude::*;
use vstd::multiset::Multiset;
use vstd::utf8::encode_utf8;
use crate::bundle::{
    bytes_less, lemma_bytes_before_asymmetric, lemma_bytes_before_total, lemma_bytes_before_transitive,
    path_before,
};
use crate::manifest::{MapManifestEntry, entry_for_path, manifest_entry_from_path};
use crate::paths::{extension_of, path_extension};
use crate::text::{ascii_lower_seq, chars_eq, chars_of, slice_chars, split_chars, split_on, string_of, trim, trim_chars};

verus! {

broadcast use vstd::utf8::encode_utf8_decode_utf8;

/// `sorted` with `e` put in after every entry whose path does not come after
/// its own, as a stable sort places it.
pub open spec fn insert_by_path(sorted: Seq<MapManifestEntry>, e: MapManifestEntry) -> Seq<MapManifestEntry>
    decreases sorted.len(),
{
    if sorted.len() == 0 {
        seq![e]
    } else if path_before(e.path@, sorted.last().path@) {
        insert_by_path(sorted.drop_last(), e).push(sorted.last())
    } else {
        sorted.push(e)
    }
}

/// The entries in the order of their paths (that of `String`), entries with
/// equal paths kept in their order: what a stable sort by path gives.
pub open spec fn sorted_by_path(s: Seq<MapManifestEntry>) -> Seq<MapManifestEntry>
    decreases s.len(),
{
    if s.len() == 0 {
        s
    } else {
        insert_by_path(sorted_by_path(s.drop_last()), s.last())
    }
}

/// No entry's path comes before the path of an entry ahead of it.
pub open spec fn path_ordered(s: Seq<MapManifestEntry>) -> bool {
    forall|i: int, j: int| 0 <= i < j < s.len() ==> !path_before(#[trigger] s[j].path@, #[trigger] s[i].path@)
}

/// Sorts the entries by path, keeping the order of entries with equal paths.
pub fn sort_maps_by_path(maps: &mut Vec<MapManifestEntry>)
    ensures
        final(maps)@ == sorted_by_path(old(maps)@),
{
    let ghost orig = maps@;
    let mut i: usize = 0;
    assert(orig.take(0) =~= Seq::<MapManifestEntry>::empty());
    assert(maps@ =~= sorted_by_path(orig.take(0)) + orig.skip(0));
    while i < maps.len()
        invariant
            i <= maps.len() == orig.len(),
            maps@ == sorted_by_path(orig.take(i as int)) + orig.skip(i as int),
            sorted_by_path(orig.take(i as int)).len() == i,
        decreases maps.len() - i,
    {
        let ghost prefix = sorted_by_path(orig.take(i as int));
        let e = maps.remove(i);
        assert(e == orig[i as int]);
        assert(maps@ =~= prefix + orig.skip(i + 1));
        let mut k: usize = i;
        assert(prefix.take(i as int) =~= prefix);
        assert(prefix.skip(i as int) =~= Seq::<MapManifestEntry>::empty());
        while k > 0 && bytes_less(e.path.as_str().as_bytes(), maps[k - 1].path.as_str().as_bytes())
            invariant
                k <= i,
                i < orig.len(),
                prefix.len() == i,
                maps@ == prefix + orig.skip(i + 1),
                insert_by_path(prefix, e) == insert_by_path(prefix.take(k as int), e) + prefix.skip(k as int),
            decreases k,
        {
            assert(maps@[k - 1] == prefix[k - 1]);
            assert(prefix.take(k as int).drop_last() =~= prefix.take(k - 1));
            assert(prefix.take(k as int).last() == prefix[k - 1]);
            assert(prefix.skip(k - 1) =~= seq![prefix[k - 1]] + prefix.skip(k as int));
            assert(insert_by_path(prefix.take(k - 1), e).push(prefix[k - 1]) + prefix.skip(k as int)
                =~= insert_by_path(prefix.take(k - 1), e) + prefix.skip(k - 1));
            k = k - 1;
        }
        proof {
            if k > 0 {
                assert(prefix.take(k as int).last() == prefix[k - 1]);
                assert(insert_by_path(prefix.take(k as int), e) == prefix.take(k as int).push(e));
            } else {
                assert(prefix.take(0) =~= Seq::<MapManifestEntry>::empty());
            }
        }
        maps.insert(k, e);
        proof {
            assert(orig.take(i + 1).drop_last() =~= orig.take(i as int));
            assert(orig.take(i + 1).last() == e);
            assert(sorted_by_path(orig.take(i + 1)) == insert_by_path(prefix, e));
            assert(insert_by_path(prefix, e) =~= prefix.take(k as int).push(e) + prefix.skip(k as int));
            assert(maps@ =~= insert_by_path(prefix, e) + orig.skip(i + 1));
        }
        i = i + 1;
    }
    assert(orig.take(orig.len() as int) =~= orig);
    assert(orig.skip(orig.len() as int) =~= Seq::<MapManifestEntry>::empty());
    assert(maps@ =~= sorted_by_path(orig));
}

proof fn lemma_insert_by_path_len_and_multiset(sorted: Seq<MapManifestEntry>, e: MapManifestEntry)
    ensures
        insert_by_path(sorted, e).len() == sorted.len() + 1,
        insert_by_path(sorted, e).to_multiset() =~= sorted.to_multiset().insert(e),
    decreases sorted.len(),
{
    broadcast use vstd::seq_lib::group_to_multiset_ensures, vstd::multiset::group_multiset_axioms;

    if sorted.len() == 0 {
        assert(seq![e] =~= Seq::<MapManifestEntry>::empty().push(e));
    } else if path_before(e.path@, sorted.last().path@) {
        lemma_insert_by_path_len_and_multiset(sorted.drop_last(), e);
        assert(sorted.drop_last().push(sorted.last()) =~= sorted);
    }
}

proof fn lemma_sorted_by_path_len(s: Seq<MapManifestEntry>)
    ensures
        sorted_by_path(s).len() == s.len(),
    decreases s.len(),
{
    if s.len() > 0 {
        lemma_sorted_by_path_len(s.drop_last());
        lemma_insert_by_path_len_and_multiset(sorted_by_path(s.drop_last()), s.last());
    }
}

proof fn lemma_insert_by_path_members(sorted: Seq<MapManifestEntry>, e: MapManifestEntry, k: int)
    requires
        0 <= k < insert_by_path(sorted, e).len(),
    ensures
        insert_by_path(sorted, e)[k] == e || exists|m: int| 0 <= m < sorted.len() && #[trigger] sorted[m] == insert_by_path(sorted, e)[k],
    decreases sorted.len(),
{
    lemma_insert_by_path_len_and_multiset(sorted, e);
    if sorted.len() > 0 {
        let r = insert_by_path(sorted, e);
        if path_before(e.path@, sorted.last().path@) {
            if k == r.len() - 1 {
                assert(sorted[sorted.len() - 1] == r[k]);
            } else {
                lemma_insert_by_path_members(sorted.drop_last(), e, k);
                if r[k] != e {
                    let m = choose|m: int| 0 <= m < sorted.drop_last().len() && #[trigger] sorted.drop_last()[m] == r[k];
                    assert(sorted[m] == r[k]);
                }
            }
        } else {
            if k < sorted.len() {
                assert(sorted[k] == r[k]);
            }
        }
    }
}

proof fn lemma_insert_by_path_ordered(sorted: Seq<MapManifestEntry>, e: MapManifestEntry)
    requires
        path_ordered(sorted),
    ensures
        path_ordered(insert_by_path(sorted, e)),
    decreases sorted.len(),
{
    lemma_insert_by_path_len_and_multiset(sorted, e);
    if sorted.len() > 0 {
        let n = sorted.len() - 1;
        let last = sorted.last();
        let r = insert_by_path(sorted, e);
        if path_before(e.path@, last.path@) {
            let init = sorted.drop_last();
            assert(path_ordered(init)) by {
                assert forall|i: int, j: int| 0 <= i < j < init.len() implies !path_before(#[trigger] init[j].path@, #[trigger] init[i].path@) by {
                    assert(init[i] == sorted[i] && init[j] == sorted[j]);
                }
            }
            lemma_insert_by_path_ordered(init, e);
            let t = insert_by_path(init, e);
            assert forall|i: int, j: int| 0 <= i < j < r.len() implies !path_before(#[trigger] r[j].path@, #[trigger] r[i].path@) by {
                if j < r.len() - 1 {
                    assert(r[i] == t[i] && r[j] == t[j]);
                } else {
                    assert(r[j] == last);
                    assert(r[i] == t[i]);
                    lemma_insert_by_path_members(init, e, i);
                    if t[i] == e {
                        lemma_bytes_before_asymmetric(encode_utf8(e.path@), encode_utf8(last.path@));
                    } else {
                        let m = choose|m: int| 0 <= m < init.len() && #[trigger] init[m] == t[i];
                        assert(sorted[m] == t[i]);
                        assert(!path_before(sorted[n].path@, sorted[m].path@));
                    }
                }
            }
        } else {
            assert forall|i: int, j: int| 0 <= i < j < r.len() implies !path_before(#[trigger] r[j].path@, #[trigger] r[i].path@) by {
                if j < r.len() - 1 {
                    assert(r[i] == sorted[i] && r[j] == sorted[j]);
                } else {
                    assert(r[j] == e);
                    assert(r[i] == sorted[i]);
                    if i < n {
                        assert(!path_before(sorted[n].path@, sorted[i].path@));
                        if path_before(e.path@, sorted[i].path@) {
                            let a = encode_utf8(sorted[i].path@);
                            let b = encode_utf8(last.path@);
                            if a == b {
                                assert(path_before(e.path@, last.path@));
                            } else {
                                lemma_bytes_before_total(a, b);
                                lemma_bytes_before_transitive(encode_utf8(e.path@), a, b);
                            }
                        }
                    }
                }
            }
        }
    }
}

/// Sorting by path puts the entries in path order.
pub proof fn lemma_sorted_by_path_is_ordered(s: Seq<MapManifestEntry>)
    ensures
        path_ordered(sorted_by_path(s)),
    decreases s.len(),
{
    if s.len() > 0 {
        lemma_sorted_by_path_is_ordered(s.drop_last());
        lemma_insert_by_path_ordered(sorted_by_path(s.drop_last()), s.last());
    }
}

/// Sorting by path keeps every entry, as often as it occurs.
pub proof fn lemma_sorted_by_path_keeps_entries(s: Seq<MapManifestEntry>)
    ensures
        sorted_by_path(s).to_multiset() =~= s.to_multiset(),
    decreases s.len(),
{
    broadcast use vstd::seq_lib::group_to_multiset_ensures, vstd::multiset::group_multiset_axioms;

    if s.len() > 0 {
        lemma_sorted_by_path_keeps_entries(s.drop_last());
        lemma_insert_by_path_len_and_multiset(sorted_by_path(s.drop_last()), s.last());
        assert(s.drop_last().push(s.last()) =~= s);
    } else {
        assert(s.to_multiset() =~= Multiset::empty());
    }
}

/// A line without the `\r` that may end it.
pub open spec fn without_cr(line: Seq<char>) -> Seq<char> {
    if line.len() > 0 && line.last() == '\r' {
        line.drop_last()
    } else {
        line
    }
}

/// The lines of a text, as `str::lines` yields them: the pieces between
/// `\n`, each without a `\r` before its `\n`; the last piece, which no `\n`
/// ends, only when it is not empty, and as it stands.
pub open spec fn text_lines(s: Seq<char>) -> Seq<Seq<char>> {
    let pieces = split_on(s, '\n');
    let ended = pieces.drop_last().map_values(|p: Seq<char>| without_cr(p));
    if pieces.last().len() > 0 {
        ended.push(pieces.last())
    } else {
        ended
    }
}

/// The lines of a text that hold more than white space, in order.
pub open spec fn listed_lines(lines: Seq<Seq<char>>) -> Seq<Seq<char>>
    decreases lines.len(),
{
    if lines.len() == 0 {
        lines
    } else if trim(lines.last()).len() > 0 {
        listed_lines(lines.drop_last()).push(lines.last())
    } else {
        listed_lines(lines.drop_last())
    }
}

/// The entries of a plain-text list of map paths: one for each line that holds
/// more than white space, made from the line as it stands (see
/// `entry_for_path`), in order.
pub fn entries_from_path_list(text: &str) -> (r: Vec<MapManifestEntry>)
    ensures
        r@.len() == listed_lines(text_lines(text@)).len(),
        forall|i: int| 0 <= i < r@.len() ==> entry_for_path(#[trigger] r@[i], listed_lines(text_lines(text@))[i]),
{
    let v = chars_of(text);
    let pieces = split_chars(&v, '\n');
    proof {
        crate::text::lemma_split_on_nonempty(v@, '\n');
    }
    let ghost pv = pieces.deep_view();
    let ghost lines = text_lines(text@);
    let mut r: Vec<MapManifestEntry> = Vec::new();
    let mut i: usize = 0;
    let n = pieces.len();
    while i < n
        invariant
            i <= n == pieces.len(),
            n >= 1,
            pv == pieces.deep_view(),
            pv == split_on(text@, '\n'),
            lines == text_lines(text@),
            r@.len() == listed_lines(lines.take(if i < n { i as int } else if pv.last().len() > 0 { n as int } else { (n - 1) as int })).len(),
            forall|k: int| 0 <= k < r@.len() ==> entry_for_path(#[trigger] r@[k], listed_lines(lines.take(if i < n { i as int } else if pv.last().len() > 0 { n as int } else { (n - 1) as int }))[k]),
        decreases n - i,
    {
        let piece = &pieces[i];
        let is_last = i + 1 == n;
        if is_last && piece.len() == 0 {
            proof {
                assert(lines.len() == n - 1);
                assert(lines.take(n - 1) =~= lines.take((n - 1) as int));
            }
            i = i + 1;
        } else {
            let line = if !is_last && piece.len() > 0 && piece[piece.len() - 1] == '\r' {
                slice_chars(piece, 0, piece.len() - 1)
            } else {
                slice_chars(piece, 0, piece.len())
            };
            proof {
                if !is_last {
                    assert(lines[i as int] == without_cr(pv[i as int]));
                } else {
                    assert(lines[i as int] == pv[i as int]);
                }
                assert(line@ =~= lines[i as int]);
                assert(lines.take(i + 1).drop_last() =~= lines.take(i as int));
                assert(lines.take(i + 1).last() == line@);
            }
            let ghost before = r@;
            let ghost prev = listed_lines(lines.take(i as int));
            if trim_chars(&line).len() > 0 {
                let s = string_of(&line);
                let e = manifest_entry_from_path(s.as_str());
                r.push(e);
                assert(listed_lines(lines.take(i + 1)) == prev.push(line@));
                assert forall|k: int| 0 <= k < r@.len() implies entry_for_path(#[trigger] r@[k], listed_lines(lines.take(i + 1))[k]) by {
                    if k < before.len() {
                        assert(r@[k] == before[k]);
                    }
                }
            } else {
                assert(listed_lines(lines.take(i + 1)) == prev);
            }
            proof {
                if i + 1 == n {
                    assert(lines.len() == n);
                }
            }
            i = i + 1;
        }
    }
    proof {
        if pv.last().len() > 0 {
            assert(lines.take(n as int) =~= lines);
        } else {
            assert(lines.take((n - 1) as int) =~= lines);
        }
    }
    r
}

/// `s` with every occurrence of `from`, taken from the left without overlap,
/// replaced by `to`, as `str::replace` gives it for a non-empty `from`.
pub open spec fn replace_all(s: Seq<char>, from: Seq<char>, to: Seq<char>) -> Seq<char>
    decreases s.len(),
{
    if from.len() == 0 || s.len() < from.len() {
        s
    } else if s.take(from.len() as int) == from {
        to + replace_all(s.skip(from.len() as int), from, to)
    } else {
        seq![s[0]] + replace_all(s.drop_first(), from, to)
    }
}

/// The path of the plain-text list of maps kept next to a JSON manifest: the
/// manifest's path with each `.json` replaced by `.txt`.
pub fn manifest_txt_path(manifest_path: &str) -> (r: String)
    ensures
        r@ == replace_all(manifest_path@, ".json"@, ".txt"@),
{
    proof {
        reveal_strlit(".json");
        reveal_strlit(".txt");
    }
    let v = chars_of(manifest_path);
    let from = chars_of(".json");
    let to = chars_of(".txt");
    let mut out: Vec<char> = Vec::new();
    let mut i: usize = 0;
    assert(v@.skip(0) =~= v@);
    assert(out@ + replace_all(v@.skip(0), from@, to@) =~= replace_all(v@, from@, to@));
    while i < v.len()
        invariant
            i <= v.len(),
            from@ == ".json"@,
            to@ == ".txt"@,
            from@.len() == 5,
            out@ + replace_all(v@.skip(i as int), from@, to@) == replace_all(v@, from@, to@),
        decreases v.len() - i,
    {
        let ghost rest = v@.skip(i as int);
        if v.len() >= 5 && i <= v.len() - 5 && crate::text::occurs_at(&v, &from, i) {
            assert(v@.subrange(i as int, i + 5) =~= rest.take(5));
            assert(rest.skip(5) =~= v@.skip(i + 5));
            let ghost before = out@;
            let mut k: usize = 0;
            while k < to.len()
                invariant
                    k <= to.len(),
                    out@ == before + to@.take(k as int),
                decreases to.len() - k,
            {
                out.push(to[k]);
                k = k + 1;
                assert(out@ =~= before + to@.take(k as int));
            }
            assert(to@.take(to.len() as int) =~= to@);
            assert(out@ + replace_all(v@.skip(i + 5), from@, to@) =~= before + (to@ + replace_all(rest.skip(5), from@, to@)));
            i = i + 5;
        } else {
            proof {
                if rest.len() >= 5 {
                    assert(v@.subrange(i as int, i + 5) =~= rest.take(5));
                }
                assert(rest.drop_first() =~= v@.skip(i + 1));
                assert(rest[0] == v@[i as int]);
            }
            let ghost before = out@;
            out.push(v[i]);
            assert(out@ + replace_all(v@.skip(i + 1), from@, to@) =~= before + (seq![rest[0]] + replace_all(rest.drop_first(), from@, to@)));
            i = i + 1;
        }
    }
    assert(v@.skip(v.len() as int) =~= Seq::<char>::empty());
    assert(out@ =~= replace_all(v@, from@, to@));
    string_of(&out)
}

/// Whether a file is a map or a world by its extension: `tmx` or `world`,
/// ignoring ASCII case.
pub open spec fn is_map_asset(path: Seq<char>) -> bool {
    match path_extension(path) {
        Some(x) => ascii_lower_seq(x) == "tmx"@ || ascii_lower_seq(x) == "world"@,
        None => false,
    }
}

/// Whether the file at `path` is listed as a map or a world (see `is_map_asset`).
pub fn is_map_asset_file(path: &str) -> (b: bool)
    ensures
        b == is_map_asset(path@),
{
    match extension_of(path) {
        Some(e) => {
            let c = chars_of(e.as_str());
            chars_eq(&c, "tmx") || chars_eq(&c, "world")
        },
        None => false,
    }
}

} // verus!
