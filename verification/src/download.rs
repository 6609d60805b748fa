//! Download bundles: the error type and, further on, the collection of a map's
//! files into one archive.
use vstd::prelude::*;
use crate::manifest::{MapManifestEntry, shown_title};
use crate::text::{
    ascii_lower_chars, ascii_lower_seq, chars_of, join_chars, join_with, lemma_split_on_nonempty,
    split_chars, split_on, string_of, trim, trim_chars,
};

verus! {

/// Why a download bundle could not be built; it carries a message for the user.
#[derive(Debug, Clone, PartialEq, Eq)]
pub struct DownloadError {
    message: String,
}

impl View for DownloadError {
    type V = Seq<char>;

    closed spec fn view(&self) -> Seq<char> {
        self.message@
    }
}

impl DownloadError {
    /// An error that carries `message`.
    pub fn new(message: String) -> (e: DownloadError)
        ensures
            e@ == message@,
    {
        DownloadError { message }
    }

    /// The message, as the error displays itself.
    pub fn message(&self) -> (s: &str)
        ensures
            s@ == self@,
    {
        self.message.as_str()
    }
}

/// The outcome of a fallible string computation, taken by views.
pub open spec fn outcome(r: Result<String, DownloadError>) -> Result<Seq<char>, Seq<char>> {
    match r {
        Ok(s) => Ok(s@),
        Err(e) => Err(e@),
    }
}

/// The decimal digit `d`, for `d` below ten.
pub open spec fn digit_char(d: nat) -> char {
    seq!['0', '1', '2', '3', '4', '5', '6', '7', '8', '9'][d as int]
}

/// The decimal numeral of `n`, without leading zeros.
pub open spec fn decimal(n: nat) -> Seq<char>
    decreases n,
{
    if n < 10 {
        seq![digit_char(n)]
    } else {
        decimal(n / 10).push(digit_char(n % 10))
    }
}

/// The decimal numeral of `n`.
pub fn decimal_chars(n: usize) -> (r: Vec<char>)
    ensures
        r@ == decimal(n as nat),
    decreases n,
{
    let digits = vec!['0', '1', '2', '3', '4', '5', '6', '7', '8', '9'];
    assert(digits@ =~= seq!['0', '1', '2', '3', '4', '5', '6', '7', '8', '9']);
    if n < 10 {
        vec![digits[n]]
    } else {
        let mut r = decimal_chars(n / 10);
        r.push(digits[n % 10]);
        r
    }
}

/// What is reported once a bundle has been delivered: `Saved '...' (n files)`
/// for a file written to disk, `Downloaded '...' (n files)` for one handed to
/// the browser.
pub open spec fn delivery_message(saved: bool, target: Seq<char>, files: nat) -> Seq<char> {
    (if saved {
        "Saved '"@
    } else {
        "Downloaded '"@
    }) + target + "' ("@ + decimal(files) + " files)"@
}

/// The report for a bundle of `files` files delivered to `target`.
pub fn delivery_summary(saved: bool, target: &str, files: usize) -> (s: String)
    ensures
        s@ == delivery_message(saved, target@, files as nat),
{
    let mut s = if saved {
        String::from_str("Saved '")
    } else {
        String::from_str("Downloaded '")
    };
    s.append(target);
    s.append("' (");
    let digits = string_of(&decimal_chars(files));
    s.append(digits.as_str());
    s.append(" files)");
    s
}

/// `s` without the `/` characters at its end.
pub open spec fn trim_end_slashes(s: Seq<char>) -> Seq<char>
    decreases s.len(),
{
    if s.len() > 0 && s.last() == '/' {
        trim_end_slashes(s.drop_last())
    } else {
        s
    }
}

/// The URL of an asset below a web asset root: the root without its trailing
/// `/`, then `/` and the asset's relative path.
pub open spec fn asset_url_of(root: Seq<char>, relative: Seq<char>) -> Seq<char> {
    trim_end_slashes(root) + seq!['/'] + relative
}

/// The URL of the asset at `relative_path` below `asset_root`.
pub fn asset_url(asset_root: &str, relative_path: &str) -> (r: String)
    ensures
        r@ == asset_url_of(asset_root@, relative_path@),
{
    let v = chars_of(asset_root);
    let mut k: usize = v.len();
    assert(v@.take(k as int) =~= v@);
    while k > 0 && v[k - 1] == '/'
        invariant
            k <= v.len(),
            trim_end_slashes(v@) == trim_end_slashes(v@.take(k as int)),
        decreases k,
    {
        assert(v@.take(k as int).drop_last() =~= v@.take(k - 1));
        k = k - 1;
    }
    let mut kept: Vec<char> = Vec::new();
    let mut i: usize = 0;
    while i < k
        invariant
            i <= k <= v.len(),
            kept@ == v@.take(i as int),
        decreases k - i,
    {
        kept.push(v[i]);
        i = i + 1;
        assert(kept@ =~= v@.take(i as int));
    }
    kept.push('/');
    let mut r = string_of(&kept);
    r.append(relative_path);
    r
}

/// Whether an HTTP status reports success: 200 up to, not including, 300.
pub open spec fn status_ok(status: u16) -> bool {
    200 <= status < 300
}

/// The error for a fetch of `url` answered with an HTTP `status` outside the
/// successful range.
pub open spec fn http_failure_message(url: Seq<char>, status: u16) -> Seq<char> {
    "failed to fetch '"@ + url + "': HTTP "@ + decimal(status as nat)
}

/// Checks the HTTP status of a fetch of `url`: success, or the error that
/// names the URL and the status.
pub fn check_http_status(url: &str, status: u16) -> (r: Result<(), DownloadError>)
    ensures
        match r {
            Ok(()) => status_ok(status),
            Err(e) => !status_ok(status) && e@ == http_failure_message(url@, status),
        },
{
    if 200 <= status && status < 300 {
        return Ok(());
    }
    let mut m = String::from_str("failed to fetch '");
    m.append(url);
    m.append("': HTTP ");
    let digits = string_of(&decimal_chars(status as usize));
    m.append(digits.as_str());
    Err(DownloadError::new(m))
}

/// What a character of a title becomes in an archive name: lower-case ASCII
/// letters and digits stay, everything else becomes `-`.
pub open spec fn archive_char(c: char) -> char {
    if ('a' <= c && c <= 'z') || ('0' <= c && c <= '9') {
        c
    } else {
        '-'
    }
}

/// Lower-case ASCII letters and digits.
pub open spec fn is_archive_alnum(c: char) -> bool {
    ('a' <= c && c <= 'z') || ('0' <= c && c <= '9')
}

/// The non-empty pieces of `pieces`, in order.
pub open spec fn nonempty_pieces(pieces: Seq<Seq<char>>) -> Seq<Seq<char>>
    decreases pieces.len(),
{
    if pieces.len() == 0 {
        pieces
    } else if pieces.last().len() > 0 {
        nonempty_pieces(pieces.drop_last()).push(pieces.last())
    } else {
        nonempty_pieces(pieces.drop_last())
    }
}

/// The stem of the archive made for a title: the trimmed, lower-cased title
/// (or `map` when that is empty), with each character outside `a`-`z` and
/// `0`-`9` turned into `-`, runs of `-` collapsed and leading or trailing `-`
/// dropped; `map` when nothing is left.
pub open spec fn archive_stem(title: Seq<char>) -> Seq<char> {
    let name = ascii_lower_seq(trim(title));
    let named = if name.len() == 0 {
        "map"@
    } else {
        name
    };
    let sanitized = named.map_values(|c: char| archive_char(c));
    let collapsed = join_with(nonempty_pieces(split_on(sanitized, '-')), '-');
    if collapsed.len() == 0 {
        "map"@
    } else {
        collapsed
    }
}

/// The archive file name for an entry: the stem made from its shown title, then `.zip`.
pub open spec fn archive_name_for(e: MapManifestEntry) -> Seq<char> {
    archive_stem(shown_title(e)) + ".zip"@
}

/// The file name of the zip archive that bundles `entry`.
pub fn bundle_archive_name(entry: &MapManifestEntry) -> (name: String)
    ensures
        name@ == archive_name_for(*entry),
{
    let title = chars_of(entry.display_title());
    let trimmed = trim_chars(&title);
    let lower = ascii_lower_chars(&trimmed);
    let named = if lower.len() == 0 {
        chars_of("map")
    } else {
        lower
    };
    let mut sanitized: Vec<char> = Vec::new();
    let mut i: usize = 0;
    while i < named.len()
        invariant
            i <= named.len(),
            sanitized@ == named@.take(i as int).map_values(|c: char| archive_char(c)),
        decreases named.len() - i,
    {
        let c = named[i];
        if ('a' <= c && c <= 'z') || ('0' <= c && c <= '9') {
            sanitized.push(c);
        } else {
            sanitized.push('-');
        }
        i = i + 1;
        assert(sanitized@ =~= named@.take(i as int).map_values(|c: char| archive_char(c)));
    }
    assert(named@.take(named.len() as int) =~= named@);
    let pieces = split_chars(&sanitized, '-');
    let ghost pv = pieces.deep_view();
    let mut kept: Vec<Vec<char>> = Vec::new();
    let mut k: usize = 0;
    while k < pieces.len()
        invariant
            k <= pieces.len(),
            pv == pieces.deep_view(),
            kept.deep_view() == nonempty_pieces(pv.take(k as int)),
        decreases pieces.len() - k,
    {
        let piece = &pieces[k];
        let ghost before = kept.deep_view();
        assert(pv.take(k + 1).drop_last() =~= pv.take(k as int));
        assert(pv.take(k + 1).last() == piece@);
        if piece.len() > 0 {
            let copy = string_chars_copy(piece);
            assert(copy.deep_view() =~= copy@);
            kept.push(copy);
            assert(kept.deep_view() =~= before.push(piece@));
        }
        k = k + 1;
    }
    assert(pv.take(pieces.len() as int) =~= pv);
    let collapsed = join_chars(&kept, '-');
    let stem = if collapsed.len() == 0 {
        chars_of("map")
    } else {
        collapsed
    };
    let mut name = string_of(&stem);
    name.append(".zip");
    name
}

/// A copy of the characters of `v`.
fn string_chars_copy(v: &Vec<char>) -> (r: Vec<char>)
    ensures
        r@ == v@,
{
    let mut r: Vec<char> = Vec::new();
    let mut i: usize = 0;
    while i < v.len()
        invariant
            i <= v.len(),
            r@ == v@.take(i as int),
        decreases v.len() - i,
    {
        r.push(v[i]);
        i = i + 1;
        assert(r@ =~= v@.take(i as int));
    }
    assert(v@.take(v.len() as int) =~= v@);
    r
}

/// An archive stem that is safe as a file name: non-empty, made of lower-case
/// ASCII letters, digits and `-`, with no `-` at either end and no two `-` in a row.
pub open spec fn tidy_stem(s: Seq<char>) -> bool {
    &&& s.len() > 0
    &&& forall|i: int| 0 <= i < s.len() ==> is_archive_alnum(#[trigger] s[i]) || s[i] == '-'
    &&& s[0] != '-'
    &&& s.last() != '-'
    &&& forall|i: int| 0 <= i < s.len() - 1 ==> !(#[trigger] s[i] == '-' && s[i + 1] == '-')
}

/// Every character of `s` is a lower-case ASCII letter or digit.
pub open spec fn all_alnum(s: Seq<char>) -> bool {
    forall|i: int| 0 <= i < s.len() ==> is_archive_alnum(#[trigger] s[i])
}

proof fn lemma_split_pieces_alnum(s: Seq<char>)
    requires
        forall|i: int| 0 <= i < s.len() ==> is_archive_alnum(#[trigger] s[i]) || s[i] == '-',
    ensures
        forall|i: int| 0 <= i < split_on(s, '-').len() ==> all_alnum(#[trigger] split_on(s, '-')[i]),
    decreases s.len(),
{
    lemma_split_on_nonempty(s, '-');
    if s.len() > 0 {
        let a = s.drop_last();
        assert forall|i: int| 0 <= i < a.len() implies is_archive_alnum(#[trigger] a[i]) || a[i] == '-' by {
            assert(a[i] == s[i]);
        }
        lemma_split_pieces_alnum(a);
        lemma_split_on_nonempty(a, '-');
        let init = split_on(a, '-');
        if s.last() != '-' {
            assert(all_alnum(init.last()));
            assert(is_archive_alnum(s[s.len() - 1]));
            assert(all_alnum(init.last().push(s.last())));
        }
    }
}

proof fn lemma_nonempty_pieces_keep(pieces: Seq<Seq<char>>)
    requires
        forall|i: int| 0 <= i < pieces.len() ==> all_alnum(#[trigger] pieces[i]),
    ensures
        forall|i: int| 0 <= i < nonempty_pieces(pieces).len() ==> all_alnum(#[trigger] nonempty_pieces(pieces)[i])
            && nonempty_pieces(pieces)[i].len() > 0,
    decreases pieces.len(),
{
    if pieces.len() > 0 {
        let init = pieces.drop_last();
        assert forall|i: int| 0 <= i < init.len() implies all_alnum(#[trigger] init[i]) by {
            assert(init[i] == pieces[i]);
        }
        lemma_nonempty_pieces_keep(init);
        assert(all_alnum(pieces.last()));
        let ki = nonempty_pieces(init);
        let k = nonempty_pieces(pieces);
        if pieces.last().len() > 0 {
            assert(k == ki.push(pieces.last()));
            assert forall|i: int| 0 <= i < k.len() implies all_alnum(#[trigger] k[i]) && k[i].len() > 0 by {
                if i < ki.len() {
                    assert(k[i] == ki[i]);
                }
            }
        }
    }
}

proof fn lemma_join_tidy(parts: Seq<Seq<char>>)
    requires
        parts.len() >= 1,
        forall|i: int| 0 <= i < parts.len() ==> all_alnum(#[trigger] parts[i]) && parts[i].len() > 0,
    ensures
        tidy_stem(join_with(parts, '-')),
    decreases parts.len(),
{
    if parts.len() == 1 {
        assert(all_alnum(parts[0]) && parts[0].len() > 0);
        let p = parts[0];
        assert(is_archive_alnum(p[0]));
        assert(is_archive_alnum(p[p.len() - 1]));
    } else {
        let init = parts.drop_last();
        assert forall|i: int| 0 <= i < init.len() implies all_alnum(#[trigger] init[i]) && init[i].len() > 0 by {
            assert(init[i] == parts[i]);
        }
        lemma_join_tidy(init);
        let a = join_with(init, '-');
        let l = parts.last();
        assert(all_alnum(l) && l.len() > 0);
        let j = a.push('-') + l;
        assert(j == join_with(parts, '-'));
        assert forall|i: int| 0 <= i < j.len() implies is_archive_alnum(#[trigger] j[i]) || j[i] == '-' by {
            if i < a.len() {
                assert(j[i] == a[i]);
            } else if i > a.len() {
                assert(j[i] == l[i - a.len() - 1]);
            }
        }
        assert(j[0] == a[0]);
        assert(j.last() == l[l.len() - 1]);
        assert(is_archive_alnum(l[l.len() - 1]));
        assert forall|i: int| 0 <= i < j.len() - 1 implies !(#[trigger] j[i] == '-' && j[i + 1] == '-') by {
            if i < a.len() - 1 {
                assert(j[i] == a[i] && j[i + 1] == a[i + 1]);
            } else if i == a.len() - 1 {
                assert(j[i] == a.last());
            } else if i == a.len() {
                assert(j[i + 1] == l[0]);
                assert(is_archive_alnum(l[0]));
            } else {
                assert(j[i] == l[i - a.len() - 1]);
                assert(is_archive_alnum(l[i - a.len() - 1]));
            }
        }
    }
}

/// Whatever the title, the archive stem is tidy: non-empty, only lower-case
/// ASCII letters, digits and single `-` between them.
pub proof fn lemma_archive_stem_is_tidy(title: Seq<char>)
    ensures
        tidy_stem(archive_stem(title)),
{
    reveal_strlit("map");
    let name = ascii_lower_seq(trim(title));
    let named = if name.len() == 0 {
        "map"@
    } else {
        name
    };
    let sanitized = named.map_values(|c: char| archive_char(c));
    assert forall|i: int| 0 <= i < sanitized.len() implies is_archive_alnum(#[trigger] sanitized[i])
        || sanitized[i] == '-' by {
        assert(sanitized[i] == archive_char(named[i]));
    }
    lemma_split_pieces_alnum(sanitized);
    let pieces = split_on(sanitized, '-');
    lemma_nonempty_pieces_keep(pieces);
    let kept = nonempty_pieces(pieces);
    if kept.len() >= 1 {
        lemma_join_tidy(kept);
    } else {
        assert(kept =~= Seq::<Seq<char>>::empty());
        let m = "map"@;
        assert(m =~= seq!['m', 'a', 'p']);
        assert(tidy_stem(m));
    }
}

/// The lower-case ASCII letters and digits of `s`, in order.
pub open spec fn letters_and_digits(s: Seq<char>) -> Seq<char>
    decreases s.len(),
{
    if s.len() == 0 {
        s
    } else if ('a' <= s.last() && s.last() <= 'z') || ('0' <= s.last() && s.last() <= '9') {
        letters_and_digits(s.drop_last()).push(s.last())
    } else {
        letters_and_digits(s.drop_last())
    }
}

/// The lower-case letters and digits of each piece, one piece after another.
spec fn pieces_letters_and_digits(parts: Seq<Seq<char>>) -> Seq<char>
    decreases parts.len(),
{
    if parts.len() == 0 {
        Seq::empty()
    } else {
        pieces_letters_and_digits(parts.drop_last()) + letters_and_digits(parts.last())
    }
}

proof fn lemma_letters_and_digits_concat(a: Seq<char>, b: Seq<char>)
    ensures
        letters_and_digits(a + b) == letters_and_digits(a) + letters_and_digits(b),
    decreases b.len(),
{
    if b.len() == 0 {
        assert(a + b =~= a);
        assert(letters_and_digits(a) + letters_and_digits(b) =~= letters_and_digits(a));
    } else {
        lemma_letters_and_digits_concat(a, b.drop_last());
        assert((a + b).drop_last() =~= a + b.drop_last());
        assert((a + b).last() == b.last());
        let la = letters_and_digits(a);
        let lb = letters_and_digits(b.drop_last());
        assert((la + lb).push(b.last()) =~= la + lb.push(b.last()));
    }
}

proof fn lemma_letters_and_digits_sanitized(s: Seq<char>)
    ensures
        letters_and_digits(s.map_values(|c: char| archive_char(c))) == letters_and_digits(s),
    decreases s.len(),
{
    if s.len() > 0 {
        lemma_letters_and_digits_sanitized(s.drop_last());
        let m = s.map_values(|c: char| archive_char(c));
        assert(m.drop_last() =~= s.drop_last().map_values(|c: char| archive_char(c)));
        assert(m.last() == archive_char(s.last()));
    }
}

proof fn lemma_letters_and_digits_join(parts: Seq<Seq<char>>)
    ensures
        letters_and_digits(join_with(parts, '-')) == pieces_letters_and_digits(parts),
    decreases parts.len(),
{
    if parts.len() == 1 {
        assert(parts.drop_last() =~= Seq::<Seq<char>>::empty());
        assert(pieces_letters_and_digits(parts.drop_last()) == Seq::<char>::empty());
        assert(parts.last() == parts[0]);
        assert(pieces_letters_and_digits(parts) == pieces_letters_and_digits(parts.drop_last()) + letters_and_digits(
            parts.last(),
        ));
        assert(join_with(parts, '-') == parts[0]);
        assert(Seq::<char>::empty() + letters_and_digits(parts[0]) =~= letters_and_digits(parts[0]));
    } else if parts.len() > 1 {
        lemma_letters_and_digits_join(parts.drop_last());
        let j = join_with(parts.drop_last(), '-');
        lemma_letters_and_digits_concat(j.push('-'), parts.last());
        assert(j.push('-').drop_last() =~= j);
        assert(j.push('-').last() == '-');
        assert(letters_and_digits(j.push('-')) == letters_and_digits(j));
        assert(join_with(parts, '-') == j.push('-') + parts.last());
        assert(pieces_letters_and_digits(parts) == pieces_letters_and_digits(parts.drop_last()) + letters_and_digits(
            parts.last(),
        ));
    } else {
        assert(join_with(parts, '-') =~= Seq::<char>::empty());
    }
}

proof fn lemma_letters_and_digits_split(s: Seq<char>)
    ensures
        pieces_letters_and_digits(split_on(s, '-')) == letters_and_digits(s),
    decreases s.len(),
{
    if s.len() == 0 {
        let p = split_on(s, '-');
        assert(s =~= Seq::<char>::empty());
        assert(p.drop_last() =~= Seq::<Seq<char>>::empty());
        assert(p.last() =~= Seq::<char>::empty());
        assert(pieces_letters_and_digits(p.drop_last()) == Seq::<char>::empty());
        assert(letters_and_digits(p.last()) == Seq::<char>::empty());
        assert(pieces_letters_and_digits(p) == pieces_letters_and_digits(p.drop_last()) + letters_and_digits(p.last()));
        assert(Seq::<char>::empty() + letters_and_digits(Seq::<char>::empty()) =~= Seq::<char>::empty());
        assert(letters_and_digits(s) == Seq::<char>::empty());
    } else {
        let d = s.drop_last();
        lemma_letters_and_digits_split(d);
        lemma_split_on_nonempty(d, '-');
        let init = split_on(d, '-');
        if s.last() == '-' {
            let p = init.push(Seq::<char>::empty());
            assert(split_on(s, '-') == p);
            assert(p.drop_last() =~= init);
            assert(pieces_letters_and_digits(init) + letters_and_digits(Seq::<char>::empty())
                =~= pieces_letters_and_digits(init));
        } else {
            let n = init.len() - 1;
            let p = init.update(n, init.last().push(s.last()));
            assert(split_on(s, '-') == p);
            assert(p.drop_last() =~= init.drop_last());
            assert(p.last() == init.last().push(s.last()));
            assert(init.last().push(s.last()).drop_last() =~= init.last());
            let a = pieces_letters_and_digits(init.drop_last());
            let b = letters_and_digits(init.last());
            if ('a' <= s.last() && s.last() <= 'z') || ('0' <= s.last() && s.last() <= '9') {
                assert(a + b.push(s.last()) =~= (a + b).push(s.last()));
            }
        }
    }
}

proof fn lemma_letters_and_digits_nonempty_pieces(parts: Seq<Seq<char>>)
    ensures
        pieces_letters_and_digits(nonempty_pieces(parts)) == pieces_letters_and_digits(parts),
    decreases parts.len(),
{
    if parts.len() > 0 {
        lemma_letters_and_digits_nonempty_pieces(parts.drop_last());
        let k = nonempty_pieces(parts.drop_last());
        if parts.last().len() > 0 {
            assert(k.push(parts.last()).drop_last() =~= k);
        } else {
            assert(parts.last() =~= Seq::<char>::empty());
            assert(pieces_letters_and_digits(parts.drop_last()) + letters_and_digits(parts.last())
                =~= pieces_letters_and_digits(parts.drop_last()));
        }
    }
}

/// The archive stem keeps every lower-case letter and digit of the trimmed,
/// lower-cased title, in order, and adds none: only the other characters are
/// turned into (collapsed) dashes. (A title with no letter or digit gets the
/// stem `map`.)
pub proof fn lemma_archive_stem_keeps_letters_and_digits(title: Seq<char>)
    requires
        letters_and_digits(ascii_lower_seq(trim(title))).len() > 0,
    ensures
        letters_and_digits(archive_stem(title)) == letters_and_digits(ascii_lower_seq(trim(title))),
{
    let name = ascii_lower_seq(trim(title));
    if name.len() == 0 {
        assert(letters_and_digits(name).len() == 0);
    }
    let sanitized = name.map_values(|c: char| archive_char(c));
    let pieces = split_on(sanitized, '-');
    let kept = nonempty_pieces(pieces);
    let collapsed = join_with(kept, '-');
    lemma_letters_and_digits_sanitized(name);
    lemma_letters_and_digits_split(sanitized);
    lemma_letters_and_digits_nonempty_pieces(pieces);
    lemma_letters_and_digits_join(kept);
    assert(letters_and_digits(collapsed) == letters_and_digits(name));
    if collapsed.len() == 0 {
        assert(letters_and_digits(collapsed).len() == 0);
    }
}

proof fn lemma_split_without_dash(s: Seq<char>)
    requires
        forall|i: int| 0 <= i < s.len() ==> #[trigger] s[i] != '-',
    ensures
        split_on(s, '-') == seq![s],
    decreases s.len(),
{
    if s.len() > 0 {
        let d = s.drop_last();
        assert forall|i: int| 0 <= i < d.len() implies #[trigger] d[i] != '-' by {
            assert(d[i] == s[i]);
        }
        lemma_split_without_dash(d);
        assert(s[s.len() - 1] != '-');
        assert(d.push(s.last()) =~= s);
        assert(seq![d].last() == d);
        assert(seq![d].update(0, d.push(s.last())) =~= seq![s]);
    } else {
        assert(s =~= Seq::<char>::empty());
    }
}

/// A title that, trimmed and lower-cased, is made only of lower-case letters
/// and digits is its own archive stem.
pub proof fn lemma_plain_title_is_its_own_stem(title: Seq<char>)
    requires
        ascii_lower_seq(trim(title)).len() > 0,
        forall|i: int|
            0 <= i < ascii_lower_seq(trim(title)).len() ==> ('a' <= #[trigger] ascii_lower_seq(trim(title))[i] && ascii_lower_seq(
                trim(title),
            )[i] <= 'z') || ('0' <= ascii_lower_seq(trim(title))[i] && ascii_lower_seq(trim(title))[i] <= '9'),
    ensures
        archive_stem(title) == ascii_lower_seq(trim(title)),
{
    let name = ascii_lower_seq(trim(title));
    let sanitized = name.map_values(|c: char| archive_char(c));
    assert(sanitized =~= name);
    lemma_split_without_dash(name);
    let one = seq![name];
    assert(one.drop_last() =~= Seq::<Seq<char>>::empty());
    assert(one.last() == name);
    assert(nonempty_pieces(one.drop_last()) =~= Seq::<Seq<char>>::empty());
    assert(Seq::<Seq<char>>::empty().push(name) =~= one);
    assert(nonempty_pieces(one) =~= one);
}

} // verus!
