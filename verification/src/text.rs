//! Character-level helpers over `str`, `String` and `Vec<char>`, each with the
//! sequence-level definition that the rest of the crate's contracts use.
use vstd::prelude::*;

verus! {

/// `String::push` appends one character at the end of the string.
pub assume_specification[ String::push ](s: &mut String, ch: char)
    ensures
        final(s)@ == old(s)@.push(ch),
;

/// The characters of `s`, in order.
pub fn chars_of(s: &str) -> (v: Vec<char>)
    ensures
        v@ == s@,
{
    let mut v: Vec<char> = Vec::new();
    for c in it: s.chars()
        invariant
            v@ == it.seq().take(it.index()),
    {
        v.push(c);
    }
    v
}

/// The string made of the characters of `v`, in order.
pub fn string_of(v: &Vec<char>) -> (s: String)
    ensures
        s@ == v@,
{
    let mut s = String::new();
    let mut i: usize = 0;
    while i < v.len()
        invariant
            i <= v.len(),
            s@ == v@.take(i as int),
        decreases v.len() - i,
    {
        s.push(v[i]);
        i = i + 1;
        assert(v@.take(i as int) =~= v@.take(i - 1).push(v@[i - 1]));
    }
    assert(v@.take(v.len() as int) =~= v@);
    s
}

/// Unicode `White_Space`, the set that `char::is_whitespace` and `str::trim` use.
pub open spec fn is_space(c: char) -> bool {
    ||| ('\u{9}' <= c && c <= '\u{d}')
    ||| c == ' '
    ||| c == '\u{85}'
    ||| c == '\u{a0}'
    ||| c == '\u{1680}'
    ||| ('\u{2000}' <= c && c <= '\u{200a}')
    ||| c == '\u{2028}'
    ||| c == '\u{2029}'
    ||| c == '\u{202f}'
    ||| c == '\u{205f}'
    ||| c == '\u{3000}'
}

/// Whether `c` is Unicode white space.
pub fn char_is_space(c: char) -> (b: bool)
    ensures
        b == is_space(c),
{
    ('\u{9}' <= c && c <= '\u{d}') || c == ' ' || c == '\u{85}' || c == '\u{a0}' || c
        == '\u{1680}' || ('\u{2000}' <= c && c <= '\u{200a}') || c == '\u{2028}' || c
        == '\u{2029}' || c == '\u{202f}' || c == '\u{205f}' || c == '\u{3000}'
}

/// `s` without its leading white space.
pub open spec fn trim_start(s: Seq<char>) -> Seq<char>
    decreases s.len(),
{
    if s.len() > 0 && is_space(s[0]) {
        trim_start(s.drop_first())
    } else {
        s
    }
}

/// `s` without its trailing white space.
pub open spec fn trim_end(s: Seq<char>) -> Seq<char>
    decreases s.len(),
{
    if s.len() > 0 && is_space(s.last()) {
        trim_end(s.drop_last())
    } else {
        s
    }
}

/// `s` without leading and trailing white space, as `str::trim` gives it.
pub open spec fn trim(s: Seq<char>) -> Seq<char> {
    trim_end(trim_start(s))
}

proof fn lemma_trim_start_skip(s: Seq<char>, i: int)
    requires
        0 <= i <= s.len(),
        forall|k: int| 0 <= k < i ==> is_space(#[trigger] s[k]),
    ensures
        trim_start(s) == trim_start(s.skip(i)),
    decreases i,
{
    if i > 0 {
        assert(s.skip(1) =~= s.drop_first());
        lemma_trim_start_skip(s.drop_first(), i - 1);
        assert(s.drop_first().skip(i - 1) =~= s.skip(i));
    } else {
        assert(s.skip(0) =~= s);
    }
}

proof fn lemma_trim_end_take(s: Seq<char>, j: int)
    requires
        0 <= j <= s.len(),
        forall|k: int| j <= k < s.len() ==> is_space(#[trigger] s[k]),
    ensures
        trim_end(s) == trim_end(s.take(j)),
    decreases s.len() - j,
{
    if j < s.len() {
        assert(s.take(s.len() - 1) =~= s.drop_last());
        lemma_trim_end_take(s.drop_last(), j);
        assert(s.drop_last().take(j) =~= s.take(j));
    } else {
        assert(s.take(j) =~= s);
    }
}

/// The characters of `v` without leading and trailing white space.
pub fn trim_chars(v: &Vec<char>) -> (r: Vec<char>)
    ensures
        r@ == trim(v@),
{
    let n = v.len();
    let mut lo: usize = 0;
    while lo < n && char_is_space(v[lo])
        invariant
            lo <= n == v.len(),
            forall|k: int| 0 <= k < lo ==> is_space(#[trigger] v@[k]),
        decreases n - lo,
    {
        lo = lo + 1;
    }
    proof {
        lemma_trim_start_skip(v@, lo as int);
    }
    let ghost rest = v@.skip(lo as int);
    assert(trim_start(rest) == rest);
    let mut hi: usize = n;
    while hi > lo && char_is_space(v[hi - 1])
        invariant
            lo <= hi <= n == v.len(),
            forall|k: int| hi <= k < n ==> is_space(#[trigger] v@[k]),
        decreases hi,
    {
        hi = hi - 1;
    }
    let mut r: Vec<char> = Vec::new();
    let mut i: usize = lo;
    while i < hi
        invariant
            lo <= i <= hi <= n == v.len(),
            r@ == v@.subrange(lo as int, i as int),
        decreases hi - i,
    {
        r.push(v[i]);
        i = i + 1;
        assert(r@ =~= v@.subrange(lo as int, i as int));
    }
    proof {
        lemma_trim_end_take(rest, hi - lo);
        assert(rest.take(hi - lo) =~= r@);
        if hi > lo {
            assert(r@.last() == v@[hi - 1]);
        }
    }
    r
}

/// The ASCII lower-case form of `c`: `A`..=`Z` become `a`..=`z`, all else stays.
pub open spec fn ascii_lower(c: char) -> char {
    if 'A' <= c && c <= 'Z' {
        ((c as u32) + 32) as char
    } else {
        c
    }
}

/// `s` with every character taken to its ASCII lower-case form, as
/// `str::to_ascii_lowercase` gives it.
pub open spec fn ascii_lower_seq(s: Seq<char>) -> Seq<char> {
    s.map_values(|c: char| ascii_lower(c))
}

/// Lowering a character keeps whether it is white space, and lowering twice
/// is lowering once.
pub proof fn lemma_ascii_lower_char(c: char)
    ensures
        is_space(ascii_lower(c)) == is_space(c),
        ascii_lower(ascii_lower(c)) == ascii_lower(c),
{
    if 'A' <= c && c <= 'Z' {
        let n = (c as u32) + 32;
        assert(97 <= n <= 122);
        assert(ascii_lower(c) as u32 == n);
    }
}

/// Lowering a sequence twice is lowering it once.
pub proof fn lemma_ascii_lower_idempotent(s: Seq<char>)
    ensures
        ascii_lower_seq(ascii_lower_seq(s)) == ascii_lower_seq(s),
{
    assert forall|i: int| 0 <= i < s.len() implies #[trigger] ascii_lower_seq(ascii_lower_seq(s))[i]
        == ascii_lower_seq(s)[i] by {
        lemma_ascii_lower_char(s[i]);
    }
    assert(ascii_lower_seq(ascii_lower_seq(s)) =~= ascii_lower_seq(s));
}

/// Trimming commutes with lowering.
pub proof fn lemma_trim_ascii_lower(s: Seq<char>)
    ensures
        trim(ascii_lower_seq(s)) == ascii_lower_seq(trim(s)),
{
    lemma_trim_start_lower(s);
    lemma_trim_end_lower(trim_start(s));
}

proof fn lemma_trim_start_lower(s: Seq<char>)
    ensures
        trim_start(ascii_lower_seq(s)) == ascii_lower_seq(trim_start(s)),
    decreases s.len(),
{
    if s.len() > 0 {
        lemma_ascii_lower_char(s[0]);
        assert(ascii_lower_seq(s)[0] == ascii_lower(s[0]));
        if is_space(s[0]) {
            assert(ascii_lower_seq(s).drop_first() =~= ascii_lower_seq(s.drop_first()));
            lemma_trim_start_lower(s.drop_first());
        }
    }
}

proof fn lemma_trim_end_lower(s: Seq<char>)
    ensures
        trim_end(ascii_lower_seq(s)) == ascii_lower_seq(trim_end(s)),
    decreases s.len(),
{
    if s.len() > 0 {
        lemma_ascii_lower_char(s.last());
        assert(ascii_lower_seq(s).last() == ascii_lower(s.last()));
        if is_space(s.last()) {
            assert(ascii_lower_seq(s).drop_last() =~= ascii_lower_seq(s.drop_last()));
            lemma_trim_end_lower(s.drop_last());
        }
    }
}

/// The ASCII lower-case form of `c`.
pub fn char_ascii_lower(c: char) -> (r: char)
    ensures
        r == ascii_lower(c),
{
    if 'A' <= c && c <= 'Z' {
        let b = (c as u8) + 32;
        assert(b as char == ((c as u32) + 32) as char);
        b as char
    } else {
        c
    }
}

/// The characters of `v` in their ASCII lower-case form.
pub fn ascii_lower_chars(v: &Vec<char>) -> (r: Vec<char>)
    ensures
        r@ == ascii_lower_seq(v@),
{
    let mut r: Vec<char> = Vec::new();
    let mut i: usize = 0;
    while i < v.len()
        invariant
            i <= v.len(),
            r@ == ascii_lower_seq(v@.take(i as int)),
        decreases v.len() - i,
    {
        let c = char_ascii_lower(v[i]);
        r.push(c);
        i = i + 1;
        assert(r@ =~= ascii_lower_seq(v@.take(i as int)));
    }
    assert(v@.take(v.len() as int) =~= v@);
    r
}

/// Whether `needle` occurs in `hay` as a contiguous run.
pub open spec fn occurs_in(hay: Seq<char>, needle: Seq<char>) -> bool {
    exists|i: int| 0 <= i <= hay.len() - needle.len() && #[trigger] hay.subrange(i, i + needle.len()) == needle
}

/// Whether `needle` occurs in `hay` at position `i`.
pub fn occurs_at(hay: &Vec<char>, needle: &Vec<char>, i: usize) -> (b: bool)
    requires
        i + needle.len() <= hay.len(),
    ensures
        b == (hay@.subrange(i as int, i + needle.len()) == needle@),
{
    let mut k: usize = 0;
    while k < needle.len()
        invariant
            k <= needle.len(),
            i + needle.len() <= hay.len(),
            hay@.subrange(i as int, i + k) == needle@.take(k as int),
        decreases needle.len() - k,
    {
        if hay[i + k] != needle[k] {
            assert(hay@.subrange(i as int, i + needle.len())[k as int] != needle@[k as int]);
            return false;
        }
        k = k + 1;
        assert(hay@.subrange(i as int, i + k) =~= needle@.take(k as int));
    }
    assert(needle@.take(needle.len() as int) =~= needle@);
    true
}

/// Whether `needle` occurs in `hay`, as `str::contains` with a string pattern answers.
pub fn contains_chars(hay: &Vec<char>, needle: &Vec<char>) -> (b: bool)
    ensures
        b == occurs_in(hay@, needle@),
{
    if needle.len() == 0 {
        assert(hay@.subrange(0, 0 + needle@.len() as int) =~= needle@);
        return true;
    }
    if needle.len() > hay.len() {
        return false;
    }
    let mut i: usize = 0;
    while i <= hay.len() - needle.len()
        invariant
            0 < needle.len() <= hay.len(),
            forall|j: int| 0 <= j < i ==> #[trigger] hay@.subrange(j, j + needle.len()) != needle@,
        decreases hay.len() - i,
    {
        if occurs_at(hay, needle, i) {
            return true;
        }
        i = i + 1;
    }
    false
}

/// `s` with every `from` replaced by `to`.
pub open spec fn replace_char(s: Seq<char>, from: char, to: char) -> Seq<char> {
    s.map_values(|c: char| if c == from { to } else { c })
}

/// The characters of `v` with every `from` replaced by `to`.
pub fn replace_chars(v: &Vec<char>, from: char, to: char) -> (r: Vec<char>)
    ensures
        r@ == replace_char(v@, from, to),
{
    let mut r: Vec<char> = Vec::new();
    let mut i: usize = 0;
    while i < v.len()
        invariant
            i <= v.len(),
            r@ == replace_char(v@.take(i as int), from, to),
        decreases v.len() - i,
    {
        if v[i] == from {
            r.push(to);
        } else {
            r.push(v[i]);
        }
        i = i + 1;
        assert(r@ =~= replace_char(v@.take(i as int), from, to));
    }
    assert(v@.take(v.len() as int) =~= v@);
    r
}

/// The pieces of `s` between occurrences of `sep`, as `str::split` with a
/// character pattern yields them (there is always at least one piece).
pub open spec fn split_on(s: Seq<char>, sep: char) -> Seq<Seq<char>>
    decreases s.len(),
{
    if s.len() == 0 {
        seq![Seq::<char>::empty()]
    } else {
        let init = split_on(s.drop_last(), sep);
        if s.last() == sep {
            init.push(Seq::<char>::empty())
        } else {
            init.update(init.len() - 1, init.last().push(s.last()))
        }
    }
}

/// `split_on` always yields at least one piece.
pub proof fn lemma_split_on_nonempty(s: Seq<char>, sep: char)
    ensures
        split_on(s, sep).len() >= 1,
    decreases s.len(),
{
    if s.len() > 0 {
        lemma_split_on_nonempty(s.drop_last(), sep);
    }
}

/// The pieces of `v` between occurrences of `sep`.
pub fn split_chars(v: &Vec<char>, sep: char) -> (r: Vec<Vec<char>>)
    ensures
        r.deep_view() == split_on(v@, sep),
{
    let mut done: Vec<Vec<char>> = Vec::new();
    let mut cur: Vec<char> = Vec::new();
    let mut i: usize = 0;
    while i < v.len()
        invariant
            i <= v.len(),
            split_on(v@.take(i as int), sep) == done.deep_view().push(cur@),
        decreases v.len() - i,
    {
        let ghost before = v@.take(i as int);
        let ghost old_done = done.deep_view();
        let ghost old_cur = cur@;
        let c = v[i];
        i = i + 1;
        proof {
            assert(v@.take(i as int).drop_last() =~= before);
            assert(v@.take(i as int).last() == c);
            lemma_split_on_nonempty(before, sep);
        }
        if c == sep {
            assert(cur.deep_view() =~= cur@);
            let finished = cur;
            done.push(finished);
            cur = Vec::new();
            assert(done.deep_view() =~= old_done.push(old_cur));
            assert(split_on(v@.take(i as int), sep) =~= done.deep_view().push(cur@));
        } else {
            cur.push(c);
            assert(done.deep_view() =~= old_done);
            assert(split_on(v@.take(i as int), sep) =~= old_done.push(old_cur).update(
                old_done.len() as int,
                old_cur.push(c),
            ));
            assert(split_on(v@.take(i as int), sep) =~= done.deep_view().push(cur@));
        }
    }
    assert(v@.take(v.len() as int) =~= v@);
    let ghost old_done = done.deep_view();
    let ghost last_piece = cur@;
    assert(cur.deep_view() =~= cur@);
    done.push(cur);
    assert(done.deep_view() =~= old_done.push(last_piece));
    assert(done.deep_view() =~= split_on(v@, sep));
    done
}

/// The pieces of `parts` joined with `sep` between neighbours, as `join` on a
/// list of strings gives it.
pub open spec fn join_with(parts: Seq<Seq<char>>, sep: char) -> Seq<char>
    decreases parts.len(),
{
    if parts.len() == 0 {
        Seq::<char>::empty()
    } else if parts.len() == 1 {
        parts[0]
    } else {
        join_with(parts.drop_last(), sep).push(sep) + parts.last()
    }
}

/// The pieces of `parts` joined with `sep`.
pub fn join_chars(parts: &Vec<Vec<char>>, sep: char) -> (r: Vec<char>)
    ensures
        r@ == join_with(parts.deep_view(), sep),
{
    let mut r: Vec<char> = Vec::new();
    let mut i: usize = 0;
    while i < parts.len()
        invariant
            i <= parts.len(),
            r@ == join_with(parts.deep_view().take(i as int), sep),
        decreases parts.len() - i,
    {
        let ghost prev = r@;
        if i > 0 {
            r.push(sep);
        }
        let piece = &parts[i];
        let mut k: usize = 0;
        let ghost mid = r@;
        while k < piece.len()
            invariant
                k <= piece.len(),
                r@ == mid + piece@.take(k as int),
            decreases piece.len() - k,
        {
            r.push(piece[k]);
            k = k + 1;
            assert(r@ =~= mid + piece@.take(k as int));
        }
        proof {
            assert(piece@.take(piece.len() as int) =~= piece@);
            let dv = parts.deep_view();
            assert(dv[i as int] =~= piece@);
            assert(dv.take(i + 1).drop_last() =~= dv.take(i as int));
            if i == 0 {
                assert(mid =~= Seq::<char>::empty());
                assert(r@ =~= join_with(dv.take(1), sep));
            }
        }
        i = i + 1;
    }
    assert(parts.deep_view().take(parts.len() as int) =~= parts.deep_view());
    r
}

/// The index of the last `c` in `s`, or -1 when `c` does not occur.
pub open spec fn last_index_of(s: Seq<char>, c: char) -> int
    decreases s.len(),
{
    if s.len() == 0 {
        -1
    } else if s.last() == c {
        s.len() - 1
    } else {
        last_index_of(s.drop_last(), c)
    }
}

/// `last_index_of` is -1 or the index of a `c`, and no `c` stands after it.
pub proof fn lemma_last_index_of(s: Seq<char>, c: char)
    ensures
        -1 <= last_index_of(s, c) < s.len(),
        last_index_of(s, c) >= 0 ==> s[last_index_of(s, c)] == c,
        forall|k: int| last_index_of(s, c) < k < s.len() ==> s[k] != c,
    decreases s.len(),
{
    if s.len() > 0 && s.last() != c {
        lemma_last_index_of(s.drop_last(), c);
        assert forall|k: int| last_index_of(s, c) < k < s.len() implies s[k] != c by {
            if k < s.len() - 1 {
                assert(s.drop_last()[k] == s[k]);
            }
        }
    }
}

/// The index of the last `c` in `v`, if any.
pub fn rfind_char(v: &Vec<char>, c: char) -> (r: Option<usize>)
    ensures
        match r {
            Some(k) => k as int == last_index_of(v@, c) && k < v.len(),
            None => last_index_of(v@, c) == -1,
        },
{
    let mut j: usize = v.len();
    assert(v@.take(j as int) =~= v@);
    while j > 0
        invariant
            j <= v.len(),
            last_index_of(v@, c) == last_index_of(v@.take(j as int), c),
        decreases j,
    {
        assert(v@.take(j as int).drop_last() =~= v@.take(j - 1));
        if v[j - 1] == c {
            proof {
                lemma_last_index_of(v@, c);
            }
            return Some(j - 1);
        }
        j = j - 1;
    }
    None
}

/// The characters of `v` from `lo` up to, not including, `hi`.
pub fn slice_chars(v: &Vec<char>, lo: usize, hi: usize) -> (r: Vec<char>)
    requires
        lo <= hi <= v.len(),
    ensures
        r@ == v@.subrange(lo as int, hi as int),
{
    let mut r: Vec<char> = Vec::new();
    let mut i: usize = lo;
    while i < hi
        invariant
            lo <= i <= hi <= v.len(),
            r@ == v@.subrange(lo as int, i as int),
        decreases hi - i,
    {
        r.push(v[i]);
        i = i + 1;
        assert(r@ =~= v@.subrange(lo as int, i as int));
    }
    r
}

/// Whether `v` holds exactly the characters of `lit`.
pub fn chars_eq(v: &Vec<char>, lit: &str) -> (b: bool)
    ensures
        b == (v@ == lit@),
{
    let w = chars_of(lit);
    if v.len() != w.len() {
        return false;
    }
    let mut i: usize = 0;
    while i < v.len()
        invariant
            i <= v.len() == w.len(),
            w@ == lit@,
            forall|k: int| 0 <= k < i ==> v@[k] == w@[k],
        decreases v.len() - i,
    {
        if v[i] != w[i] {
            return false;
        }
        i = i + 1;
    }
    assert(v@ =~= w@);
    true
}

} // verus!
