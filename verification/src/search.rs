//! Search and grouping of manifest entries for the map list.
use vstd::prelude::*;
use vstd::multiset::Multiset;
use crate::manifest::{MapManifestEntry, shown_title};
use crate::text::{
    ascii_lower_chars, ascii_lower_seq, chars_of, contains_chars, lemma_ascii_lower_idempotent,
    lemma_trim_ascii_lower, occurs_in, trim, trim_chars,
};

verus! {

/// A named group of maps shown as a collapsible section in the map list.
#[derive(Clone, Debug)]
pub struct MapCategory {
    /// Display name of the group.
    pub name: String,
    /// The value of an entry's `category` that places it in this group.
    pub key: String,
    /// Directory prefix under the asset root that the maps of this group share.
    pub directory: String,
}

/// Whether `field`, in ASCII lower case, contains the already lower-cased `query`.
pub open spec fn field_hit(field: Seq<char>, query: Seq<char>) -> bool {
    occurs_in(ascii_lower_seq(field), query)
}

/// Whether an entry matches a search query: a query that is empty once trimmed
/// matches everything; otherwise the trimmed query, in ASCII lower case, must
/// occur in the lower-cased shown title, path, category or section.
pub open spec fn entry_matches(e: MapManifestEntry, query: Seq<char>) -> bool {
    let q = trim(query);
    if q.len() == 0 {
        true
    } else {
        let lq = ascii_lower_seq(q);
        ||| field_hit(shown_title(e), lq)
        ||| field_hit(e.path@, lq)
        ||| (e.category matches Some(c) && field_hit(c@, lq))
        ||| (e.section matches Some(s) && field_hit(s@, lq))
    }
}

/// Search ignores ASCII case in the query: a query matches an entry exactly
/// when its lower-case form does.
pub proof fn lemma_search_ignores_query_case(e: MapManifestEntry, query: Seq<char>)
    ensures
        entry_matches(e, ascii_lower_seq(query)) == entry_matches(e, query),
{
    lemma_trim_ascii_lower(query);
    lemma_ascii_lower_idempotent(trim(query));
}

/// A query that is empty once trimmed matches every entry.
pub proof fn lemma_blank_query_matches_all(e: MapManifestEntry, query: Seq<char>)
    requires
        trim(query).len() == 0,
    ensures
        entry_matches(e, query),
{
}

/// Whether `field` is one of the texts a search looks in: the entry's shown
/// title, its path, its category or its section.
pub open spec fn searched_field(e: MapManifestEntry, field: Seq<char>) -> bool {
    ||| field == shown_title(e)
    ||| field == e.path@
    ||| (e.category matches Some(c) && field == c@)
    ||| (e.section matches Some(s) && field == s@)
}

/// A search finds every entry that holds the query in one of the texts it
/// looks in: when the trimmed query is not empty and, in ASCII lower case,
/// stands at position `i` of the lower-cased shown title, path, category or
/// section, the entry matches, whatever its other texts hold.
pub proof fn lemma_field_hit_matches(e: MapManifestEntry, query: Seq<char>, field: Seq<char>, i: int)
    requires
        trim(query).len() > 0,
        searched_field(e, field),
        0 <= i,
        i + trim(query).len() <= field.len(),
        ascii_lower_seq(field).subrange(i, i + trim(query).len()) == ascii_lower_seq(trim(query)),
    ensures
        entry_matches(e, query),
{
    let lq = ascii_lower_seq(trim(query));
    assert(ascii_lower_seq(field).subrange(i, i + lq.len()) == lq);
    assert(occurs_in(ascii_lower_seq(field), lq));
}

/// A search finds nothing else: when the trimmed query is not empty and, in
/// ASCII lower case, stands in none of the lower-cased texts the search looks
/// in, the entry does not match.
pub proof fn lemma_no_field_hit_no_match(e: MapManifestEntry, query: Seq<char>)
    requires
        trim(query).len() > 0,
        forall|field: Seq<char>, i: int|
            searched_field(e, field) && 0 <= i && i + trim(query).len() <= field.len() ==> #[trigger] ascii_lower_seq(
                field,
            ).subrange(i, i + trim(query).len()) != ascii_lower_seq(trim(query)),
    ensures
        !entry_matches(e, query),
{
    let q = trim(query);
    let lq = ascii_lower_seq(q);
    assert forall|field: Seq<char>| searched_field(e, field) implies !#[trigger] occurs_in(ascii_lower_seq(field), lq) by {
        if occurs_in(ascii_lower_seq(field), lq) {
            let i = choose|i: int| 0 <= i <= ascii_lower_seq(field).len() - lq.len() && #[trigger] ascii_lower_seq(
                field,
            ).subrange(i, i + lq.len()) == lq;
            assert(ascii_lower_seq(field).subrange(i, i + q.len()) != lq);
        }
    }
    assert(searched_field(e, shown_title(e)));
    assert(searched_field(e, e.path@));
    if e.category is Some {
        assert(searched_field(e, e.category->0@));
    }
    if e.section is Some {
        assert(searched_field(e, e.section->0@));
    }
}

/// Whether the lower-cased characters of `field` contain `query`.
fn field_contains(field: &str, query: &Vec<char>) -> (b: bool)
    ensures
        b == field_hit(field@, query@),
{
    let raw = chars_of(field);
    let lower = ascii_lower_chars(&raw);
    contains_chars(&lower, query)
}

/// Whether `entry` matches the search `query` (see `entry_matches`).
pub fn map_entry_matches_search(entry: &MapManifestEntry, query: &str) -> (b: bool)
    ensures
        b == entry_matches(*entry, query@),
{
    let raw = chars_of(query);
    let trimmed = trim_chars(&raw);
    if trimmed.len() == 0 {
        return true;
    }
    let q = ascii_lower_chars(&trimmed);
    if field_contains(entry.display_title(), &q) {
        return true;
    }
    if field_contains(entry.path.as_str(), &q) {
        return true;
    }
    match &entry.category {
        Some(c) => {
            if field_contains(c.as_str(), &q) {
                return true;
            }
        },
        None => {},
    }
    match &entry.section {
        Some(s) => field_contains(s.as_str(), &q),
        None => false,
    }
}

/// Whether an entry names category `c` as its own.
pub open spec fn in_category(e: MapManifestEntry, c: MapCategory) -> bool {
    e.category matches Some(k) && k@ == c.key@
}

/// The index of the first of `cats[..n]` that the entry belongs to, or -1.
pub open spec fn first_category(e: MapManifestEntry, cats: Seq<MapCategory>, n: int) -> int
    decreases n,
{
    if n <= 0 {
        -1
    } else {
        let f = first_category(e, cats, n - 1);
        if f >= 0 {
            f
        } else if in_category(e, cats[n - 1]) {
            n - 1
        } else {
            -1
        }
    }
}

/// The entries of `entries`, in order, whose first category among `cats` has index `t`
/// (-1 for those that belong to none).
pub open spec fn in_group(entries: Seq<&MapManifestEntry>, cats: Seq<MapCategory>, t: int) -> Seq<&MapManifestEntry>
    decreases entries.len(),
{
    if entries.len() == 0 {
        entries
    } else if first_category(*entries.last(), cats, cats.len() as int) == t {
        in_group(entries.drop_last(), cats, t).push(entries.last())
    } else {
        in_group(entries.drop_last(), cats, t)
    }
}

/// A group of the map list taken by views: its heading and its entries.
pub open spec fn group_view(g: (String, Vec<&MapManifestEntry>)) -> (Seq<char>, Seq<&MapManifestEntry>) {
    (g.0@, g.1@)
}

/// The groups of the map list. Without categories the list is flat: a single
/// group, under the `maps` heading, holding every entry in order. With
/// categories: one group per category (possibly empty), each entry in the
/// first category it names, then the "other" group of entries in none, when
/// there are any. (`worlds` names no group.)
pub open spec fn map_groups(
    cats: Seq<MapCategory>,
    entries: Seq<&MapManifestEntry>,
    other: Seq<char>,
    maps: Seq<char>,
    worlds: Seq<char>,
) -> Seq<(Seq<char>, Seq<&MapManifestEntry>)> {
    if cats.len() == 0 {
        seq![(maps, entries)]
    } else {
        let named = Seq::new(cats.len(), |i: int| (cats[i].name@, in_group(entries, cats, i)));
        let rest = in_group(entries, cats, -1);
        if rest.len() > 0 {
            named.push((other, rest))
        } else {
            named
        }
    }
}

/// The index of the first category that `entry` names, if any.
fn first_category_of(entry: &MapManifestEntry, categories: &Vec<MapCategory>) -> (r: Option<usize>)
    ensures
        match r {
            Some(i) => i as int == first_category(*entry, categories@, categories@.len() as int)
                && i < categories.len(),
            None => first_category(*entry, categories@, categories@.len() as int) == -1,
        },
{
    let mut i: usize = 0;
    while i < categories.len()
        invariant
            i <= categories.len(),
            first_category(*entry, categories@, i as int) == -1,
        decreases categories.len() - i,
    {
        let hit = match &entry.category {
            Some(c) => c.eq(&categories[i].key),
            None => false,
        };
        if hit {
            proof {
                lemma_first_category_stays(*entry, categories@, i + 1, categories@.len() as int);
            }
            return Some(i);
        }
        i = i + 1;
    }
    None
}

proof fn lemma_first_category_stays(e: MapManifestEntry, cats: Seq<MapCategory>, m: int, n: int)
    requires
        0 <= m <= n,
        first_category(e, cats, m) >= 0,
    ensures
        first_category(e, cats, n) == first_category(e, cats, m),
    decreases n - m,
{
    if n > m {
        lemma_first_category_stays(e, cats, m, n - 1);
    }
}

/// The entries of `entries`, in order, whose first category has index `target`
/// (or that belong to no category, when `target` is `None`).
fn group_members<'a>(
    entries: &Vec<&'a MapManifestEntry>,
    categories: &Vec<MapCategory>,
    target: Option<usize>,
) -> (r: Vec<&'a MapManifestEntry>)
    ensures
        r@ == in_group(entries@, categories@, match target {
            Some(t) => t as int,
            None => -1,
        }),
{
    let ghost t: int = match target {
        Some(t) => t as int,
        None => -1,
    };
    let mut r: Vec<&'a MapManifestEntry> = Vec::new();
    let mut i: usize = 0;
    while i < entries.len()
        invariant
            i <= entries.len(),
            r@ == in_group(entries@.take(i as int), categories@, t),
            t == match target {
                Some(t) => t as int,
                None => -1,
            },
        decreases entries.len() - i,
    {
        let e = entries[i];
        assert(entries@.take(i + 1).drop_last() =~= entries@.take(i as int));
        assert(entries@.take(i + 1).last() == e);
        let f = first_category_of(e, categories);
        let same = match (f, target) {
            (Some(a), Some(b)) => a == b,
            (None, None) => true,
            _ => false,
        };
        let ghost fc = first_category(*e, categories@, categories@.len() as int);
        assert(same == (fc == t));
        let ghost prev = in_group(entries@.take(i as int), categories@, t);
        if same {
            r.push(e);
            assert(in_group(entries@.take(i + 1), categories@, t) == prev.push(e));
        } else {
            assert(in_group(entries@.take(i + 1), categories@, t) == prev);
        }
        i = i + 1;
    }
    assert(entries@.take(entries.len() as int) =~= entries@);
    r
}

/// Groups the given entries for the map list (see `map_groups`).
pub fn grouped_maps_for_categories<'a>(
    categories: &Vec<MapCategory>,
    entries: Vec<&'a MapManifestEntry>,
    other_label: &str,
    maps_label: &str,
    worlds_label: &str,
) -> (r: Vec<(String, Vec<&'a MapManifestEntry>)>)
    ensures
        r@.map_values(|g: (String, Vec<&'a MapManifestEntry>)| group_view(g)) == map_groups(
            categories@,
            entries@,
            other_label@,
            maps_label@,
            worlds_label@,
        ),
{
    let mut groups: Vec<(String, Vec<&'a MapManifestEntry>)> = Vec::new();
    if categories.len() == 0 {
        groups.push((maps_label.to_owned(), entries));
        assert(groups@.map_values(|g: (String, Vec<&'a MapManifestEntry>)| group_view(g)) =~= map_groups(
            categories@,
            entries@,
            other_label@,
            maps_label@,
            worlds_label@,
        ));
        return groups;
    }
    let mut i: usize = 0;
    while i < categories.len()
        invariant
            i <= categories.len(),
            groups@.len() == i,
            forall|j: int| 0 <= j < i ==> #[trigger] group_view(groups@[j]) == (categories@[j].name@, in_group(entries@, categories@, j)),
        decreases categories.len() - i,
    {
        let members = group_members(&entries, categories, Some(i));
        let name = categories[i].name.as_str().to_owned();
        groups.push((name, members));
        i = i + 1;
    }
    let rest = group_members(&entries, categories, None);
    let ghost named = Seq::new(categories@.len(), |j: int| (categories@[j].name@, in_group(entries@, categories@, j)));
    assert(groups@.map_values(|g: (String, Vec<&'a MapManifestEntry>)| group_view(g)) =~= named);
    if rest.len() > 0 {
        groups.push((other_label.to_owned(), rest));
        assert(groups@.map_values(|g: (String, Vec<&'a MapManifestEntry>)| group_view(g)) =~= named.push(
            (other_label@, in_group(entries@, categories@, -1)),
        ));
    }
    groups
}

/// All entries of `groups`, group after group.
pub open spec fn members(groups: Seq<(Seq<char>, Seq<&MapManifestEntry>)>) -> Seq<&MapManifestEntry>
    decreases groups.len(),
{
    if groups.len() == 0 {
        Seq::empty()
    } else {
        members(groups.drop_last()) + groups.last().1
    }
}

/// The entries of the groups of categories `0..k`, group after group.
spec fn named_members(entries: Seq<&MapManifestEntry>, cats: Seq<MapCategory>, k: int) -> Seq<&MapManifestEntry>
    decreases k,
{
    if k <= 0 {
        Seq::empty()
    } else {
        named_members(entries, cats, k - 1) + in_group(entries, cats, k - 1)
    }
}

proof fn lemma_first_category_range(e: MapManifestEntry, cats: Seq<MapCategory>, n: int)
    ensures
        -1 <= first_category(e, cats, n) < if n < 0 { 0 } else { n },
    decreases n,
{
    if n > 0 {
        lemma_first_category_range(e, cats, n - 1);
    }
}

proof fn lemma_named_members_push(entries: Seq<&MapManifestEntry>, cats: Seq<MapCategory>, x: &MapManifestEntry, k: int)
    requires
        k >= 0,
    ensures
        named_members(entries.push(x), cats, k).to_multiset() =~= (if 0 <= first_category(*x, cats, cats.len() as int) < k {
            named_members(entries, cats, k).to_multiset().insert(x)
        } else {
            named_members(entries, cats, k).to_multiset()
        }),
    decreases k,
{
    broadcast use vstd::seq_lib::group_to_multiset_ensures, vstd::multiset::group_multiset_axioms;

    if k > 0 {
        lemma_named_members_push(entries, cats, x, k - 1);
        assert(entries.push(x).drop_last() =~= entries);
        vstd::seq_lib::lemma_multiset_commutative(named_members(entries.push(x), cats, k - 1), in_group(entries.push(x), cats, k - 1));
        vstd::seq_lib::lemma_multiset_commutative(named_members(entries, cats, k - 1), in_group(entries, cats, k - 1));
    }
}

proof fn lemma_categories_partition(entries: Seq<&MapManifestEntry>, cats: Seq<MapCategory>)
    ensures
        named_members(entries, cats, cats.len() as int).to_multiset().add(in_group(entries, cats, -1).to_multiset())
            =~= entries.to_multiset(),
    decreases entries.len(),
{
    broadcast use vstd::seq_lib::group_to_multiset_ensures, vstd::multiset::group_multiset_axioms;

    if entries.len() > 0 {
        let init = entries.drop_last();
        let x = entries.last();
        assert(init.push(x) =~= entries);
        lemma_categories_partition(init, cats);
        lemma_named_members_push(init, cats, x, cats.len() as int);
        lemma_first_category_range(*x, cats, cats.len() as int);
        assert(entries.drop_last() =~= init);
    } else {
        lemma_named_members_empty(entries, cats, cats.len() as int);
        assert(entries.to_multiset() =~= Multiset::empty());
    }
}

proof fn lemma_named_members_empty(entries: Seq<&MapManifestEntry>, cats: Seq<MapCategory>, k: int)
    requires
        entries.len() == 0,
    ensures
        named_members(entries, cats, k).len() == 0,
    decreases k,
{
    if k > 0 {
        lemma_named_members_empty(entries, cats, k - 1);
    }
}

proof fn lemma_members_of_named(entries: Seq<&MapManifestEntry>, cats: Seq<MapCategory>, k: int)
    requires
        0 <= k <= cats.len(),
    ensures
        members(Seq::new(cats.len(), |i: int| (cats[i].name@, in_group(entries, cats, i))).take(k))
            =~= named_members(entries, cats, k),
    decreases k,
{
    let named = Seq::new(cats.len(), |i: int| (cats[i].name@, in_group(entries, cats, i)));
    if k > 0 {
        lemma_members_of_named(entries, cats, k - 1);
        assert(named.take(k).drop_last() =~= named.take(k - 1));
    } else {
        assert(named.take(0) =~= Seq::<(Seq<char>, Seq<&MapManifestEntry>)>::empty());
    }
}

/// The groups of the map list hold each listed entry exactly once: taken
/// together, their entries are the given entries, counted with multiplicity.
pub proof fn lemma_groups_partition_entries(
    cats: Seq<MapCategory>,
    entries: Seq<&MapManifestEntry>,
    other: Seq<char>,
    maps: Seq<char>,
    worlds: Seq<char>,
)
    ensures
        members(map_groups(cats, entries, other, maps, worlds)).to_multiset() =~= entries.to_multiset(),
{
    broadcast use vstd::seq_lib::group_to_multiset_ensures, vstd::multiset::group_multiset_axioms;

    let groups = map_groups(cats, entries, other, maps, worlds);
    if cats.len() == 0 {
        let e = Seq::<(Seq<char>, Seq<&MapManifestEntry>)>::empty();
        assert(groups =~= e.push((maps, entries)));
        assert(groups.drop_last() =~= e);
        assert(members(e) =~= Seq::<&MapManifestEntry>::empty());
        assert(members(groups) =~= entries);
    } else {
        let named = Seq::new(cats.len(), |i: int| (cats[i].name@, in_group(entries, cats, i)));
        let rest = in_group(entries, cats, -1);
        lemma_members_of_named(entries, cats, cats.len() as int);
        assert(named.take(cats.len() as int) =~= named);
        lemma_categories_partition(entries, cats);
        let nm = named_members(entries, cats, cats.len() as int);
        if rest.len() > 0 {
            assert(groups.drop_last() =~= named);
            vstd::seq_lib::lemma_multiset_commutative(nm, rest);
        } else {
            assert(rest.to_multiset() =~= Multiset::empty());
        }
    }
}

/// A section of the map list: the value of an entry's `section` that places it
/// there, and the heading shown for it.
#[derive(Clone, Debug)]
pub struct MapSection {
    pub key: String,
    pub name: String,
}

/// Which entries a part of the map list shows, by their section: all of them,
/// those of one section, or those of none.
pub enum SectionScope {
    Any,
    Named(String),
    Unsectioned,
}

/// Whether an entry's section puts it in `scope`.
pub open spec fn in_scope(e: MapManifestEntry, scope: SectionScope) -> bool {
    match scope {
        SectionScope::Any => true,
        SectionScope::Named(k) => e.section matches Some(s) && s@ == k@,
        SectionScope::Unsectioned => e.section is None,
    }
}

/// The entries of `maps`, in order, that are in `scope` and match `query`.
pub open spec fn listed(maps: Seq<MapManifestEntry>, scope: SectionScope, query: Seq<char>) -> Seq<MapManifestEntry>
    decreases maps.len(),
{
    if maps.len() == 0 {
        maps
    } else if in_scope(maps.last(), scope) && entry_matches(maps.last(), query) {
        listed(maps.drop_last(), scope, query).push(maps.last())
    } else {
        listed(maps.drop_last(), scope, query)
    }
}

/// The entries taken by value.
pub open spec fn entry_values(v: Seq<&MapManifestEntry>) -> Seq<MapManifestEntry> {
    v.map_values(|e: &MapManifestEntry| *e)
}

/// The entries of `maps`, in order, that the part of the map list for `scope`
/// shows under the search `query`.
pub fn entries_in_scope<'a>(maps: &'a Vec<MapManifestEntry>, scope: &SectionScope, query: &str) -> (r: Vec<&'a MapManifestEntry>)
    ensures
        entry_values(r@) == listed(maps@, *scope, query@),
{
    let mut r: Vec<&'a MapManifestEntry> = Vec::new();
    let mut i: usize = 0;
    while i < maps.len()
        invariant
            i <= maps.len(),
            entry_values(r@) == listed(maps@.take(i as int), *scope, query@),
        decreases maps.len() - i,
    {
        let e = &maps[i];
        assert(maps@.take(i + 1).drop_last() =~= maps@.take(i as int));
        assert(maps@.take(i + 1).last() == *e);
        let scoped = match scope {
            SectionScope::Any => true,
            SectionScope::Named(k) => match &e.section {
                Some(s) => s.eq(k),
                None => false,
            },
            SectionScope::Unsectioned => e.section.is_none(),
        };
        let ghost prev = entry_values(r@);
        if scoped && map_entry_matches_search(e, query) {
            r.push(e);
            assert(entry_values(r@) =~= prev.push(*e));
        }
        i = i + 1;
    }
    assert(maps@.take(maps.len() as int) =~= maps@);
    r
}

/// A block of the map list: a heading, when it has one, and its entries.
pub struct ListBlock<'a> {
    pub heading: Option<String>,
    pub entries: Vec<&'a MapManifestEntry>,
}

/// A block taken by value.
pub open spec fn block_view(b: ListBlock) -> (Option<Seq<char>>, Seq<MapManifestEntry>) {
    (
        match b.heading {
            Some(h) => Some(h@),
            None => None,
        },
        entry_values(b.entries@),
    )
}

/// The blocks of the visible sections among `sections`, in order: each
/// headed by its section's name and holding the entries of that section that
/// match `query`; sections with no such entry are left out.
pub open spec fn section_blocks(
    maps: Seq<MapManifestEntry>,
    sections: Seq<MapSection>,
    visible: Seq<Seq<char>>,
    query: Seq<char>,
) -> Seq<(Option<Seq<char>>, Seq<MapManifestEntry>)>
    decreases sections.len(),
{
    if sections.len() == 0 {
        Seq::empty()
    } else {
        let s = sections.last();
        let rest = section_blocks(maps, sections.drop_last(), visible, query);
        let l = listed(maps, SectionScope::Named(s.key), query);
        if visible.contains(s.key@) && l.len() > 0 {
            rest.push((Some(s.name@), l))
        } else {
            rest
        }
    }
}

/// What the map list shows of `maps` for `query`, and whether it shows that
/// there are no maps instead. A list limited to one section shows one block of
/// the matching entries of that section, or that there are none. A list with
/// no sections shows one block of all matching entries. Otherwise it shows the
/// blocks of the visible sections, then one headed `other` of the matching
/// entries that have no section, when there are any.
pub open spec fn list_blocks(
    maps: Seq<MapManifestEntry>,
    section_filter: Option<Seq<char>>,
    sections: Seq<MapSection>,
    visible: Seq<Seq<char>>,
    query: Seq<char>,
    other: Seq<char>,
) -> (Seq<(Option<Seq<char>>, Seq<MapManifestEntry>)>, bool) {
    match section_filter {
        Some(f) => {
            let l = listed_in_section(maps, f, query);
            if l.len() == 0 {
                (Seq::empty(), true)
            } else {
                (seq![(None, l)], false)
            }
        },
        None => if sections.len() == 0 {
            (seq![(None, listed(maps, SectionScope::Any, query))], false)
        } else {
            let named = section_blocks(maps, sections, visible, query);
            let rest = listed(maps, SectionScope::Unsectioned, query);
            if rest.len() > 0 {
                (named.push((Some(other), rest)), false)
            } else {
                (named, false)
            }
        },
    }
}

/// The entries of `maps` in the section `key` that match `query`, in order.
pub open spec fn listed_in_section(maps: Seq<MapManifestEntry>, key: Seq<char>, query: Seq<char>) -> Seq<MapManifestEntry>
    decreases maps.len(),
{
    if maps.len() == 0 {
        maps
    } else if (maps.last().section matches Some(s) && s@ == key) && entry_matches(maps.last(), query) {
        listed_in_section(maps.drop_last(), key, query).push(maps.last())
    } else {
        listed_in_section(maps.drop_last(), key, query)
    }
}

proof fn lemma_listed_named(maps: Seq<MapManifestEntry>, key: String, query: Seq<char>)
    ensures
        listed(maps, SectionScope::Named(key), query) == listed_in_section(maps, key@, query),
    decreases maps.len(),
{
    if maps.len() > 0 {
        lemma_listed_named(maps.drop_last(), key, query);
    }
}

/// Whether `key` is among `visible`.
fn is_visible(visible: &Vec<String>, key: &String) -> (b: bool)
    ensures
        b == string_views(visible@).contains(key@),
{
    let mut i: usize = 0;
    while i < visible.len()
        invariant
            i <= visible.len(),
            forall|k: int| 0 <= k < i ==> visible@[k]@ != key@,
        decreases visible.len() - i,
    {
        if visible[i].eq(key) {
            assert(string_views(visible@)[i as int] == key@);
            return true;
        }
        i = i + 1;
    }
    assert forall|k: int| 0 <= k < string_views(visible@).len() implies string_views(visible@)[k] != key@ by {
        assert(string_views(visible@)[k] == visible@[k]@);
    }
    false
}

/// The strings taken by their characters.
pub open spec fn string_views(v: Seq<String>) -> Seq<Seq<char>> {
    v.map_values(|s: String| s@)
}

/// The blocks that the map list shows (see `list_blocks`); the flag is set
/// when it shows that there are no maps instead. `visible` holds the keys of
/// the sections shown.
pub fn map_list_blocks<'a>(
    maps: &'a Vec<MapManifestEntry>,
    section_filter: Option<&str>,
    sections: &Vec<MapSection>,
    visible: &Vec<String>,
    query: &str,
    other_label: &str,
) -> (r: (Vec<ListBlock<'a>>, bool))
    ensures
        (r.0@.map_values(|b: ListBlock<'a>| block_view(b)), r.1) == list_blocks(
            maps@,
            match section_filter {
                Some(f) => Some(f@),
                None => None,
            },
            sections@,
            string_views(visible@),
            query@,
            other_label@,
        ),
{
    let mut blocks: Vec<ListBlock<'a>> = Vec::new();
    match section_filter {
        Some(f) => {
            let key = f.to_string();
            let scope = SectionScope::Named(key);
            let entries = entries_in_scope(maps, &scope, query);
            proof {
                lemma_listed_named(maps@, key, query@);
            }
            if entries.len() == 0 {
                assert(blocks@.map_values(|b: ListBlock<'a>| block_view(b)) =~= Seq::empty());
                return (blocks, true);
            }
            blocks.push(ListBlock { heading: None, entries });
            assert(blocks@.map_values(|b: ListBlock<'a>| block_view(b)) =~= seq![(None::<Seq<char>>, listed_in_section(maps@, f@, query@))]);
            return (blocks, false);
        },
        None => {},
    }
    if sections.len() == 0 {
        let entries = entries_in_scope(maps, &SectionScope::Any, query);
        blocks.push(ListBlock { heading: None, entries });
        assert(blocks@.map_values(|b: ListBlock<'a>| block_view(b)) =~= seq![(None::<Seq<char>>, listed(maps@, SectionScope::Any, query@))]);
        return (blocks, false);
    }
    let ghost vis = string_views(visible@);
    let mut i: usize = 0;
    while i < sections.len()
        invariant
            i <= sections.len(),
            vis == string_views(visible@),
            blocks@.map_values(|b: ListBlock<'a>| block_view(b)) == section_blocks(maps@, sections@.take(i as int), vis, query@),
        decreases sections.len() - i,
    {
        let section = &sections[i];
        assert(sections@.take(i + 1).drop_last() =~= sections@.take(i as int));
        assert(sections@.take(i + 1).last() == *section);
        let ghost before = blocks@.map_values(|b: ListBlock<'a>| block_view(b));
        if is_visible(visible, &section.key) {
            let key = section.key.clone();
            let scope = SectionScope::Named(key);
            let entries = entries_in_scope(maps, &scope, query);
            if entries.len() > 0 {
                let name = section.name.clone();
                blocks.push(ListBlock { heading: Some(name), entries });
                assert(blocks@.map_values(|b: ListBlock<'a>| block_view(b)) =~= before.push(
                    (Some(section.name@), listed(maps@, SectionScope::Named(section.key), query@)),
                ));
            }
        }
        proof {
            lemma_listed_named(maps@, section.key, query@);
        }
        i = i + 1;
    }
    assert(sections@.take(sections.len() as int) =~= sections@);
    let rest = entries_in_scope(maps, &SectionScope::Unsectioned, query);
    if rest.len() > 0 {
        let ghost before = blocks@.map_values(|b: ListBlock<'a>| block_view(b));
        blocks.push(ListBlock { heading: Some(other_label.to_string()), entries: rest });
        assert(blocks@.map_values(|b: ListBlock<'a>| block_view(b)) =~= before.push(
            (Some(other_label@), listed(maps@, SectionScope::Unsectioned, query@)),
        ));
    }
    (blocks, false)
}

proof fn lemma_listed_members(maps: Seq<MapManifestEntry>, scope: SectionScope, query: Seq<char>)
    ensures
        forall|k: int|
            0 <= k < listed(maps, scope, query).len() ==> in_scope(#[trigger] listed(maps, scope, query)[k], scope)
                && entry_matches(listed(maps, scope, query)[k], query),
        forall|m: int|
            0 <= m < maps.len() && in_scope(#[trigger] maps[m], scope) && entry_matches(maps[m], query) ==> listed(
                maps,
                scope,
                query,
            ).contains(maps[m]),
    decreases maps.len(),
{
    if maps.len() > 0 {
        let init = maps.drop_last();
        lemma_listed_members(init, scope, query);
        let li = listed(init, scope, query);
        let l = listed(maps, scope, query);
        assert forall|k: int| 0 <= k < l.len() implies in_scope(#[trigger] l[k], scope) && entry_matches(l[k], query) by {
            if k < li.len() {
                assert(l[k] == li[k]);
            }
        }
        assert forall|m: int|
            0 <= m < maps.len() && in_scope(#[trigger] maps[m], scope) && entry_matches(maps[m], query) implies l.contains(
                maps[m],
            ) by {
            if m < init.len() {
                assert(init[m] == maps[m]);
                let k = choose|k: int| 0 <= k < li.len() && li[k] == init[m];
                assert(l[k] == li[k]);
            } else {
                assert(l[l.len() - 1] == maps.last());
            }
        }
    }
}

proof fn lemma_listed_in_section_members(maps: Seq<MapManifestEntry>, key: Seq<char>, query: Seq<char>)
    ensures
        forall|k: int|
            0 <= k < listed_in_section(maps, key, query).len() ==> entry_matches(
                #[trigger] listed_in_section(maps, key, query)[k],
                query,
            ),
    decreases maps.len(),
{
    if maps.len() > 0 {
        let init = maps.drop_last();
        lemma_listed_in_section_members(init, key, query);
        let li = listed_in_section(init, key, query);
        let l = listed_in_section(maps, key, query);
        assert forall|k: int| 0 <= k < l.len() implies entry_matches(#[trigger] l[k], query) by {
            if k < li.len() {
                assert(l[k] == li[k]);
            }
        }
    }
}

proof fn lemma_section_blocks_shape(
    maps: Seq<MapManifestEntry>,
    sections: Seq<MapSection>,
    visible: Seq<Seq<char>>,
    query: Seq<char>,
)
    ensures
        forall|j: int|
            0 <= j < section_blocks(maps, sections, visible, query).len() ==> (#[trigger] section_blocks(
                maps,
                sections,
                visible,
                query,
            )[j]).1.len() > 0 && forall|k: int|
                0 <= k < section_blocks(maps, sections, visible, query)[j].1.len() ==> entry_matches(
                    #[trigger] section_blocks(maps, sections, visible, query)[j].1[k],
                    query,
                ),
        forall|t: int, m: int|
            0 <= t < sections.len() && visible.contains(#[trigger] sections[t].key@) && 0 <= m < maps.len()
                && (#[trigger] maps[m].section matches Some(x) && x@ == sections[t].key@) && entry_matches(
                maps[m],
                query,
            ) ==> exists|j: int|
                0 <= j < section_blocks(maps, sections, visible, query).len() && #[trigger] section_blocks(
                    maps,
                    sections,
                    visible,
                    query,
                )[j].0 == Some(sections[t].name@) && section_blocks(maps, sections, visible, query)[j].1.contains(
                    maps[m],
                ),
    decreases sections.len(),
{
    if sections.len() > 0 {
        let init = sections.drop_last();
        let sl = sections.last();
        lemma_section_blocks_shape(maps, init, visible, query);
        lemma_listed_members(maps, SectionScope::Named(sl.key), query);
        let rest = section_blocks(maps, init, visible, query);
        let b = section_blocks(maps, sections, visible, query);
        let l = listed(maps, SectionScope::Named(sl.key), query);
        assert forall|j: int| 0 <= j < b.len() implies (#[trigger] b[j]).1.len() > 0 && forall|k: int|
            0 <= k < b[j].1.len() ==> entry_matches(#[trigger] b[j].1[k], query) by {
            if j < rest.len() {
                assert(b[j] == rest[j]);
            } else {
                assert(b[j] == (Some(sl.name@), l));
                assert forall|k: int| 0 <= k < b[j].1.len() implies entry_matches(#[trigger] b[j].1[k], query) by {
                    assert(b[j].1[k] == l[k]);
                }
            }
        }
        assert forall|t: int, m: int|
            0 <= t < sections.len() && visible.contains(#[trigger] sections[t].key@) && 0 <= m < maps.len()
                && (#[trigger] maps[m].section matches Some(x) && x@ == sections[t].key@) && entry_matches(
                maps[m],
                query,
            ) implies exists|j: int|
            0 <= j < b.len() && #[trigger] b[j].0 == Some(sections[t].name@) && b[j].1.contains(maps[m]) by {
            if t < init.len() {
                assert(init[t] == sections[t]);
                let j = choose|j: int|
                    0 <= j < rest.len() && #[trigger] rest[j].0 == Some(init[t].name@) && rest[j].1.contains(maps[m]);
                assert(b[j] == rest[j]);
                assert(b[j].0 == Some(sections[t].name@) && b[j].1.contains(maps[m]));
            } else {
                assert(sections[t] == sl);
                assert(in_scope(maps[m], SectionScope::Named(sl.key)));
                assert(l.contains(maps[m]));
                assert(b == rest.push((Some(sl.name@), l)));
                let j = rest.len() as int;
                assert(b[j] == (Some(sl.name@), l));
                assert(b[j].0 == Some(sections[t].name@) && b[j].1.contains(maps[m]));
            }
        }
    }
}

/// In a list split by sections, or limited to one, every block shows at
/// least one entry, and every entry shown matches the query: a section with
/// no matching entry gets no block.
pub proof fn lemma_sectioned_blocks_are_nonempty(
    maps: Seq<MapManifestEntry>,
    section_filter: Option<Seq<char>>,
    sections: Seq<MapSection>,
    visible: Seq<Seq<char>>,
    query: Seq<char>,
    other: Seq<char>,
)
    requires
        section_filter is Some || sections.len() > 0,
    ensures
        forall|j: int|
            0 <= j < list_blocks(maps, section_filter, sections, visible, query, other).0.len() ==> (
            #[trigger] list_blocks(maps, section_filter, sections, visible, query, other).0[j]).1.len() > 0,
        forall|j: int, k: int|
            0 <= j < list_blocks(maps, section_filter, sections, visible, query, other).0.len() && 0 <= k
                < list_blocks(maps, section_filter, sections, visible, query, other).0[j].1.len() ==> entry_matches(
                #[trigger] list_blocks(maps, section_filter, sections, visible, query, other).0[j].1[k],
                query,
            ),
{
    let b = list_blocks(maps, section_filter, sections, visible, query, other).0;
    match section_filter {
        Some(f) => {
            lemma_listed_in_section_members(maps, f, query);
            let l = listed_in_section(maps, f, query);
            assert forall|j: int, k: int| 0 <= j < b.len() && 0 <= k < b[j].1.len() implies entry_matches(
                #[trigger] b[j].1[k],
                query,
            ) by {
                assert(b[j].1 == l);
            }
        },
        None => {
            lemma_section_blocks_shape(maps, sections, visible, query);
            lemma_listed_members(maps, SectionScope::Unsectioned, query);
            let named = section_blocks(maps, sections, visible, query);
            let rest = listed(maps, SectionScope::Unsectioned, query);
            assert forall|j: int| 0 <= j < b.len() implies (#[trigger] b[j]).1.len() > 0 by {
                if j < named.len() {
                    assert(b[j] == named[j]);
                }
            }
            assert forall|j: int, k: int| 0 <= j < b.len() && 0 <= k < b[j].1.len() implies entry_matches(
                #[trigger] b[j].1[k],
                query,
            ) by {
                if j < named.len() {
                    assert(b[j] == named[j]);
                } else {
                    assert(b[j].1 == rest);
                }
            }
        },
    }
}

/// In a list split by sections, every visible section that holds an entry
/// matching the query gets a block, headed by the section's name, that shows
/// that entry; and every matching entry with no section is shown too.
pub proof fn lemma_matching_entries_are_shown(
    maps: Seq<MapManifestEntry>,
    sections: Seq<MapSection>,
    visible: Seq<Seq<char>>,
    query: Seq<char>,
    other: Seq<char>,
    m: int,
)
    requires
        sections.len() > 0,
        0 <= m < maps.len(),
        entry_matches(maps[m], query),
    ensures
        forall|t: int|
            0 <= t < sections.len() && visible.contains(#[trigger] sections[t].key@) && (maps[m].section matches Some(
                x,
            ) && x@ == sections[t].key@) ==> exists|j: int|
                0 <= j < list_blocks(maps, None, sections, visible, query, other).0.len() && #[trigger] list_blocks(
                    maps,
                    None,
                    sections,
                    visible,
                    query,
                    other,
                ).0[j].0 == Some(sections[t].name@) && list_blocks(maps, None, sections, visible, query, other).0[j].1.contains(
                    maps[m],
                ),
        maps[m].section is None ==> exists|j: int|
            0 <= j < list_blocks(maps, None, sections, visible, query, other).0.len() && #[trigger] list_blocks(
                maps,
                None,
                sections,
                visible,
                query,
                other,
            ).0[j].0 == Some(other) && list_blocks(maps, None, sections, visible, query, other).0[j].1.contains(
                maps[m],
            ),
{
    lemma_section_blocks_shape(maps, sections, visible, query);
    lemma_listed_members(maps, SectionScope::Unsectioned, query);
    let named = section_blocks(maps, sections, visible, query);
    let rest = listed(maps, SectionScope::Unsectioned, query);
    let b = list_blocks(maps, None, sections, visible, query, other).0;
    assert forall|t: int|
        0 <= t < sections.len() && visible.contains(#[trigger] sections[t].key@) && (maps[m].section matches Some(x)
            && x@ == sections[t].key@) implies exists|j: int|
        0 <= j < b.len() && #[trigger] b[j].0 == Some(sections[t].name@) && b[j].1.contains(maps[m]) by {
        let j = choose|j: int|
            0 <= j < named.len() && #[trigger] named[j].0 == Some(sections[t].name@) && named[j].1.contains(maps[m]);
        assert(b[j] == named[j]);
        assert(b[j].0 == Some(sections[t].name@) && b[j].1.contains(maps[m]));
    }
    if maps[m].section is None {
        assert(in_scope(maps[m], SectionScope::Unsectioned));
        assert(rest.contains(maps[m]));
        assert(b == named.push((Some(other), rest)));
        let j = named.len() as int;
        assert(b[j] == (Some(other), rest));
        assert(b[j].0 == Some(other) && b[j].1.contains(maps[m]));
    }
}

/// Whether a click on the entry at `clicked` loads it: unless it is the
/// entry already selected.
pub open spec fn click_loads(selected: Option<Seq<char>>, clicked: Seq<char>) -> bool {
    selected != Some(clicked)
}

/// Takes a click on the entry whose path is `clicked`: unless it is already
/// the selected one, it becomes the selection and is to be loaded (`true`);
/// a click on the selected entry changes nothing.
pub fn select_on_click(selected: &mut Option<String>, clicked: &str) -> (load: bool)
    ensures
        load == click_loads(
            match *old(selected) {
                Some(s) => Some(s@),
                None => None,
            },
            clicked@,
        ),
        load ==> (*final(selected) matches Some(s) && s@ == clicked@),
        !load ==> *final(selected) == *old(selected),
{
    let key = clicked.to_string();
    let same = match &*selected {
        Some(s) => s.eq(&key),
        None => false,
    };
    if same {
        return false;
    }
    *selected = Some(key);
    true
}

} // verus!
