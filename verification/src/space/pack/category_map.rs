//! The ordered map from category names to categories.
use super::{Category, CategoryView};
use indexmap::IndexMap;
use vstd::prelude::*;

verus! {

/// Categories by name, in the order in which their names were first inserted.
///
/// Holds an `indexmap::IndexMap<String, Category>`, whose contents are known
/// through `category_entries` and the methods below.
#[verifier::external_body]
pub struct CategoryMap {
    map: IndexMap<String, Category>,
}

/// The entries of the map, in order: each name with the view of its category.
pub uninterp spec fn category_entries(m: CategoryMap) -> Seq<(Seq<char>, CategoryView)>;

/// Position of the first entry at or after `i` whose name is `key`.
pub open spec fn key_position_from(
    entries: Seq<(Seq<char>, CategoryView)>,
    key: Seq<char>,
    i: int,
) -> Option<int>
    decreases entries.len() - i,
{
    if i < 0 || i >= entries.len() {
        None
    } else if entries[i].0 == key {
        Some(i)
    } else {
        key_position_from(entries, key, i + 1)
    }
}

/// Position of the entry whose name is `key`, if there is one.
pub open spec fn key_position(entries: Seq<(Seq<char>, CategoryView)>, key: Seq<char>) -> Option<
    int,
> {
    key_position_from(entries, key, 0)
}

/// The entries after inserting `value` under `key`: an entry with that name
/// keeps its place and takes the new value; otherwise the pair goes last.
pub open spec fn entries_insert(
    entries: Seq<(Seq<char>, CategoryView)>,
    key: Seq<char>,
    value: CategoryView,
) -> Seq<(Seq<char>, CategoryView)> {
    match key_position(entries, key) {
        Some(i) => entries.update(i, (key, value)),
        None => entries.push((key, value)),
    }
}

pub proof fn lemma_key_position_from(entries: Seq<(Seq<char>, CategoryView)>, key: Seq<char>, i: int)
    requires
        0 <= i <= entries.len(),
    ensures
        key_position_from(entries, key, i) matches Some(p) ==> i <= p < entries.len()
            && entries[p].0 == key && forall|q: int| i <= q < p ==> entries[q].0 != key,
        key_position_from(entries, key, i) is None ==> forall|q: int|
            i <= q < entries.len() ==> entries[q].0 != key,
    decreases entries.len() - i,
{
    if i < entries.len() {
        lemma_key_position_from(entries, key, i + 1);
    }
}

/// An empty map.
///
/// Wraps `IndexMap::default`, which the source documents as returning an
/// empty map.
#[verifier::external_body]
fn empty_map() -> (m: CategoryMap)
    ensures
        category_entries(m) == Seq::<(Seq<char>, CategoryView)>::empty(),
{
    CategoryMap { map: IndexMap::default() }
}

/// Inserts a category under a name.
///
/// Wraps `IndexMap::insert`. Its documentation: if an equal key is present,
/// the key keeps its place in the order, its value is replaced and the old one
/// is returned; otherwise the pair is inserted last and `None` is returned.
#[verifier::external_body]
fn map_insert(m: &mut CategoryMap, key: String, value: Category) -> (r: Option<Category>)
    ensures
        category_entries(*final(m)) == entries_insert(category_entries(*old(m)), key@, value@),
        match key_position(category_entries(*old(m)), key@) {
            Some(i) => r matches Some(v) && v@ == category_entries(*old(m))[i].1,
            None => r is None,
        },
{
    m.map.insert(key, value)
}

/// The number of entries.
///
/// Wraps `IndexMap::len`, documented as the number of key-value pairs.
#[verifier::external_body]
fn map_len(m: &CategoryMap) -> (n: usize)
    ensures
        n == category_entries(*m).len(),
{
    m.map.len()
}

/// The entry at a position.
///
/// Wraps `IndexMap::get_index`, documented to give the pair at the position
/// for `0 <= index < len` and `None` otherwise.
#[verifier::external_body]
fn map_get_index(m: &CategoryMap, index: usize) -> (r: Option<(&String, &Category)>)
    ensures
        match r {
            Some((k, v)) => index < category_entries(*m).len() && (k@, v@) == category_entries(
                *m,
            )[index as int],
            None => index >= category_entries(*m).len(),
        },
{
    m.map.get_index(index)
}

/// The category stored under a name.
///
/// Wraps `IndexMap::get`, documented to give the value stored for the key if
/// it is present and `None` otherwise.
#[verifier::external_body]
fn map_get<'a>(m: &'a CategoryMap, key: &str) -> (r: Option<&'a Category>)
    ensures
        match key_position(category_entries(*m), key@) {
            Some(i) => r matches Some(v) && v@ == category_entries(*m)[i].1,
            None => r is None,
        },
{
    m.map.get(key)
}

impl CategoryMap {
    pub open spec fn entries(&self) -> Seq<(Seq<char>, CategoryView)> {
        category_entries(*self)
    }

    /// An empty map.
    pub fn new() -> (m: CategoryMap)
        ensures
            m.entries() == Seq::<(Seq<char>, CategoryView)>::empty(),
    {
        empty_map()
    }

    /// Inserts `value` under `key`; see `entries_insert`. Returns the category
    /// that was stored under `key` before, if any.
    pub fn insert(&mut self, key: String, value: Category) -> (r: Option<Category>)
        ensures
            final(self).entries() == entries_insert(old(self).entries(), key@, value@),
            match key_position(old(self).entries(), key@) {
                Some(i) => r matches Some(v) && v@ == old(self).entries()[i].1,
                None => r is None,
            },
    {
        map_insert(self, key, value)
    }

    pub fn len(&self) -> (n: usize)
        ensures
            n == self.entries().len(),
    {
        map_len(self)
    }

    /// The name and category at a position in the order of insertion.
    pub fn get_index(&self, index: usize) -> (r: Option<(&String, &Category)>)
        ensures
            match r {
                Some((k, v)) => index < self.entries().len() && (k@, v@) == self.entries()[index as int],
                None => index >= self.entries().len(),
            },
    {
        map_get_index(self, index)
    }

    /// The category stored under `key`.
    pub fn get(&self, key: &str) -> (r: Option<&Category>)
        ensures
            match key_position(self.entries(), key@) {
                Some(i) => r matches Some(v) && v@ == self.entries()[i].1,
                None => r is None,
            },
    {
        map_get(self, key)
    }
}


/// After inserting `value` under `key`, looking `key` up finds `value`; any
/// other name finds what it found before; the map grows by one entry exactly
/// when `key` was not in it.
pub proof fn lemma_insert_then_get(
    entries: Seq<(Seq<char>, CategoryView)>,
    key: Seq<char>,
    value: CategoryView,
    other: Seq<char>,
)
    ensures
        key_position(entries_insert(entries, key, value), key) matches Some(i)
            && entries_insert(entries, key, value)[i].1 == value,
        other != key ==> key_position(entries_insert(entries, key, value), other) == key_position(
            entries,
            other,
        ),
        entries_insert(entries, key, value).len() == entries.len() + if key_position(
            entries,
            key,
        ) is Some {
            0int
        } else {
            1int
        },
{
    let e2 = entries_insert(entries, key, value);
    lemma_key_position_from(entries, key, 0);
    lemma_key_position_from(e2, key, 0);
    lemma_key_position_from(entries, other, 0);
    lemma_key_position_from(e2, other, 0);
    match key_position(entries, key) {
        Some(i) => {
            assert(e2[i].0 == key);
        },
        None => {
            assert(e2[entries.len() as int].0 == key);
        },
    }
    if other != key {
        match key_position(e2, other) {
            Some(j) => {
                assert(entries[j].0 == other);
                if let Some(k) = key_position(entries, other) {
                    assert(e2[k].0 == other);
                }
            },
            None => {
                if let Some(k) = key_position(entries, other) {
                    assert(e2[k].0 == other);
                }
            },
        }
    }
}

} // verus!

verus! {

/// No two entries have the same name.
pub open spec fn names_distinct(entries: Seq<(Seq<char>, CategoryView)>) -> bool {
    forall|i: int, j: int| 0 <= i < j < entries.len() ==> #[trigger] entries[i].0 != #[trigger] entries[j].0
}

/// Inserting keeps the names of a map distinct, as they are in an
/// `IndexMap`: a name already there keeps its one entry.
pub proof fn lemma_insert_keeps_names_distinct(
    entries: Seq<(Seq<char>, CategoryView)>,
    key: Seq<char>,
    value: CategoryView,
)
    requires
        names_distinct(entries),
    ensures
        names_distinct(entries_insert(entries, key, value)),
{
    lemma_key_position_from(entries, key, 0);
    let e2 = entries_insert(entries, key, value);
    assert forall|i: int, j: int| 0 <= i < j < e2.len() implies #[trigger] e2[i].0 != #[trigger] e2[j].0 by {
        match key_position(entries, key) {
            Some(p) => {
                if i == p {
                    assert(entries[j].0 != entries[p].0);
                } else if j == p {
                    assert(entries[i].0 != entries[p].0);
                } else {
                    assert(e2[i] == entries[i] && e2[j] == entries[j]);
                }
            },
            None => {
                if j == entries.len() {
                    assert(e2[i] == entries[i]);
                } else {
                    assert(e2[i] == entries[i] && e2[j] == entries[j]);
                }
            },
        }
    }
}

} // verus!
