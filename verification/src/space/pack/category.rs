//! Categories that record their sub-categories by name only (local id to full
//! id), read with the `bh-` attribute prefix and the display flags, and merged
//! when a category is defined again.
use super::events::{attrs_view, XmlAttribute};
use super::text::{eq_ignore_ascii_case, eq_ignoring_ascii_case, push_char, safe_name};
use super::{stack_view, taco_safe_name, top_of_stack, Pack, PackError, PartialItem, PartialView};
use indexmap::IndexMap;
use vstd::prelude::*;

verus! {

#[verifier::external_type_specification]
#[verifier::external_body]
#[verifier::reject_recursive_types(K)]
#[verifier::reject_recursive_types(V)]
#[verifier::reject_recursive_types(S)]
pub struct ExIndexMap<K, V, S>(IndexMap<K, V, S>);

/// The entries of a map from local ids to full ids, in order.
pub uninterp spec fn id_entries(m: IndexMap<String, String>) -> Seq<(Seq<char>, Seq<char>)>;

pub open spec fn id_position_from(entries: Seq<(Seq<char>, Seq<char>)>, key: Seq<char>, i: int) -> Option<int>
    decreases entries.len() - i,
{
    if i < 0 || i >= entries.len() {
        None
    } else if entries[i].0 == key {
        Some(i)
    } else {
        id_position_from(entries, key, i + 1)
    }
}

pub open spec fn has_id(entries: Seq<(Seq<char>, Seq<char>)>, key: Seq<char>) -> bool {
    id_position_from(entries, key, 0) is Some
}

pub proof fn lemma_id_position_from(entries: Seq<(Seq<char>, Seq<char>)>, key: Seq<char>, i: int)
    requires
        0 <= i <= entries.len(),
    ensures
        id_position_from(entries, key, i) is Some <==> exists|q: int| i <= q < entries.len() && entries[q].0 == key,
    decreases entries.len() - i,
{
    if i < entries.len() {
        lemma_id_position_from(entries, key, i + 1);
        if entries[i].0 == key {
        } else {
            assert((exists|q: int| i <= q < entries.len() && entries[q].0 == key) ==> (exists|q: int| i + 1 <= q < entries.len() && entries[q].0 == key));
        }
    }
}

/// An empty map.
///
/// Wraps `IndexMap::default`, documented to return an empty map.
#[verifier::external_body]
fn new_id_map() -> (m: IndexMap<String, String>)
    ensures
        id_entries(m) == Seq::<(Seq<char>, Seq<char>)>::empty(),
{
    IndexMap::default()
}

/// Whether a key is present.
///
/// Wraps `IndexMap::contains_key`, documented to return `true` if an
/// equivalent key exists in the map.
#[verifier::external_body]
fn id_map_contains(m: &IndexMap<String, String>, key: &String) -> (r: bool)
    ensures
        r == has_id(id_entries(*m), key@),
{
    m.contains_key(key)
}

/// Inserts a key that is not present.
///
/// Wraps `IndexMap::insert`; for a key that is not present it is documented
/// to insert the pair last in order.
#[verifier::external_body]
fn id_map_insert_new(m: &mut IndexMap<String, String>, key: String, value: String)
    requires
        !has_id(id_entries(*old(m)), key@),
    ensures
        id_entries(*final(m)) == id_entries(*old(m)).push((key@, value@)),
{
    m.insert(key, value);
}

/// Takes out all entries, in order.
///
/// Wraps `IndexMap::drain` over the full range, documented to clear the map
/// and yield the removed pairs; the source yields them in the map's order.
#[verifier::external_body]
fn id_map_drain(m: &mut IndexMap<String, String>) -> (r: Vec<(String, String)>)
    ensures
        r@.map_values(|e: (String, String)| (e.0@, e.1@)) == id_entries(*old(m)),
        id_entries(*final(m)) == Seq::<(Seq<char>, Seq<char>)>::empty(),
{
    m.drain(..).collect()
}

/// A marker category.
pub struct Category {
    pub id: String,
    pub full_id: String,
    pub display_name: String,
    pub is_separator: bool,
    pub is_hidden: bool,
    pub default_toggle: bool,
    /// The full id of each sub-category, by its local id.
    pub sub_categories: IndexMap<String, String>,
}

#[verifier::ext_equal]
pub struct CategoryView {
    pub id: Seq<char>,
    pub full_id: Seq<char>,
    pub display_name: Seq<char>,
    pub is_separator: bool,
    pub is_hidden: bool,
    pub default_toggle: bool,
    pub sub_categories: Seq<(Seq<char>, Seq<char>)>,
}

impl View for Category {
    type V = CategoryView;

    open spec fn view(&self) -> CategoryView {
        CategoryView {
            id: self.id@,
            full_id: self.full_id@,
            display_name: self.display_name@,
            is_separator: self.is_separator,
            is_hidden: self.is_hidden,
            default_toggle: self.default_toggle,
            sub_categories: id_entries(self.sub_categories),
        }
    }
}

/// A name without its leading `bh-` prefixes, all of them.
pub open spec fn without_bh_prefix(name: Seq<char>) -> Seq<char>
    decreases name.len(),
{
    if name.len() >= 3 && name[0] == 'b' && name[1] == 'h' && name[2] == '-' {
        without_bh_prefix(name.skip(3))
    } else {
        name
    }
}

/// What `bool::from_str` gives: `true` or `false`, exactly.
pub open spec fn bool_text_value(t: Seq<char>) -> Option<bool> {
    if t == seq!['t', 'r', 'u', 'e'] {
        Some(true)
    } else if t == seq!['f', 'a', 'l', 's', 'e'] {
        Some(false)
    } else {
        None
    }
}

/// What the attributes of a category read so far have given.
pub struct CategoryFields {
    pub id: Seq<char>,
    pub display_name: Option<Seq<char>>,
    pub is_separator: bool,
    pub is_hidden: bool,
    pub default_toggle: bool,
}

pub open spec fn take_flag(flag: bool, value: Seq<char>) -> bool {
    match bool_text_value(value) {
        Some(b) => b,
        None => flag,
    }
}

pub open spec fn category_fields(attrs: Seq<(Seq<char>, Seq<char>)>) -> CategoryFields
    decreases attrs.len(),
{
    if attrs.len() == 0 {
        CategoryFields {
            id: Seq::empty(),
            display_name: None,
            is_separator: false,
            is_hidden: false,
            default_toggle: true,
        }
    } else {
        let acc = category_fields(attrs.drop_last());
        let name = without_bh_prefix(attrs.last().0);
        let value = attrs.last().1;
        if eq_ignoring_ascii_case(name, "name"@) {
            CategoryFields { id: safe_name(value, false), ..acc }
        } else if eq_ignoring_ascii_case(name, "displayname"@) {
            CategoryFields { display_name: Some(value), ..acc }
        } else if eq_ignoring_ascii_case(name, "isseparator"@) {
            CategoryFields { is_separator: take_flag(acc.is_separator, value), ..acc }
        } else if eq_ignoring_ascii_case(name, "ishidden"@) {
            CategoryFields { is_hidden: take_flag(acc.is_hidden, value), ..acc }
        } else if eq_ignoring_ascii_case(name, "defaulttoggle"@) {
            CategoryFields { default_toggle: take_flag(acc.default_toggle, value), ..acc }
        } else {
            acc
        }
    }
}

/// The category that a `MarkerCategory` element with these attributes opens
/// when `stack` is being read.
pub open spec fn category_from_attrs(stack: Seq<PartialView>, attrs: Seq<(Seq<char>, Seq<char>)>) -> CategoryView {
    let f = category_fields(attrs);
    CategoryView {
        id: f.id,
        full_id: match top_of_stack(stack) {
            Some(PartialView::MarkerCategory(parent)) => parent.full_id + seq!['.'] + f.id,
            _ => f.id,
        },
        display_name: match f.display_name {
            Some(d) => d,
            None => f.id,
        },
        is_separator: f.is_separator,
        is_hidden: f.is_hidden,
        default_toggle: f.default_toggle,
        sub_categories: Seq::empty(),
    }
}

/// The sub-categories of `ours` after taking those of `theirs`: each entry
/// of `theirs`, in order, whose local id is not yet present goes last.
pub open spec fn merged_ids(
    ours: Seq<(Seq<char>, Seq<char>)>,
    theirs: Seq<(Seq<char>, Seq<char>)>,
) -> Seq<(Seq<char>, Seq<char>)>
    decreases theirs.len(),
{
    if theirs.len() == 0 {
        ours
    } else {
        let acc = merged_ids(ours, theirs.drop_last());
        if has_id(acc, theirs.last().0) {
            acc
        } else {
            acc.push(theirs.last())
        }
    }
}

fn strip_bh_prefix(name: &str) -> (r: Vec<char>)
    ensures
        r@ == without_bh_prefix(name@),
{
    let t = super::text::chars_of(name);
    let n = t.len();
    let mut i: usize = 0;
    assert(t@.skip(0) == t@);
    while n - i >= 3 && t[i] == 'b' && t[i + 1] == 'h' && t[i + 2] == '-'
        invariant
            n == t@.len(),
            i <= n,
            t@ == name@,
            without_bh_prefix(name@) == without_bh_prefix(t@.skip(i as int)),
        decreases n - i,
    {
        assert(t@.skip(i as int).skip(3) == t@.skip(i + 3));
        i = i + 3;
    }
    let mut r: Vec<char> = Vec::new();
    let mut j = i;
    while j < n
        invariant
            n == t@.len(),
            i <= j <= n,
            r@ == t@.subrange(i as int, j as int),
        decreases n - j,
    {
        r.push(t[j]);
        j = j + 1;
    }
    assert(r@ == t@.skip(i as int));
    r
}

fn vec_eq_ignore_ascii_case(a: &Vec<char>, b: &str) -> (r: bool)
    ensures
        r == eq_ignoring_ascii_case(a@, b@),
{
    let bc = super::text::chars_of(b);
    if a.len() != bc.len() {
        return false;
    }
    let mut i: usize = 0;
    while i < a.len()
        invariant
            a@.len() == bc@.len(),
            bc@ == b@,
            i <= a@.len(),
            forall|j: int| 0 <= j < i ==> super::text::ascii_lower(#[trigger] a@[j]) == super::text::ascii_lower(bc@[j]),
        decreases a@.len() - i,
    {
        if super::text::lower_char(a[i]) != super::text::lower_char(bc[i]) {
            return false;
        }
        i = i + 1;
    }
    true
}

/// Reads a text as a `bool` the way `bool::from_str` does.
pub fn parse_bool(s: &str) -> (r: Option<bool>)
    ensures
        r == bool_text_value(s@),
{
    let t = super::text::chars_of(s);
    if t.len() == 4 && t[0] == 't' && t[1] == 'r' && t[2] == 'u' && t[3] == 'e' {
        assert(t@ == seq!['t', 'r', 'u', 'e']);
        Some(true)
    } else if t.len() == 5 && t[0] == 'f' && t[1] == 'a' && t[2] == 'l' && t[3] == 's' && t[4] == 'e' {
        assert(t@ == seq!['f', 'a', 'l', 's', 'e']);
        Some(false)
    } else {
        proof {
            if t@ == seq!['t', 'r', 'u', 'e'] {
                assert(t@[0] == 't');
            }
            if t@ == seq!['f', 'a', 'l', 's', 'e'] {
                assert(t@[0] == 'f');
            }
        }
        None
    }
}

impl Category {
    /// Reads a `MarkerCategory` element's attributes, each name without its
    /// leading `bh-` prefixes and without regard to ASCII case: `name` (the
    /// id, made safe), `displayname`, and the flags `isseparator`, `ishidden`
    /// and `defaulttoggle`, each kept as it was when its value is neither
    /// `true` nor `false`. Other attributes are not read. Never fails.
    pub fn from_xml(pack: &mut Pack, parse_stack: &[PartialItem], attrs: Vec<XmlAttribute>) -> (r: Result<Category, PackError>)
        ensures
            r matches Ok(c) && c@ == category_from_attrs(stack_view(parse_stack@), attrs_view(attrs@)),
            *final(pack) == *old(pack),
    {
        let mut id = String::new();
        let mut display_name: Option<String> = None;
        let mut is_separator = false;
        let mut is_hidden = false;
        let mut default_toggle = true;
        let ghost av = attrs_view(attrs@);
        let mut i: usize = 0;
        while i < attrs.len()
            invariant
                i <= attrs@.len(),
                av == attrs_view(attrs@),
                category_fields(av.take(i as int)) == (CategoryFields {
                    id: id@,
                    display_name: super::events::opt_text_view(display_name),
                    is_separator,
                    is_hidden,
                    default_toggle,
                }),
            decreases attrs@.len() - i,
        {
            let attr = &attrs[i];
            proof {
                assert(av.take(i + 1).drop_last() == av.take(i as int));
                assert(av.take(i + 1).last() == attr@);
            }
            let attr_name = strip_bh_prefix(attr.name.as_str());
            if vec_eq_ignore_ascii_case(&attr_name, "name") {
                id = taco_safe_name(attr.value.as_str(), false);
            } else if vec_eq_ignore_ascii_case(&attr_name, "displayname") {
                display_name = Some(attr.value.clone());
            } else if vec_eq_ignore_ascii_case(&attr_name, "isseparator") {
                if let Some(val) = parse_bool(attr.value.as_str()) {
                    is_separator = val;
                }
            } else if vec_eq_ignore_ascii_case(&attr_name, "ishidden") {
                if let Some(val) = parse_bool(attr.value.as_str()) {
                    is_hidden = val;
                }
            } else if vec_eq_ignore_ascii_case(&attr_name, "defaulttoggle") {
                if let Some(val) = parse_bool(attr.value.as_str()) {
                    default_toggle = val;
                }
            }
            i = i + 1;
        }
        assert(av.take(attrs@.len() as int) == av);
        let n = parse_stack.len();
        let full_id = if n > 0 {
            match &parse_stack[n - 1] {
                PartialItem::MarkerCategory(cat) => {
                    let mut f = cat.full_id.clone();
                    push_char(&mut f, '.');
                    f.append(id.as_str());
                    f
                },
                _ => id.clone(),
            }
        } else {
            id.clone()
        };
        let display_name = match display_name {
            Some(d) => d,
            None => id.clone(),
        };
        Ok(
            Category {
                display_name,
                id,
                full_id,
                is_separator,
                is_hidden,
                default_toggle,
                sub_categories: new_id_map(),
            },
        )
    }

    /// Takes in a new definition of this category: when its id and full id
    /// are those of this category, each of its sub-categories whose local id
    /// is not yet here is added, in its order; otherwise nothing changes.
    pub fn merge(&mut self, new: Category)
        ensures
            if old(self).id@ == new.id@ && old(self).full_id@ == new.full_id@ {
                final(self)@ == (CategoryView {
                    sub_categories: merged_ids(old(self)@.sub_categories, new@.sub_categories),
                    ..old(self)@
                })
            } else {
                final(self)@ == old(self)@
            },
    {
        if self.id != new.id || self.full_id != new.full_id {
            return;
        }
        let mut new = new;
        let theirs = id_map_drain(&mut new.sub_categories);
        let ghost tv = theirs@.map_values(|e: (String, String)| (e.0@, e.1@));
        let ghost ours = self@.sub_categories;
        let mut i: usize = 0;
        while i < theirs.len()
            invariant
                i <= theirs@.len(),
                tv == theirs@.map_values(|e: (String, String)| (e.0@, e.1@)),
                id_entries(self.sub_categories) == merged_ids(ours, tv.take(i as int)),
                self.id@ == old(self).id@,
                self.full_id@ == old(self).full_id@,
                self.display_name@ == old(self).display_name@,
                self.is_separator == old(self).is_separator,
                self.is_hidden == old(self).is_hidden,
                self.default_toggle == old(self).default_toggle,
            decreases theirs@.len() - i,
        {
            proof {
                assert(tv.take(i + 1).drop_last() == tv.take(i as int));
                assert(tv.take(i + 1).last() == tv[i as int]);
            }
            let local_id = &theirs[i].0;
            if !id_map_contains(&self.sub_categories, local_id) {
                id_map_insert_new(&mut self.sub_categories, local_id.clone(), theirs[i].1.clone());
            }
            i = i + 1;
        }
        assert(tv.take(theirs@.len() as int) == tv);
    }
}

/// Merging a definition twice adds nothing the first merge did not add.
pub proof fn lemma_merge_idempotent(ours: Seq<(Seq<char>, Seq<char>)>, theirs: Seq<(Seq<char>, Seq<char>)>)
    ensures
        merged_ids(merged_ids(ours, theirs), theirs) == merged_ids(ours, theirs),
{
    lemma_merged_has_all(ours, theirs);
    lemma_merge_present(merged_ids(ours, theirs), theirs);
}

/// Every local id of `theirs` is present after the merge, and every entry
/// of `ours` stays in its place.
pub proof fn lemma_merged_has_all(ours: Seq<(Seq<char>, Seq<char>)>, theirs: Seq<(Seq<char>, Seq<char>)>)
    ensures
        forall|k: int| 0 <= k < theirs.len() ==> has_id(merged_ids(ours, theirs), #[trigger] theirs[k].0),
        ours.len() <= merged_ids(ours, theirs).len(),
        merged_ids(ours, theirs).take(ours.len() as int) == ours,
    decreases theirs.len(),
{
    if theirs.len() == 0 {
        assert(ours.take(ours.len() as int) == ours);
    } else {
        let prev = theirs.drop_last();
        lemma_merged_has_all(ours, prev);
        let acc = merged_ids(ours, prev);
        let m = merged_ids(ours, theirs);
        lemma_id_position_from(acc, theirs.last().0, 0);
        lemma_id_position_from(m, theirs.last().0, 0);
        assert forall|k: int| 0 <= k < theirs.len() implies has_id(m, #[trigger] theirs[k].0) by {
            lemma_id_position_from(m, theirs[k].0, 0);
            if k < prev.len() {
                assert(prev[k] == theirs[k]);
                lemma_id_position_from(acc, prev[k].0, 0);
                let q = choose|q: int| 0 <= q < acc.len() && acc[q].0 == prev[k].0;
                assert(m[q] == acc[q]);
            } else if !has_id(acc, theirs.last().0) {
                assert(m[acc.len() as int] == theirs.last());
            }
        }
        assert(m.take(ours.len() as int) =~= ours);
    }
}

/// Merging entries whose local ids are all present changes nothing.
proof fn lemma_merge_present(ours: Seq<(Seq<char>, Seq<char>)>, theirs: Seq<(Seq<char>, Seq<char>)>)
    requires
        forall|k: int| 0 <= k < theirs.len() ==> has_id(ours, #[trigger] theirs[k].0),
    ensures
        merged_ids(ours, theirs) == ours,
    decreases theirs.len(),
{
    if theirs.len() > 0 {
        let prev = theirs.drop_last();
        assert forall|k: int| 0 <= k < prev.len() implies has_id(ours, #[trigger] prev[k].0) by {
            assert(prev[k] == theirs[k]);
        }
        lemma_merge_present(ours, prev);
        assert(has_id(ours, theirs[theirs.len() - 1].0));
    }
}

} // verus!

verus! {

/// No two entries have the same local id.
pub open spec fn ids_distinct(entries: Seq<(Seq<char>, Seq<char>)>) -> bool {
    forall|i: int, j: int| 0 <= i < j < entries.len() ==> #[trigger] entries[i].0 != #[trigger] entries[j].0
}

/// Merging keeps the local ids of a category's sub-categories distinct, as
/// they are in an `IndexMap`.
pub proof fn lemma_merge_keeps_ids_distinct(
    ours: Seq<(Seq<char>, Seq<char>)>,
    theirs: Seq<(Seq<char>, Seq<char>)>,
)
    requires
        ids_distinct(ours),
    ensures
        ids_distinct(merged_ids(ours, theirs)),
    decreases theirs.len(),
{
    if theirs.len() > 0 {
        lemma_merge_keeps_ids_distinct(ours, theirs.drop_last());
        let acc = merged_ids(ours, theirs.drop_last());
        if !has_id(acc, theirs.last().0) {
            lemma_id_position_from(acc, theirs.last().0, 0);
            let m = acc.push(theirs.last());
            assert forall|i: int, j: int| 0 <= i < j < m.len() implies #[trigger] m[i].0 != #[trigger] m[j].0 by {
                assert(m[i] == acc[i]);
                if j < acc.len() {
                    assert(m[j] == acc[j]);
                }
            }
        }
    }
}

} // verus!

verus! {

/// Whether one of the attributes is named `flag`, once its `bh-` prefixes are
/// taken off and without regard to ASCII case.
pub open spec fn has_attribute(attrs: Seq<(Seq<char>, Seq<char>)>, flag: Seq<char>) -> bool {
    exists|i: int| 0 <= i < attrs.len() && eq_ignoring_ascii_case(without_bh_prefix(#[trigger] attrs[i].0), flag)
}

/// A category is shown by default, and is neither a separator nor hidden,
/// unless an attribute says otherwise: without a `defaulttoggle` attribute its
/// `default_toggle` is `true`, without `isseparator` its `is_separator` is
/// `false`, and without `ishidden` its `is_hidden` is `false`.
pub proof fn lemma_absent_flags_keep_defaults(stack: Seq<PartialView>, attrs: Seq<(Seq<char>, Seq<char>)>)
    ensures
        !has_attribute(attrs, "defaulttoggle"@) ==> category_from_attrs(stack, attrs).default_toggle,
        !has_attribute(attrs, "isseparator"@) ==> !category_from_attrs(stack, attrs).is_separator,
        !has_attribute(attrs, "ishidden"@) ==> !category_from_attrs(stack, attrs).is_hidden,
{
    lemma_absent_flags_in_fields(attrs);
}

proof fn lemma_absent_flags_in_fields(attrs: Seq<(Seq<char>, Seq<char>)>)
    ensures
        !has_attribute(attrs, "defaulttoggle"@) ==> category_fields(attrs).default_toggle,
        !has_attribute(attrs, "isseparator"@) ==> !category_fields(attrs).is_separator,
        !has_attribute(attrs, "ishidden"@) ==> !category_fields(attrs).is_hidden,
    decreases attrs.len(),
{
    if attrs.len() > 0 {
        let rest = attrs.drop_last();
        lemma_absent_flags_in_fields(rest);
        let last = attrs.len() - 1;
        assert(attrs[last] == attrs.last());
        assert forall|flag: Seq<char>| has_attribute(rest, flag) implies has_attribute(attrs, flag) by {
            let i = choose|i: int| 0 <= i < rest.len() && eq_ignoring_ascii_case(without_bh_prefix(#[trigger] rest[i].0), flag);
            assert(attrs[i] == rest[i]);
        }
    }
}

} // verus!
