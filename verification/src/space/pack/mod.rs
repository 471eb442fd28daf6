//! A marker pack: categories, points of interest and trails read from the
//! pack's definition documents.
pub mod category;
pub mod category_map;
pub mod events;
pub mod loader;
pub mod poi;
pub mod text;
pub mod trail;

use category_map::{category_entries, entries_insert, CategoryMap};
use events::{attrs_view, next_item, reader_over, reader_position, reader_pulled, reader_source, xml_event_at, xml_position_at, DocumentReader, XmlAttribute, XmlItem, XmlItemView, XmlName, XmlNameView};
use loader::{asset_answer, listing_answer, LoadError, PackLoaderContext};
use poi::{Poi, PoiView};
use text::{eq_ignore_ascii_case, eq_ignoring_ascii_case, push_char, safe_name};
use trail::{Trail, TrailFileError, TrailView};
use vstd::prelude::*;

verus! {

pub struct Pack {
    /// Asset names with the texture index given to each.
    pub texture_list: Vec<(String, usize)>,
    pub textures: Vec<()>,
    pub pois: Vec<Poi>,
    pub trails: Vec<Trail>,
    pub categories: CategoryMap,
}

#[verifier::ext_equal]
pub struct PackView {
    pub texture_list: Seq<(Seq<char>, usize)>,
    pub textures: nat,
    pub pois: Seq<PoiView>,
    pub trails: Seq<TrailView>,
    pub categories: Seq<(Seq<char>, CategoryView)>,
}

impl View for Pack {
    type V = PackView;

    open spec fn view(&self) -> PackView {
        PackView {
            texture_list: self.texture_list@.map_values(|e: (String, usize)| (e.0@, e.1)),
            textures: self.textures@.len(),
            pois: self.pois@.map_values(|p: Poi| p@),
            trails: self.trails@.map_values(|t: Trail| t@),
            categories: category_entries(self.categories),
        }
    }
}

pub struct Category {
    pub id: String,
    pub full_id: String,
    pub display_name: String,
    pub is_separator: bool,
    pub is_hidden: bool,
    pub default_toggle: bool,
    pub sub_categories: CategoryMap,
}

#[verifier::ext_equal]
pub struct CategoryView {
    pub id: Seq<char>,
    pub full_id: Seq<char>,
    pub display_name: Seq<char>,
    pub is_separator: bool,
    pub is_hidden: bool,
    pub default_toggle: bool,
    pub sub_categories: Seq<(Seq<char>, CategoryView)>,
}

impl View for Category {
    type V = CategoryView;

    open spec fn view(&self) -> CategoryView {
        CategoryView {
            id: self.id@,
            full_id: self.full_id@,
            display_name: self.display_name@,
            is_separator: self.is_separator,
            is_hidden: self.is_hidden,
            default_toggle: self.default_toggle,
            sub_categories: category_entries(self.sub_categories),
        }
    }
}

/// Which coordinate of a point of interest.
#[derive(Debug, Clone, Copy, PartialEq, Eq)]
pub enum Axis {
    X,
    Y,
    Z,
}

/// Why a pack definition was rejected.
#[derive(Debug)]
pub enum PackError {
    /// A `MapID` attribute of a point of interest is not an `i32`.
    InvalidPoiMapId,
    /// A coordinate attribute of a point of interest is not a decimal number.
    InvalidPoiCoordinate(Axis),
    PoiMissingMapId,
    PoiMissingPosition,
    /// A trail without a type name.
    TrailMissingType,
    /// A trail without a data file; the trail's type name.
    TrailMissingData(String),
    UnexpectedStart(XmlName),
    UnexpectedEnd(XmlName),
    InconsistentState,
    UnexpectedEndOfDocument,
    /// The document is not well-formed markup; the parser's message.
    Xml(String),
    /// The reader yielded more events than a `usize` counts.
    TooManyEvents,
    Load(LoadError),
    TrailFile(TrailFileError),
}

pub enum PackErrorView {
    InvalidPoiMapId,
    InvalidPoiCoordinate(Axis),
    PoiMissingMapId,
    PoiMissingPosition,
    TrailMissingType,
    TrailMissingData(Seq<char>),
    UnexpectedStart(XmlNameView),
    UnexpectedEnd(XmlNameView),
    InconsistentState,
    UnexpectedEndOfDocument,
    Xml(Seq<char>),
    TooManyEvents,
    Load(Seq<char>),
    TrailFile(TrailFileError),
}

impl View for PackError {
    type V = PackErrorView;

    open spec fn view(&self) -> PackErrorView {
        match self {
            PackError::InvalidPoiMapId => PackErrorView::InvalidPoiMapId,
            PackError::InvalidPoiCoordinate(a) => PackErrorView::InvalidPoiCoordinate(*a),
            PackError::PoiMissingMapId => PackErrorView::PoiMissingMapId,
            PackError::PoiMissingPosition => PackErrorView::PoiMissingPosition,
            PackError::TrailMissingType => PackErrorView::TrailMissingType,
            PackError::TrailMissingData(s) => PackErrorView::TrailMissingData(s@),
            PackError::UnexpectedStart(n) => PackErrorView::UnexpectedStart(n@),
            PackError::UnexpectedEnd(n) => PackErrorView::UnexpectedEnd(n@),
            PackError::InconsistentState => PackErrorView::InconsistentState,
            PackError::UnexpectedEndOfDocument => PackErrorView::UnexpectedEndOfDocument,
            PackError::Xml(s) => PackErrorView::Xml(s@),
            PackError::TooManyEvents => PackErrorView::TooManyEvents,
            PackError::Load(e) => PackErrorView::Load(e.message@),
            PackError::TrailFile(e) => PackErrorView::TrailFile(*e),
        }
    }
}

/// The element being read, and what has been gathered for it so far.
pub enum PartialItem {
    OverlayData,
    MarkerCategory(Category),
    PoiGroup,
    Poi(Poi),
    Trail(Trail),
}

pub enum PartialView {
    OverlayData,
    MarkerCategory(CategoryView),
    PoiGroup,
    Poi(PoiView),
    Trail(TrailView),
}

impl View for PartialItem {
    type V = PartialView;

    open spec fn view(&self) -> PartialView {
        match self {
            PartialItem::OverlayData => PartialView::OverlayData,
            PartialItem::MarkerCategory(c) => PartialView::MarkerCategory(c@),
            PartialItem::PoiGroup => PartialView::PoiGroup,
            PartialItem::Poi(p) => PartialView::Poi(p@),
            PartialItem::Trail(t) => PartialView::Trail(t@),
        }
    }
}

pub open spec fn stack_view(stack: Seq<PartialItem>) -> Seq<PartialView> {
    stack.map_values(|i: PartialItem| i@)
}

} // verus!

verus! {

/// Replaces every character that is not an ASCII letter or digit (nor, when
/// `is_full`, a `.`) by `_`.
pub fn taco_safe_name(value: &str, is_full: bool) -> (r: String)
    ensures
        r@ == safe_name(value@, is_full),
{
    let mut result = String::new();
    for c in it: value.chars()
        invariant
            it.seq() == value@,
            result@ == safe_name(it.seq().take(it.index() as int), is_full),
    {
        let keep = ('0' <= c && c <= '9') || ('a' <= c && c <= 'z') || ('A' <= c && c <= 'Z') || (
        is_full && c == '.');
        push_char(&mut result, if keep { c } else { '_' });
        assert(it.seq().take(it.index() + 1 as int) == it.seq().take(it.index() as int).push(c));
    }
    assert(value@.take(value@.len() as int) == value@);
    result
}

} // verus!

verus! {

pub open spec fn empty_pack_view() -> PackView {
    PackView {
        texture_list: Seq::empty(),
        textures: 0,
        pois: Seq::empty(),
        trails: Seq::empty(),
        categories: Seq::empty(),
    }
}

/// No asset name is recorded twice, as in a map from names to indices.
pub open spec fn texture_names_distinct(list: Seq<(Seq<char>, usize)>) -> bool {
    forall|i: int, j: int| 0 <= i < j < list.len() ==> #[trigger] list[i].0 != #[trigger] list[j].0
}

impl Default for Pack {
    fn default() -> (r: Pack)
        ensures
            r@ == empty_pack_view(),
            texture_names_distinct(r@.texture_list),
    {
        Pack {
            texture_list: Vec::new(),
            textures: Vec::new(),
            pois: Vec::new(),
            trails: Vec::new(),
            categories: CategoryMap::new(),
        }
    }
}

/// The texture index recorded for an asset name: that of the first entry
/// with the name.
pub open spec fn texture_lookup(list: Seq<(Seq<char>, usize)>, asset: Seq<char>) -> Option<usize>
    decreases list.len(),
{
    if list.len() == 0 {
        None
    } else if list[0].0 == asset {
        Some(list[0].1)
    } else {
        texture_lookup(list.drop_first(), asset)
    }
}

/// Every recorded texture index names a texture slot that exists.
pub open spec fn texture_indices_below(pack: PackView) -> bool {
    forall|i: int| 0 <= i < pack.texture_list.len() ==> (#[trigger] pack.texture_list[i]).1 < pack.textures
}

/// A recorded index is the index of one of the list's entries.
proof fn lemma_texture_lookup_member(list: Seq<(Seq<char>, usize)>, asset: Seq<char>)
    ensures
        texture_lookup(list, asset) matches Some(id) ==> exists|i: int|
            0 <= i < list.len() && (#[trigger] list[i]).1 == id,
    decreases list.len(),
{
    if list.len() > 0 && list[0].0 != asset {
        lemma_texture_lookup_member(list.drop_first(), asset);
        if let Some(id) = texture_lookup(list, asset) {
            let i = choose|i: int| 0 <= i < list.drop_first().len() && (#[trigger] list.drop_first()[i]).1 == id;
            assert(list[i + 1] == list.drop_first()[i]);
        }
    }
}

impl Pack {
    /// The texture index of an asset: the one recorded in `texture_list`, or
    /// else a new texture slot. The new index is not recorded in
    /// `texture_list`, so every call for an unrecorded asset takes a new slot.
    pub fn get_or_load_texture(&mut self, asset: &str) -> (r: Result<usize, PackError>)
        requires
            old(self).textures@.len() < usize::MAX,
        ensures
            match texture_lookup(old(self)@.texture_list, asset@) {
                Some(id) => r == Ok::<usize, PackError>(id) && final(self)@ == old(self)@,
                None => r == Ok::<usize, PackError>(old(self)@.textures as usize)
                    && final(self)@ == (PackView { textures: old(self)@.textures + 1, ..old(self)@ }),
            },
            texture_indices_below(old(self)@) ==> texture_indices_below(final(self)@) && (r matches Ok(id)
                && id < final(self)@.textures),
            texture_names_distinct(old(self)@.texture_list) ==> texture_names_distinct(final(self)@.texture_list),
    {
        proof {
            lemma_texture_lookup_member(self@.texture_list, asset@);
        }
        let key = String::from_str(asset);
        let ghost tl = self@.texture_list;
        let mut i: usize = 0;
        assert(tl.skip(0) == tl);
        while i < self.texture_list.len()
            invariant
                i <= self.texture_list@.len(),
                tl == self@.texture_list,
                key@ == asset@,
                texture_lookup(tl, asset@) == texture_lookup(tl.skip(i as int), asset@),
            decreases self.texture_list@.len() - i,
        {
            assert(tl.skip(i as int).drop_first() == tl.skip(i + 1));
            if self.texture_list[i].0 == key {
                return Ok(self.texture_list[i].1);
            }
            i = i + 1;
        }
        let id = self.textures.len();
        self.textures.push(());
        Ok(id)
    }
}

} // verus!

verus! {

/// What the attributes of a category read so far have given: its id and its
/// display name.
pub struct CategoryScan {
    pub id: Seq<char>,
    pub display_name: Option<Seq<char>>,
}

pub open spec fn category_scan(attrs: Seq<(Seq<char>, Seq<char>)>) -> CategoryScan
    decreases attrs.len(),
{
    if attrs.len() == 0 {
        CategoryScan { id: Seq::empty(), display_name: None }
    } else {
        let acc = category_scan(attrs.drop_last());
        let (name, value) = attrs.last();
        if eq_ignoring_ascii_case(name, "name"@) {
            CategoryScan { id: safe_name(value, false), ..acc }
        } else if eq_ignoring_ascii_case(name, "DisplayName"@) {
            CategoryScan { display_name: Some(value), ..acc }
        } else {
            acc
        }
    }
}

pub open spec fn top_of_stack(stack: Seq<PartialView>) -> Option<PartialView> {
    if stack.len() == 0 {
        None
    } else {
        Some(stack.last())
    }
}

/// The category that a `MarkerCategory` element with these attributes opens
/// when `stack` is being read: its id is its last `name` attribute made safe,
/// its full id is prefixed by the full id of the enclosing category and a `.`,
/// and its display name defaults to its id.
pub open spec fn category_from_attrs(stack: Seq<PartialView>, attrs: Seq<(Seq<char>, Seq<char>)>) -> CategoryView {
    let acc = category_scan(attrs);
    CategoryView {
        id: acc.id,
        full_id: match top_of_stack(stack) {
            Some(PartialView::MarkerCategory(parent)) => parent.full_id + seq!['.'] + acc.id,
            _ => acc.id,
        },
        display_name: match acc.display_name {
            Some(d) => d,
            None => acc.id,
        },
        is_separator: false,
        is_hidden: false,
        default_toggle: true,
        sub_categories: Seq::empty(),
    }
}

impl Category {
    /// Reads a `MarkerCategory` element's attributes: `name` (the id, made
    /// safe) and `DisplayName`, names without regard to ASCII case; other
    /// attributes are ignored. Never fails.
    pub fn from_xml(parse_stack: &[PartialItem], attrs: Vec<XmlAttribute>) -> (r: Result<Category, PackError>)
        ensures
            r matches Ok(c) && c@ == category_from_attrs(stack_view(parse_stack@), attrs_view(attrs@)),
    {
        let mut id = String::new();
        let mut display_name: Option<String> = None;
        let ghost av = attrs_view(attrs@);
        let mut i: usize = 0;
        while i < attrs.len()
            invariant
                i <= attrs@.len(),
                av == attrs_view(attrs@),
                category_scan(av.take(i as int)) == (CategoryScan {
                    id: id@,
                    display_name: events::opt_text_view(display_name),
                }),
            decreases attrs@.len() - i,
        {
            let attr = &attrs[i];
            proof {
                assert(av.take(i + 1).drop_last() == av.take(i as int));
                assert(av.take(i + 1).last() == attr@);
            }
            if eq_ignore_ascii_case(attr.name.as_str(), "name") {
                id = taco_safe_name(attr.value.as_str(), false);
            } else if eq_ignore_ascii_case(attr.name.as_str(), "DisplayName") {
                display_name = Some(attr.value.clone());
            }
            i = i + 1;
        }
        assert(av.take(attrs@.len() as int) == av);
        let n = parse_stack.len();
        let full_id = if n > 0 {
            match &parse_stack[n - 1] {
                PartialItem::MarkerCategory(cat) => {
                    let mut f = cat.full_id.clone();
                    push_char(&mut f, '.');
                    f.append(id.as_str());
                    f
                },
                _ => id.clone(),
            }
        } else {
            id.clone()
        };
        let display_name = match display_name {
            Some(d) => d,
            None => id.clone(),
        };
        Ok(
            Category {
                display_name,
                id,
                full_id,
                is_separator: false,
                is_hidden: false,
                default_toggle: true,
                sub_categories: CategoryMap::new(),
            },
        )
    }
}

} // verus!

verus! {

/// Which elements may open where: `OverlayData` at the top level,
/// `MarkerCategory` in `OverlayData` or in another category, `POIs` in
/// `OverlayData`, and `POI` and `Trail` in `POIs` (names without regard to
/// ASCII case).
pub open spec fn start_allowed(top: Option<PartialView>, local_name: Seq<char>) -> bool {
    if eq_ignoring_ascii_case(local_name, "overlaydata"@) {
        top is None
    } else if eq_ignoring_ascii_case(local_name, "markercategory"@) {
        top matches Some(PartialView::OverlayData) || top matches Some(PartialView::MarkerCategory(_))
    } else if eq_ignoring_ascii_case(local_name, "pois"@) {
        top matches Some(PartialView::OverlayData)
    } else if eq_ignoring_ascii_case(local_name, "poi"@) {
        top matches Some(PartialView::PoiGroup)
    } else if eq_ignoring_ascii_case(local_name, "trail"@) {
        top matches Some(PartialView::PoiGroup)
    } else {
        false
    }
}

/// An element may close only the item that is being read.
pub open spec fn end_allowed(top: Option<PartialView>, local_name: Seq<char>) -> bool {
    if eq_ignoring_ascii_case(local_name, "overlaydata"@) {
        top matches Some(PartialView::OverlayData)
    } else if eq_ignoring_ascii_case(local_name, "markercategory"@) {
        top matches Some(PartialView::MarkerCategory(_))
    } else if eq_ignoring_ascii_case(local_name, "pois"@) {
        top matches Some(PartialView::PoiGroup)
    } else if eq_ignoring_ascii_case(local_name, "poi"@) {
        top matches Some(PartialView::Poi(_))
    } else if eq_ignoring_ascii_case(local_name, "trail"@) {
        top matches Some(PartialView::Trail(_))
    } else {
        false
    }
}

pub open spec fn opt_item_view(top: Option<&PartialItem>) -> Option<PartialView> {
    match top {
        Some(i) => Some(i@),
        None => None,
    }
}

fn valid_elem_start(stack_top: Option<&PartialItem>, name: &XmlName) -> (r: bool)
    ensures
        r == start_allowed(opt_item_view(stack_top), name.local_name@),
{
    let n = name.local_name.as_str();
    if eq_ignore_ascii_case(n, "overlaydata") {
        stack_top.is_none()
    } else if eq_ignore_ascii_case(n, "markercategory") {
        match stack_top {
            Some(PartialItem::OverlayData) | Some(PartialItem::MarkerCategory(_)) => true,
            _ => false,
        }
    } else if eq_ignore_ascii_case(n, "pois") {
        match stack_top {
            Some(PartialItem::OverlayData) => true,
            _ => false,
        }
    } else if eq_ignore_ascii_case(n, "poi") || eq_ignore_ascii_case(n, "trail") {
        match stack_top {
            Some(PartialItem::PoiGroup) => true,
            _ => false,
        }
    } else {
        false
    }
}

fn valid_elem_end(stack_top: Option<&PartialItem>, name: &XmlName) -> (r: bool)
    ensures
        r == end_allowed(opt_item_view(stack_top), name.local_name@),
{
    let n = name.local_name.as_str();
    if eq_ignore_ascii_case(n, "overlaydata") {
        match stack_top {
            Some(PartialItem::OverlayData) => true,
            _ => false,
        }
    } else if eq_ignore_ascii_case(n, "markercategory") {
        match stack_top {
            Some(PartialItem::MarkerCategory(_)) => true,
            _ => false,
        }
    } else if eq_ignore_ascii_case(n, "pois") {
        match stack_top {
            Some(PartialItem::PoiGroup) => true,
            _ => false,
        }
    } else if eq_ignore_ascii_case(n, "poi") {
        match stack_top {
            Some(PartialItem::Poi(_)) => true,
            _ => false,
        }
    } else if eq_ignore_ascii_case(n, "trail") {
        match stack_top {
            Some(PartialItem::Trail(_)) => true,
            _ => false,
        }
    } else {
        false
    }
}

fn top_of(stack: &Vec<PartialItem>) -> (r: Option<&PartialItem>)
    ensures
        opt_item_view(r) == top_of_stack(stack_view(stack@)),
{
    let n = stack.len();
    if n == 0 {
        None
    } else {
        Some(&stack[n - 1])
    }
}

} // verus!

verus! {

/// What one markup event does to a pack definition being read.
pub enum StepView {
    /// Reading goes on with this pack and stack of open items.
    Continue(PackView, Seq<PartialView>),
    /// The document ended; the pack is complete.
    Finished(PackView),
    /// The definition is rejected.
    Failed(PackErrorView),
}

/// Closing a `MarkerCategory`: the category goes into the enclosing category,
/// or into the pack when it stands right in `OverlayData`.
pub open spec fn close_category(pack: PackView, stack: Seq<PartialView>) -> StepView {
    match top_of_stack(stack) {
        Some(PartialView::MarkerCategory(c)) => {
            let rest = stack.drop_last();
            match top_of_stack(rest) {
                Some(PartialView::OverlayData) => StepView::Continue(
                    PackView { categories: entries_insert(pack.categories, c.id, c), ..pack },
                    rest,
                ),
                Some(PartialView::MarkerCategory(parent)) => StepView::Continue(
                    pack,
                    rest.drop_last().push(
                        PartialView::MarkerCategory(
                            CategoryView {
                                sub_categories: entries_insert(parent.sub_categories, c.id, c),
                                ..parent
                            },
                        ),
                    ),
                ),
                _ => StepView::Failed(PackErrorView::InconsistentState),
            }
        },
        _ => StepView::Failed(PackErrorView::InconsistentState),
    }
}

pub open spec fn step(pack: PackView, stack: Seq<PartialView>, event: XmlItemView) -> StepView {
    match event {
        XmlItemView::StartElement(name, attrs) => {
            let n = name.local_name;
            if !start_allowed(top_of_stack(stack), n) {
                StepView::Failed(PackErrorView::UnexpectedStart(name))
            } else if eq_ignoring_ascii_case(n, "overlaydata"@) {
                StepView::Continue(pack, stack.push(PartialView::OverlayData))
            } else if eq_ignoring_ascii_case(n, "markercategory"@) {
                StepView::Continue(
                    pack,
                    stack.push(PartialView::MarkerCategory(category_from_attrs(stack, attrs))),
                )
            } else if eq_ignoring_ascii_case(n, "pois"@) {
                StepView::Continue(pack, stack.push(PartialView::PoiGroup))
            } else if eq_ignoring_ascii_case(n, "poi"@) {
                match poi::poi_from_attrs(attrs) {
                    Ok(p) => StepView::Continue(pack, stack.push(PartialView::Poi(p))),
                    Err(e) => StepView::Failed(e),
                }
            } else {
                StepView::Failed(trail::trail_from_attrs(attrs))
            }
        },
        XmlItemView::EndElement(name) => {
            let n = name.local_name;
            if !end_allowed(top_of_stack(stack), n) {
                StepView::Failed(PackErrorView::UnexpectedEnd(name))
            } else if eq_ignoring_ascii_case(n, "overlaydata"@) || eq_ignoring_ascii_case(
                n,
                "pois"@,
            ) {
                StepView::Continue(pack, stack.drop_last())
            } else if eq_ignoring_ascii_case(n, "markercategory"@) {
                close_category(pack, stack)
            } else if eq_ignoring_ascii_case(n, "poi"@) {
                match stack.last() {
                    PartialView::Poi(p) => StepView::Continue(
                        PackView { pois: pack.pois.push(p), ..pack },
                        stack.drop_last(),
                    ),
                    _ => StepView::Failed(PackErrorView::InconsistentState),
                }
            } else {
                match stack.last() {
                    PartialView::Trail(t) => StepView::Continue(
                        PackView { trails: pack.trails.push(t), ..pack },
                        stack.drop_last(),
                    ),
                    _ => StepView::Failed(PackErrorView::InconsistentState),
                }
            }
        },
        XmlItemView::EndDocument => if stack.len() == 0 {
            StepView::Finished(pack)
        } else {
            StepView::Failed(PackErrorView::UnexpectedEndOfDocument)
        },
        _ => StepView::Continue(pack, stack),
    }
}

/// Reads one markup event; `Ok(true)` when the document has ended.
fn apply_item<C: PackLoaderContext>(
    pack: &mut Pack,
    stack: &mut Vec<PartialItem>,
    ctx: &C,
    item: XmlItem,
) -> (r: Result<bool, PackError>)
    ensures
        match step(old(pack)@, stack_view(old(stack)@), item@) {
            StepView::Continue(p, s) => r == Ok::<bool, PackError>(false) && final(pack)@ == p
                && stack_view(final(stack)@) == s,
            StepView::Finished(p) => r == Ok::<bool, PackError>(true) && final(pack)@ == p,
            StepView::Failed(e) => r matches Err(err) && err@ == e && final(pack)@ == old(pack)@,
        },
{
    match item {
        XmlItem::StartElement(name, attributes) => {
            if !valid_elem_start(top_of(stack), &name) {
                return Err(PackError::UnexpectedStart(name));
            }
            let n = name.local_name.as_str();
            if eq_ignore_ascii_case(n, "overlaydata") {
                stack.push(PartialItem::OverlayData);
            } else if eq_ignore_ascii_case(n, "markercategory") {
                let category = match Category::from_xml(stack.as_slice(), attributes) {
                    Ok(c) => c,
                    Err(e) => return Err(e),
                };
                stack.push(PartialItem::MarkerCategory(category));
            } else if eq_ignore_ascii_case(n, "pois") {
                stack.push(PartialItem::PoiGroup);
            } else if eq_ignore_ascii_case(n, "poi") {
                let p = match Poi::from_xml(pack, ctx, attributes) {
                    Ok(p) => p,
                    Err(e) => return Err(e),
                };
                stack.push(PartialItem::Poi(p));
            } else if eq_ignore_ascii_case(n, "trail") {
                let t = match Trail::from_xml(pack, ctx, attributes) {
                    Ok(t) => t,
                    Err(e) => return Err(e),
                };
                stack.push(PartialItem::Trail(t));
            } else {
                return Err(PackError::UnexpectedStart(name));
            }
            proof {
                assert(stack_view(stack@) == stack_view(old(stack)@).push(stack@.last()@));
            }
            Ok(false)
        },
        XmlItem::EndElement(name) => {
            if !valid_elem_end(top_of(stack), &name) {
                return Err(PackError::UnexpectedEnd(name));
            }
            let n = name.local_name.as_str();
            if eq_ignore_ascii_case(n, "overlaydata") || eq_ignore_ascii_case(n, "pois") {
                stack.pop();
                assert(stack_view(stack@) == stack_view(old(stack)@).drop_last());
                Ok(false)
            } else if eq_ignore_ascii_case(n, "markercategory") {
                close_marker_category(pack, stack)
            } else if eq_ignore_ascii_case(n, "poi") {
                match stack.pop() {
                    Some(PartialItem::Poi(p)) => {
                        pack.pois.push(p);
                        assert(stack_view(stack@) == stack_view(old(stack)@).drop_last());
                        assert(pack@.pois == old(pack)@.pois.push(p@));
                        Ok(false)
                    },
                    _ => Err(PackError::InconsistentState),
                }
            } else if eq_ignore_ascii_case(n, "trail") {
                match stack.pop() {
                    Some(PartialItem::Trail(t)) => {
                        pack.trails.push(t);
                        assert(stack_view(stack@) == stack_view(old(stack)@).drop_last());
                        assert(pack@.trails == old(pack)@.trails.push(t@));
                        Ok(false)
                    },
                    _ => Err(PackError::InconsistentState),
                }
            } else {
                Err(PackError::UnexpectedEnd(name))
            }
        },
        XmlItem::EndDocument => {
            if stack.len() > 0 {
                Err(PackError::UnexpectedEndOfDocument)
            } else {
                Ok(true)
            }
        },
        XmlItem::StartDocument => Ok(false),
        XmlItem::Other => Ok(false),
    }
}

fn close_marker_category(pack: &mut Pack, stack: &mut Vec<PartialItem>) -> (r: Result<bool, PackError>)
    ensures
        match close_category(old(pack)@, stack_view(old(stack)@)) {
            StepView::Continue(p, s) => r == Ok::<bool, PackError>(false) && final(pack)@ == p
                && stack_view(final(stack)@) == s,
            StepView::Finished(p) => false,
            StepView::Failed(e) => r matches Err(err) && err@ == e && final(pack)@ == old(pack)@,
        },
{
    let ghost s0 = stack_view(stack@);
    let category = match stack.pop() {
        Some(PartialItem::MarkerCategory(c)) => c,
        _ => return Err(PackError::InconsistentState),
    };
    assert(stack_view(stack@) == s0.drop_last());
    let ghost s1 = stack_view(stack@);
    match stack.pop() {
        Some(PartialItem::OverlayData) => {
            stack.push(PartialItem::OverlayData);
            assert(stack_view(stack@) == s1);
            let key = category.id.clone();
            let _ = pack.categories.insert(key, category);
            Ok(false)
        },
        Some(PartialItem::MarkerCategory(mut parent)) => {
            assert(stack_view(stack@) == s1.drop_last());
            let key = category.id.clone();
            let _ = parent.sub_categories.insert(key, category);
            stack.push(PartialItem::MarkerCategory(parent));
            assert(stack_view(stack@) == s1.drop_last().push(stack@.last()@));
            Ok(false)
        },
        _ => Err(PackError::InconsistentState),
    }
}

} // verus!

verus! {

/// Where reading a sequence of markup events leaves a pack definition.
pub enum RunView {
    /// Still reading: the pack so far and the stack of open items.
    Running(PackView, Seq<PartialView>),
    /// The document ended with this pack; later events are not read.
    Finished(PackView),
    /// Rejected: the pack as it was when the rejected event came, and why.
    Failed(PackView, PackErrorView),
}

/// Reads `events` in order into `pack`, starting with no open item.
pub open spec fn run_events(pack: PackView, events: Seq<XmlItemView>) -> RunView
    decreases events.len(),
{
    if events.len() == 0 {
        RunView::Running(pack, Seq::empty())
    } else {
        match run_events(pack, events.drop_last()) {
            RunView::Running(p, s) => match step(p, s, events.last()) {
                StepView::Continue(p2, s2) => RunView::Running(p2, s2),
                StepView::Finished(p2) => RunView::Finished(p2),
                StepView::Failed(e) => RunView::Failed(p, e),
            },
            other => other,
        }
    }
}

/// Reads a whole document's events; the end of the sequence ends the
/// document if no `EndDocument` came before.
pub open spec fn document_outcome(pack: PackView, events: Seq<XmlItemView>) -> RunView {
    match run_events(pack, events) {
        RunView::Running(p, s) => if s.len() == 0 {
            RunView::Finished(p)
        } else {
            RunView::Failed(p, PackErrorView::UnexpectedEndOfDocument)
        },
        other => other,
    }
}

pub open spec fn events_view(events: Seq<XmlItem>) -> Seq<XmlItemView> {
    events.map_values(|e: XmlItem| e@)
}

/// Once reading has finished or failed, further events change nothing.
pub proof fn lemma_run_settled(pack: PackView, events: Seq<XmlItemView>, k: int)
    requires
        0 <= k <= events.len(),
        !(run_events(pack, events.take(k)) is Running),
    ensures
        run_events(pack, events) == run_events(pack, events.take(k)),
    decreases events.len() - k,
{
    if k == events.len() {
        assert(events.take(k) == events);
    } else {
        assert(events.take(k + 1).drop_last() == events.take(k));
        lemma_run_settled(pack, events, k + 1);
    }
}

/// Reads one document's events into `pack`. The document ends at its first
/// `EndDocument` event, or else at the end of `events`.
pub fn parse_pack_events<C: PackLoaderContext>(pack: &mut Pack, ctx: &C, events: Vec<XmlItem>) -> (r: Result<(), PackError>)
    ensures
        match document_outcome(old(pack)@, events_view(events@)) {
            RunView::Finished(p) => r is Ok && final(pack)@ == p,
            RunView::Failed(p, e) => r matches Err(err) && err@ == e && final(pack)@ == p,
            RunView::Running(_, _) => false,
        },
{
    let ghost pack0 = pack@;
    let ghost ev = events_view(events@);
    let ghost evs = events@;
    let mut parse_stack: Vec<PartialItem> = Vec::new();
    assert(ev.take(0) =~= Seq::<XmlItemView>::empty());
    assert(stack_view(parse_stack@) =~= Seq::<PartialView>::empty());
    for item in it: events
        invariant
            it.seq() == evs,
            evs == events@,
            pack0 == old(pack)@,
            ev == events_view(evs),
            run_events(pack0, ev.take(it.index() as int)) == RunView::Running(pack@, stack_view(parse_stack@)),
    {
        let ghost i = it.index() as int;
        assert(item@ == ev[i]);
        assert(ev.take(i + 1).drop_last() == ev.take(i));
        assert(ev.take(i + 1).last() == item@);
        match apply_item(pack, &mut parse_stack, ctx, item) {
            Ok(true) => {
                proof { lemma_run_settled(pack0, ev, i + 1); }
                return Ok(());
            },
            Ok(false) => {},
            Err(e) => {
                proof { lemma_run_settled(pack0, ev, i + 1); }
                return Err(e);
            },
        }
    }
    assert(ev.take(ev.len() as int) == ev);
    if parse_stack.len() > 0 {
        return Err(PackError::UnexpectedEndOfDocument);
    }
    Ok(())
}

} // verus!

verus! {

/// Where reading a document's bytes into a pack stands after the reader has
/// been asked for `k` events: still reading, finished, rejected by the pack
/// rules, or stopped by a markup error (with the pack as it was then). Events
/// after the end or a rejection are never asked for.
pub open spec fn read_events(pack0: PackView, bytes: Seq<u8>, k: nat) -> RunView
    decreases k,
{
    if k == 0 {
        RunView::Running(pack0, Seq::empty())
    } else {
        match read_events(pack0, bytes, (k - 1) as nat) {
            RunView::Running(p, s) => match xml_event_at(bytes, (k - 1) as nat) {
                Err(message) => RunView::Failed(p, PackErrorView::Xml(message)),
                Ok(event) => match step(p, s, event) {
                    StepView::Continue(p2, s2) => RunView::Running(p2, s2),
                    StepView::Finished(p2) => RunView::Finished(p2),
                    StepView::Failed(e) => RunView::Failed(p, e),
                },
            },
            other => other,
        }
    }
}

/// How reading a whole document's bytes into `pack0` ends. At most
/// `usize::MAX` events are read: a document still open after as many is
/// rejected with `TooManyEvents`.
pub open spec fn document_read(pack0: PackView, bytes: Seq<u8>) -> RunView {
    match read_events(pack0, bytes, usize::MAX as nat) {
        RunView::Running(p, _) => RunView::Failed(p, PackErrorView::TooManyEvents),
        other => other,
    }
}

/// Once reading has finished or failed, asking for more events changes
/// nothing.
pub proof fn lemma_read_settled(pack0: PackView, bytes: Seq<u8>, k: nat, m: nat)
    requires
        k <= m,
        !(read_events(pack0, bytes, k) is Running),
    ensures
        read_events(pack0, bytes, m) == read_events(pack0, bytes, k),
    decreases m - k,
{
    if k < m {
        lemma_read_settled(pack0, bytes, k, (m - 1) as nat);
    }
}

/// Reading a document stops after `n` events: every count below `n` leaves it
/// still reading, and after `n` it has ended, or `n` is the most events read.
pub open spec fn stops_at(pack0: PackView, bytes: Seq<u8>, n: nat) -> bool {
    &&& n <= usize::MAX
    &&& forall|j: nat| j < n ==> #[trigger] read_events(pack0, bytes, j) is Running
    &&& (n == usize::MAX || !(read_events(pack0, bytes, n) is Running))
}

/// How many events reading a document asks the reader for.
pub open spec fn stop_count(pack0: PackView, bytes: Seq<u8>) -> nat {
    choose|n: nat| stops_at(pack0, bytes, n)
}

/// Reading a document stops at one count only.
pub proof fn lemma_stop_count(pack0: PackView, bytes: Seq<u8>, n: nat)
    requires
        stops_at(pack0, bytes, n),
    ensures
        stop_count(pack0, bytes) == n,
{
    let c = stop_count(pack0, bytes);
    assert(stops_at(pack0, bytes, c));
    if c < n {
        assert(read_events(pack0, bytes, c) is Running);
    } else if n < c {
        assert(read_events(pack0, bytes, n) is Running);
    }
}

pub open spec fn unit_result_view(r: Result<(), PackError>) -> Result<(), PackErrorView> {
    match r {
        Ok(()) => Ok(()),
        Err(e) => Err(e@),
    }
}

/// The result and the pack that reading a document ends with, as `RunView`
/// tells them.
pub open spec fn run_outcome(run: RunView, r: Result<(), PackErrorView>, pack: PackView) -> bool {
    match run {
        RunView::Finished(p) => r is Ok && pack == p,
        RunView::Failed(p, e) => r == Err::<(), PackErrorView>(e) && pack == p,
        RunView::Running(_, _) => false,
    }
}

/// Reads the events of the document that `parser` was made over into `pack`,
/// from its first event until the document ends or is rejected.
fn inner_parse_pack_def<C: PackLoaderContext>(
    pack: &mut Pack,
    ctx: &C,
    parser: &mut DocumentReader,
) -> (r: Result<(), PackError>)
    requires
        reader_pulled(*old(parser)) == 0,
    ensures
        run_outcome(document_read(old(pack)@, reader_source(*old(parser))), unit_result_view(r), final(pack)@),
        reader_source(*final(parser)) == reader_source(*old(parser)),
        stops_at(old(pack)@, reader_source(*old(parser)), reader_pulled(*final(parser))),
{
    let ghost pack0 = pack@;
    let ghost bytes = reader_source(*parser);
    let mut parse_stack: Vec<PartialItem> = Vec::with_capacity(16);
    let mut pulled: usize = 0;
    assert(stack_view(parse_stack@) =~= Seq::<PartialView>::empty());
    loop
        invariant
            pack0 == old(pack)@,
            bytes == reader_source(*old(parser)),
            reader_source(*parser) == bytes,
            reader_pulled(*parser) == pulled as nat,
            read_events(pack0, bytes, pulled as nat) == RunView::Running(pack@, stack_view(parse_stack@)),
            forall|j: nat| j < pulled ==> #[trigger] read_events(pack0, bytes, j) is Running,
        decreases usize::MAX - pulled,
    {
        let ghost before: nat = pulled as nat;
        if pulled == usize::MAX {
            return Err(PackError::TooManyEvents);
        }
        let item = next_item(parser);
        pulled = pulled + 1;
        let item = match item {
            Ok(item) => item,
            Err(message) => {
                proof {
                    lemma_read_settled(pack0, bytes, pulled as nat, usize::MAX as nat);
                }
                return Err(PackError::Xml(message));
            },
        };
        match apply_item(pack, &mut parse_stack, ctx, item) {
            Ok(true) => {
                proof {
                    lemma_read_settled(pack0, bytes, pulled as nat, usize::MAX as nat);
                }
                return Ok(());
            },
            Ok(false) => {},
            Err(e) => {
                proof {
                    lemma_read_settled(pack0, bytes, pulled as nat, usize::MAX as nat);
                }
                return Err(e);
            },
        }
        assert forall|j: nat| j < pulled implies #[trigger] read_events(pack0, bytes, j) is Running by {
            if j < before {
            } else {
                assert(j == before);
            }
        }
    }
}

/// Why a pack, or one of its definition documents, could not be read.
#[derive(Debug)]
pub enum PackLoadError {
    /// An asset, or the list of definition documents, could not be read.
    Load(LoadError),
    /// A definition document was rejected; where the reader stood (row and
    /// column, both from zero) and why.
    Definition { asset: String, row: u64, column: u64, cause: PackError },
}

/// What reading the definition document `asset`, whose bytes are `bytes`,
/// into `pack0` gives: the pack the document finishes, or the document
/// rejected under its name, with the reader's position where reading stopped
/// and the pack as it was when it was rejected.
pub open spec fn definition_read(
    pack0: PackView,
    asset: Seq<char>,
    bytes: Seq<u8>,
    r: Result<(), PackLoadError>,
    pack: PackView,
) -> bool {
    match document_read(pack0, bytes) {
        RunView::Finished(p) => r is Ok && pack == p,
        RunView::Failed(p, e) => (r matches Err(PackLoadError::Definition { asset: a, row, column, cause })
            && a@ == asset && cause@ == e && (row, column) == xml_position_at(
            bytes,
            stop_count(pack0, bytes),
        )) && pack == p,
        RunView::Running(_, _) => false,
    }
}

/// Reads the definition document `asset`, whose bytes the loader gave as
/// `bytes`, into `pack`.
pub fn parse_pack_document<C: PackLoaderContext>(
    pack: &mut Pack,
    ctx: &C,
    asset: &str,
    bytes: Vec<u8>,
) -> (r: Result<(), PackLoadError>)
    ensures
        definition_read(old(pack)@, asset@, bytes@, r, final(pack)@),
{
    let ghost pack0 = pack@;
    let mut parser = reader_over(bytes);
    let read = inner_parse_pack_def(pack, ctx, &mut parser);
    proof {
        lemma_stop_count(pack0, bytes@, reader_pulled(parser));
    }
    match read {
        Ok(()) => Ok(()),
        Err(e) => {
            let (row, column) = reader_position(&parser);
            Err(PackLoadError::Definition { asset: String::from_str(asset), row, column, cause: e })
        },
    }
}

/// Reads the definition document `asset` into `pack`: the loader is asked
/// for `asset`; a failed load gives its error and leaves the pack as it was;
/// otherwise the loaded bytes are read as `parse_pack_document` reads them.
pub fn parse_pack_def<C: PackLoaderContext>(pack: &mut Pack, ctx: &C, asset: &str) -> (r: Result<(), PackLoadError>)
    ensures
        exists|loaded: Result<Seq<u8>, Seq<char>>|
            ctx.gives_asset(asset@, loaded) && asset_read(old(pack)@, asset@, loaded, r, final(pack)@),
{
    let loaded = ctx.load_asset(asset);
    let ghost answer = asset_answer(loaded);
    let bytes = match loaded {
        Ok(b) => b,
        Err(e) => {
            let r = Err(PackLoadError::Load(e));
            assert(asset_read(old(pack)@, asset@, answer, r, pack@));
            return r;
        },
    };
    let r = parse_pack_document(pack, ctx, asset, bytes);
    assert(asset_read(old(pack)@, asset@, answer, r, pack@));
    r
}

/// What reading the asset `asset` into `pack0` gives when the loader answered
/// `loaded`: its error, with the pack unchanged, or the bytes read as
/// `definition_read` says.
pub open spec fn asset_read(
    pack0: PackView,
    asset: Seq<char>,
    loaded: Result<Seq<u8>, Seq<char>>,
    r: Result<(), PackLoadError>,
    pack: PackView,
) -> bool {
    match loaded {
        Err(message) => (r matches Err(PackLoadError::Load(e)) && e.message@ == message) && pack == pack0,
        Ok(bytes) => definition_read(pack0, asset, bytes, r, pack),
    }
}

/// Reads documents, given by their bytes, into `pack` in order; `None` when
/// one of them is rejected.
pub open spec fn load_documents(pack: PackView, documents: Seq<Seq<u8>>) -> Option<PackView>
    decreases documents.len(),
{
    if documents.len() == 0 {
        Some(pack)
    } else {
        match load_documents(pack, documents.drop_last()) {
            Some(p) => match document_read(p, documents.last()) {
                RunView::Finished(q) => Some(q),
                _ => None,
            },
            None => None,
        }
    }
}

/// Where reading the definition documents of a listing stands: the names
/// listed, the bytes of the documents read so far (one for each of the first
/// names, in order), and the pack they have given.
pub struct PackReading {
    names: Vec<String>,
    done: usize,
    documents: Ghost<Seq<Seq<u8>>>,
    pack: Pack,
}

pub struct PackReadingView {
    pub names: Seq<Seq<char>>,
    pub documents: Seq<Seq<u8>>,
    pub pack: PackView,
}

impl View for PackReading {
    type V = PackReadingView;

    closed spec fn view(&self) -> PackReadingView {
        PackReadingView {
            names: self.names@.map_values(|n: String| n@),
            documents: self.documents@,
            pack: self.pack@,
        }
    }
}

/// No more documents read than listed, and the pack is what the documents
/// read give, in order, to an empty pack.
pub open spec fn reading_consistent(v: PackReadingView) -> bool {
    &&& v.documents.len() <= v.names.len()
    &&& load_documents(empty_pack_view(), v.documents) == Some(v.pack)
}

impl PackReading {
    #[verifier::type_invariant]
    spec fn reading_invariant(self) -> bool {
        &&& self.done == self.documents@.len()
        &&& self.done <= self.names@.len()
        &&& load_documents(empty_pack_view(), self.documents@) == Some(self.pack@)
    }

    /// Starts reading the documents of a listing: none read yet, and an
    /// empty pack.
    pub fn start(names: Vec<String>) -> (r: PackReading)
        ensures
            r@.names == names@.map_values(|n: String| n@),
            r@.documents == Seq::<Seq<u8>>::empty(),
            r@.pack == empty_pack_view(),
            reading_consistent(r@),
    {
        PackReading { names, done: 0, documents: Ghost(Seq::empty()), pack: Pack::default() }
    }

    /// The name of the document to load next: the first listed name not yet
    /// read, or `None` when every listed document has been read.
    pub fn next_asset(&self) -> (r: Option<&String>)
        ensures
            self@.documents.len() < self@.names.len() ==> (r matches Some(n) && n@
                == self@.names[self@.documents.len() as int]),
            self@.documents.len() >= self@.names.len() ==> r is None,
    {
        proof {
            use_type_invariant(self);
        }
        if self.done < self.names.len() {
            Some(&self.names[self.done])
        } else {
            None
        }
    }

    /// Takes the loader's answer for the document `next_asset` named. A failed
    /// load ends the reading with the loader's error. Loaded bytes are read as
    /// `parse_pack_document` reads them, under the document's name: a
    /// document that finishes is counted as read, with the pack it gives; a
    /// rejected one ends the reading with its rejection.
    pub fn answer<C: PackLoaderContext>(self, ctx: &C, loaded: Result<Vec<u8>, LoadError>) -> (r: Result<
        PackReading,
        PackLoadError,
    >)
        requires
            self@.documents.len() < self@.names.len(),
        ensures
            match loaded {
                Err(e) => r == Err::<PackReading, PackLoadError>(PackLoadError::Load(e)),
                Ok(bytes) => match document_read(self@.pack, bytes@) {
                    RunView::Finished(p) => r matches Ok(next) && next@ == (PackReadingView {
                        names: self@.names,
                        documents: self@.documents.push(bytes@),
                        pack: p,
                    }) && reading_consistent(next@),
                    RunView::Failed(_, e) => r matches Err(PackLoadError::Definition { asset, row, column, cause })
                        && asset@ == self@.names[self@.documents.len() as int] && cause@ == e && (row, column)
                        == xml_position_at(bytes@, stop_count(self@.pack, bytes@)),
                    RunView::Running(_, _) => false,
                },
            },
    {
        proof {
            use_type_invariant(&self);
        }
        let ghost v = self@;
        let ghost docs0 = self.documents@;
        let PackReading { names, done, documents: _, mut pack } = self;
        assert(done == docs0.len());
        assert(v.names.len() == names@.len());
        let listed = names.len();
        assert(done < listed);
        let bytes = match loaded {
            Ok(b) => b,
            Err(e) => return Err(PackLoadError::Load(e)),
        };
        let ghost b = bytes@;
        let r = parse_pack_document(&mut pack, ctx, names[done].as_str(), bytes);
        match r {
            Ok(()) => {
                let ghost next_docs = docs0.push(b);
                assert(next_docs.drop_last() =~= docs0);
                let next = PackReading { names, done: done + 1, documents: Ghost(next_docs), pack };
                assert(next@.names == v.names);
                Ok(next)
            },
            Err(e) => Err(e),
        }
    }

    /// The pack the documents read have given.
    pub fn finish(self) -> (p: Pack)
        ensures
            p@ == self@.pack,
    {
        self.pack
    }
}

impl Pack {
    /// Reads every `.xml` document of the pack, in the order the loader lists
    /// them, into an empty pack: the loader is asked for the files with the
    /// extension `xml`, and its answer is read as `load_from_listing` reads it.
    pub fn load<L: PackLoaderContext>(loader: L) -> (r: Result<Pack, PackLoadError>)
        ensures
            exists|answer: Result<Seq<Seq<char>>, Seq<char>>|
                loader.lists_files("xml"@, answer) && match answer {
                    Err(message) => r matches Err(PackLoadError::Load(e)) && e.message@ == message,
                    Ok(names) => listing_read(&loader, names, r),
                },
    {
        let listing = loader.all_files_with_ext("xml");
        let ghost answer = listing_answer(listing);
        let r = Pack::load_from_listing(&loader, listing);
        assert(match answer {
            Err(message) => r matches Err(PackLoadError::Load(e)) && e.message@ == message,
            Ok(names) => listing_read(&loader, names, r),
        });
        r
    }

    /// Reads the documents named by `listing`, the loader's answer to the
    /// question which `.xml` documents the pack has, into an empty pack: a
    /// failed listing is the load error; otherwise the loader is asked for
    /// each listed name in turn, as `listing_read` says.
    pub fn load_from_listing<L: PackLoaderContext>(
        loader: &L,
        listing: Result<Vec<String>, LoadError>,
    ) -> (r: Result<Pack, PackLoadError>)
        ensures
            match listing {
                Err(failure) => r == Err::<Pack, PackLoadError>(PackLoadError::Load(failure)),
                Ok(names) => {
                    &&& names@.len() == 0 ==> (r matches Ok(p) && p@ == empty_pack_view())
                    &&& listing_read(loader, names@.map_values(|n: String| n@), r)
                },
            },
    {
        let names = match listing {
            Ok(names) => names,
            Err(e) => return Err(PackLoadError::Load(e)),
        };
        let ghost listed = names@.map_values(|n: String| n@);
        let mut reading = PackReading::start(names);
        assert(loaded_in_order(loader, listed, reading@.documents));
        loop
            invariant
                listing matches Ok(names) && listed == names@.map_values(|n: String| n@),
                reading@.names == listed,
                reading_consistent(reading@),
                loaded_in_order(loader, listed, reading@.documents),
            decreases listed.len() - reading@.documents.len(),
        {
            let ghost docs = reading@.documents;
            let ghost pack0 = reading@.pack;
            let loaded = match reading.next_asset() {
                Some(name) => loader.load_asset(name.as_str()),
                None => {
                    let p = reading.finish();
                    assert(docs.len() == listed.len());
                    return Ok(p);
                },
            };
            let ghost answer = asset_answer(loaded);
            assert(loader.gives_asset(listed[docs.len() as int], answer));
            match reading.answer(loader, loaded) {
                Ok(next) => {
                    assert(loaded_in_order(loader, listed, next@.documents)) by {
                        assert forall|i: int| 0 <= i < next@.documents.len() implies loader.gives_asset(
                            listed[i],
                            Ok(#[trigger] next@.documents[i]),
                        ) by {
                            if i < docs.len() {
                                assert(next@.documents[i] == docs[i]);
                            }
                        }
                    }
                    reading = next;
                },
                Err(e) => {
                    let r: Result<Pack, PackLoadError> = Err(e);
                    assert(listing_read(loader, listed, r)) by {
                        if let Ok(bytes) = answer {
                            assert(load_documents(empty_pack_view(), docs) == Some(pack0));
                            assert(listed_failure(loader, listed, docs, bytes, r));
                        } else {
                            assert(listed_load_failure(loader, listed, docs, r));
                        }
                    }
                    return r;
                },
            }
        }
    }
}

/// The first `documents.len()` listed names were each asked for, in order, and
/// the loader gave these bytes for them.
pub open spec fn loaded_in_order<L: PackLoaderContext>(
    loader: &L,
    names: Seq<Seq<char>>,
    documents: Seq<Seq<u8>>,
) -> bool {
    &&& documents.len() <= names.len()
    &&& forall|i: int| 0 <= i < documents.len() ==> loader.gives_asset(names[i], Ok(#[trigger] documents[i]))
}

/// After the documents `documents` were loaded and read, the loader failed
/// on the next listed name with the error in `r`.
pub open spec fn listed_load_failure<L: PackLoaderContext>(
    loader: &L,
    names: Seq<Seq<char>>,
    documents: Seq<Seq<u8>>,
    r: Result<Pack, PackLoadError>,
) -> bool {
    &&& documents.len() < names.len()
    &&& loaded_in_order(loader, names, documents)
    &&& load_documents(empty_pack_view(), documents) is Some
    &&& r matches Err(PackLoadError::Load(e)) && loader.gives_asset(names[documents.len() as int], Err(e.message@))
}

/// After the documents `documents` were loaded and read, the next listed
/// name was loaded as `bytes` and rejected, as `r` tells.
pub open spec fn listed_failure<L: PackLoaderContext>(
    loader: &L,
    names: Seq<Seq<char>>,
    documents: Seq<Seq<u8>>,
    bytes: Seq<u8>,
    r: Result<Pack, PackLoadError>,
) -> bool {
    &&& documents.len() < names.len()
    &&& loaded_in_order(loader, names, documents)
    &&& loader.gives_asset(names[documents.len() as int], Ok(bytes))
    &&& match load_documents(empty_pack_view(), documents) {
        Some(p0) => {
            &&& r matches Err(PackLoadError::Definition { asset, row, column, cause })
            &&& asset@ == names[documents.len() as int]
            &&& (row, column) == xml_position_at(bytes, stop_count(p0, bytes))
            &&& document_read(p0, bytes) matches RunView::Failed(_, e)
            &&& cause@ == e
        },
        None => false,
    }
}

/// What reading the listed `names` with `loader` gives, asking for each name
/// in turn and stopping at the first failure: the pack that the loader's bytes
/// for all of them give, in order (the empty pack when none is listed); or
/// the loader's error for the first name it could not load; or the rejection
/// of the first document that was not read to its end.
pub open spec fn listing_read<L: PackLoaderContext>(
    loader: &L,
    names: Seq<Seq<char>>,
    r: Result<Pack, PackLoadError>,
) -> bool {
    match r {
        Ok(p) => exists|documents: Seq<Seq<u8>>|
            documents.len() == names.len() && loaded_in_order(loader, names, documents)
                && load_documents(empty_pack_view(), documents) == Some(p@),
        Err(PackLoadError::Load(_)) => exists|documents: Seq<Seq<u8>>|
            listed_load_failure(loader, names, documents, r),
        Err(PackLoadError::Definition { .. }) => exists|documents: Seq<Seq<u8>>, bytes: Seq<u8>|
            listed_failure(loader, names, documents, bytes, r),
    }
}

} // verus!

verus! {

pub open spec fn no_trail_items(stack: Seq<PartialView>) -> bool {
    forall|i: int| 0 <= i < stack.len() ==> !(#[trigger] stack[i] is Trail)
}

/// `later` keeps all that `earlier` holds: the same textures and trails, the
/// points of interest of `earlier` first and in order, and every category
/// name of `earlier`.
pub open spec fn pack_extends(earlier: PackView, later: PackView) -> bool {
    &&& later.texture_list == earlier.texture_list
    &&& later.textures == earlier.textures
    &&& later.trails == earlier.trails
    &&& earlier.pois.len() <= later.pois.len()
    &&& later.pois.take(earlier.pois.len() as int) == earlier.pois
    &&& forall|k: Seq<char>|
        #[trigger] category_map::key_position(earlier.categories, k) is Some
            ==> category_map::key_position(later.categories, k) is Some
}

proof fn lemma_extends_trans(a: PackView, b: PackView, c: PackView)
    requires
        pack_extends(a, b),
        pack_extends(b, c),
    ensures
        pack_extends(a, c),
{
    assert(c.pois.take(a.pois.len() as int) =~= c.pois.take(b.pois.len() as int).take(
        a.pois.len() as int,
    ));
    assert forall|k: Seq<char>|
        #[trigger] category_map::key_position(a.categories, k) is Some implies category_map::key_position(
        c.categories,
        k,
    ) is Some by {
        assert(category_map::key_position(b.categories, k) is Some);
    }
}

proof fn lemma_insert_keeps_keys(
    entries: Seq<(Seq<char>, CategoryView)>,
    key: Seq<char>,
    value: CategoryView,
)
    ensures
        forall|k: Seq<char>|
            #[trigger] category_map::key_position(entries, k) is Some
                ==> category_map::key_position(entries_insert(entries, key, value), k) is Some,
{
    assert forall|k: Seq<char>|
        #[trigger] category_map::key_position(entries, k) is Some implies category_map::key_position(
        entries_insert(entries, key, value),
        k,
    ) is Some by {
        category_map::lemma_insert_then_get(entries, key, value, k);
    }
}

proof fn lemma_step_extends(pack: PackView, stack: Seq<PartialView>, event: XmlItemView)
    requires
        no_trail_items(stack),
    ensures
        match step(pack, stack, event) {
            StepView::Continue(p, s) => pack_extends(pack, p) && no_trail_items(s),
            StepView::Finished(p) => p == pack,
            StepView::Failed(_) => true,
        },
{
    assert(pack.pois.take(pack.pois.len() as int) == pack.pois);
    match event {
        XmlItemView::EndElement(name) => {
            let n = name.local_name;
            if end_allowed(top_of_stack(stack), n) {
                if eq_ignoring_ascii_case(n, "markercategory"@) {
                    if let Some(PartialView::MarkerCategory(c)) = top_of_stack(stack) {
                        lemma_insert_keeps_keys(pack.categories, c.id, c);
                        let rest = stack.drop_last();
                        if rest.len() > 0 {
                            assert(no_trail_items(rest.drop_last().push(PartialView::OverlayData)));
                        }
                    }
                } else if eq_ignoring_ascii_case(n, "poi"@) {
                    if let PartialView::Poi(p) = stack.last() {
                        assert(pack.pois.push(p).take(pack.pois.len() as int) == pack.pois);
                    }
                } else if !eq_ignoring_ascii_case(n, "overlaydata"@) && !eq_ignoring_ascii_case(
                    n,
                    "pois"@,
                ) {
                    assert(stack[stack.len() - 1] is Trail);
                }
            }
        },
        _ => {},
    }
}

/// Reading events only adds to a pack: whatever the events, and however the
/// reading ends, the textures and trails stay as they were, the points of
/// interest already there stay first and in order, and every category name
/// stays; and no trail element is ever accepted, so no trail is added.
pub proof fn lemma_reading_only_adds(pack: PackView, events: Seq<XmlItemView>)
    ensures
        match run_events(pack, events) {
            RunView::Running(p, s) => pack_extends(pack, p) && no_trail_items(s),
            RunView::Finished(p) => pack_extends(pack, p),
            RunView::Failed(p, _) => pack_extends(pack, p),
        },
    decreases events.len(),
{
    if events.len() == 0 {
        assert(pack.pois.take(pack.pois.len() as int) == pack.pois);
    } else {
        lemma_reading_only_adds(pack, events.drop_last());
        if let RunView::Running(p, s) = run_events(pack, events.drop_last()) {
            lemma_step_extends(p, s, events.last());
            if let StepView::Continue(p2, s2) = step(p, s, events.last()) {
                lemma_extends_trans(pack, p, p2);
            }
        }
    }
}

} // verus!

verus! {

pub open spec fn child_full_id(parent_full_id: Seq<char>, id: Seq<char>) -> Seq<char> {
    parent_full_id + seq!['.'] + id
}

/// Every sub-category, at any depth, is stored under its id and has as full
/// id the full id of the category holding it, a `.`, and its own id.
pub open spec fn category_ids_nested(c: CategoryView) -> bool
    decreases c,
{
    forall|i: int|
        0 <= i < c.sub_categories.len() ==> {
            &&& (#[trigger] c.sub_categories[i]).0 == c.sub_categories[i].1.id
            &&& c.sub_categories[i].1.full_id == child_full_id(c.full_id, c.sub_categories[i].1.id)
            &&& category_ids_nested(c.sub_categories[i].1)
        }
}

/// The categories of a pack are stored under their ids, have their id as
/// full id, and nest their sub-categories' ids.
pub open spec fn pack_category_ids(pack: PackView) -> bool {
    forall|i: int|
        0 <= i < pack.categories.len() ==> {
            &&& (#[trigger] pack.categories[i]).0 == pack.categories[i].1.id
            &&& pack.categories[i].1.full_id == pack.categories[i].1.id
            &&& category_ids_nested(pack.categories[i].1)
        }
}

/// The categories open on the stack are named after the item below them.
pub open spec fn stack_category_ids(stack: Seq<PartialView>) -> bool {
    forall|i: int|
        0 <= i < stack.len() ==> (#[trigger] stack[i] matches PartialView::MarkerCategory(c) ==> {
            &&& i > 0
            &&& category_ids_nested(c)
            &&& match stack[i - 1] {
                PartialView::MarkerCategory(p) => c.full_id == child_full_id(p.full_id, c.id),
                PartialView::OverlayData => c.full_id == c.id,
                _ => false,
            }
        })
}

proof fn lemma_insert_nested(
    entries: Seq<(Seq<char>, CategoryView)>,
    parent_full_id: Option<Seq<char>>,
    c: CategoryView,
)
    requires
        forall|i: int|
            0 <= i < entries.len() ==> {
                &&& (#[trigger] entries[i]).0 == entries[i].1.id
                &&& entries[i].1.full_id == match parent_full_id {
                    Some(f) => child_full_id(f, entries[i].1.id),
                    None => entries[i].1.id,
                }
                &&& category_ids_nested(entries[i].1)
            },
        c.full_id == match parent_full_id {
            Some(f) => child_full_id(f, c.id),
            None => c.id,
        },
        category_ids_nested(c),
    ensures
        forall|i: int|
            0 <= i < entries_insert(entries, c.id, c).len() ==> {
                &&& (#[trigger] entries_insert(entries, c.id, c)[i]).0 == entries_insert(
                    entries,
                    c.id,
                    c,
                )[i].1.id
                &&& entries_insert(entries, c.id, c)[i].1.full_id == match parent_full_id {
                    Some(f) => child_full_id(f, entries_insert(entries, c.id, c)[i].1.id),
                    None => entries_insert(entries, c.id, c)[i].1.id,
                }
                &&& category_ids_nested(entries_insert(entries, c.id, c)[i].1)
            },
{
    let e2 = entries_insert(entries, c.id, c);
    category_map::lemma_key_position_from(entries, c.id, 0);
    assert forall|i: int| 0 <= i < e2.len() implies {
        &&& (#[trigger] e2[i]).0 == e2[i].1.id
        &&& e2[i].1.full_id == match parent_full_id {
            Some(f) => child_full_id(f, e2[i].1.id),
            None => e2[i].1.id,
        }
        &&& category_ids_nested(e2[i].1)
    } by {
        match category_map::key_position(entries, c.id) {
            Some(p) => {
                if i != p {
                    assert(e2[i] == entries[i]);
                } else {
                    assert(e2[i] == (c.id, c));
                }
            },
            None => {
                if i < entries.len() {
                    assert(e2[i] == entries[i]);
                } else {
                    assert(e2[i] == (c.id, c));
                }
            },
        }
    }
}

proof fn lemma_stack_push(stack: Seq<PartialView>, x: PartialView)
    requires
        stack_category_ids(stack),
        x matches PartialView::MarkerCategory(c) ==> {
            &&& stack.len() > 0
            &&& category_ids_nested(c)
            &&& match stack.last() {
                PartialView::MarkerCategory(p) => c.full_id == child_full_id(p.full_id, c.id),
                PartialView::OverlayData => c.full_id == c.id,
                _ => false,
            }
        },
    ensures
        stack_category_ids(stack.push(x)),
{
    let s2 = stack.push(x);
    assert forall|i: int| 0 <= i < s2.len() implies (#[trigger] s2[i] matches PartialView::MarkerCategory(c) ==> {
        &&& i > 0
        &&& category_ids_nested(c)
        &&& match s2[i - 1] {
            PartialView::MarkerCategory(p) => c.full_id == child_full_id(p.full_id, c.id),
            PartialView::OverlayData => c.full_id == c.id,
            _ => false,
        }
    }) by {
        if i < stack.len() {
            let _ = stack[i];
        }
    }
}

proof fn lemma_stack_drop(stack: Seq<PartialView>)
    requires
        stack_category_ids(stack),
        stack.len() > 0,
    ensures
        stack_category_ids(stack.drop_last()),
{
    let s2 = stack.drop_last();
    assert forall|i: int| 0 <= i < s2.len() implies (#[trigger] s2[i] matches PartialView::MarkerCategory(c) ==> {
        &&& i > 0
        &&& category_ids_nested(c)
        &&& match s2[i - 1] {
            PartialView::MarkerCategory(p) => c.full_id == child_full_id(p.full_id, c.id),
            PartialView::OverlayData => c.full_id == c.id,
            _ => false,
        }
    }) by {
        let _ = stack[i];
    }
}

proof fn lemma_step_category_ids(pack: PackView, stack: Seq<PartialView>, event: XmlItemView)
    requires
        pack_category_ids(pack),
        stack_category_ids(stack),
    ensures
        match step(pack, stack, event) {
            StepView::Continue(p, s) => pack_category_ids(p) && stack_category_ids(s),
            StepView::Finished(p) => pack_category_ids(p),
            StepView::Failed(_) => true,
        },
{
    match event {
        XmlItemView::StartElement(name, attrs) => {
            let n = name.local_name;
            if start_allowed(top_of_stack(stack), n) {
                if eq_ignoring_ascii_case(n, "overlaydata"@) {
                    lemma_stack_push(stack, PartialView::OverlayData);
                } else if eq_ignoring_ascii_case(n, "markercategory"@) {
                    let c = category_from_attrs(stack, attrs);
                    assert(category_ids_nested(c));
                    lemma_stack_push(stack, PartialView::MarkerCategory(c));
                } else if eq_ignoring_ascii_case(n, "pois"@) {
                    lemma_stack_push(stack, PartialView::PoiGroup);
                } else if eq_ignoring_ascii_case(n, "poi"@) {
                    if let Ok(p) = poi::poi_from_attrs(attrs) {
                        lemma_stack_push(stack, PartialView::Poi(p));
                    }
                }
            }
        },
        XmlItemView::EndElement(name) => {
            let n = name.local_name;
            if end_allowed(top_of_stack(stack), n) {
                lemma_stack_drop(stack);
                if eq_ignoring_ascii_case(n, "markercategory"@) && !eq_ignoring_ascii_case(n, "overlaydata"@) && !eq_ignoring_ascii_case(n, "pois"@) {
                    lemma_close_category_ids(pack, stack);
                }
            }
        },
        _ => {},
    }
}

proof fn lemma_close_category_ids(pack: PackView, stack: Seq<PartialView>)
    requires
        pack_category_ids(pack),
        stack_category_ids(stack),
    ensures
        match close_category(pack, stack) {
            StepView::Continue(p, s) => pack_category_ids(p) && stack_category_ids(s),
            _ => true,
        },
{
    if let Some(PartialView::MarkerCategory(c)) = top_of_stack(stack) {
        let last = stack.len() - 1;
        let _ = stack[last];
        let rest = stack.drop_last();
        lemma_stack_drop(stack);
        match top_of_stack(rest) {
            Some(PartialView::OverlayData) => {
                assert(stack[last - 1] == rest.last());
                lemma_insert_nested(pack.categories, None, c);
                let p2 = PackView { categories: entries_insert(pack.categories, c.id, c), ..pack };
                assert forall|i: int| 0 <= i < p2.categories.len() implies {
                    &&& (#[trigger] p2.categories[i]).0 == p2.categories[i].1.id
                    &&& p2.categories[i].1.full_id == p2.categories[i].1.id
                    &&& category_ids_nested(p2.categories[i].1)
                } by {
                    let _ = entries_insert(pack.categories, c.id, c)[i];
                }
            },
            Some(PartialView::MarkerCategory(parent)) => {
                let pi = rest.len() - 1;
                assert(stack[last - 1] == rest.last());
                assert(stack[pi] == rest[pi]);
                let _ = stack[pi];
                assert(category_ids_nested(parent));
                assert(forall|i: int| 0 <= i < parent.sub_categories.len() ==> (#[trigger] parent.sub_categories[i]).0 == parent.sub_categories[i].1.id
                    && parent.sub_categories[i].1.full_id == child_full_id(parent.full_id, parent.sub_categories[i].1.id)
                    && category_ids_nested(parent.sub_categories[i].1));
                lemma_insert_nested(parent.sub_categories, Some(parent.full_id), c);
                let parent2 = CategoryView {
                    sub_categories: entries_insert(parent.sub_categories, c.id, c),
                    ..parent
                };
                assert(category_ids_nested(parent2)) by {
                    assert forall|i: int| 0 <= i < parent2.sub_categories.len() implies {
                        &&& (#[trigger] parent2.sub_categories[i]).0 == parent2.sub_categories[i].1.id
                        &&& parent2.sub_categories[i].1.full_id == child_full_id(parent2.full_id, parent2.sub_categories[i].1.id)
                        &&& category_ids_nested(parent2.sub_categories[i].1)
                    } by {
                        let _ = entries_insert(parent.sub_categories, c.id, c)[i];
                    }
                }
                let base = rest.drop_last();
                lemma_stack_drop(rest);
                if pi > 0 {
                    assert(base.last() == stack[pi - 1]);
                }
                lemma_stack_push(base, PartialView::MarkerCategory(parent2));
            },
            _ => {},
        }
    }
}

/// Full ids name the path to a category: in every pack read from a pack
/// whose categories are so named (an empty one, say), each category is stored
/// under its id, a category of the pack has its id as full id, and each
/// sub-category has as full id its parent's full id, a `.`, and its own id.
pub proof fn lemma_full_ids_follow_nesting(pack: PackView, events: Seq<XmlItemView>)
    requires
        pack_category_ids(pack),
    ensures
        match run_events(pack, events) {
            RunView::Running(p, s) => pack_category_ids(p) && stack_category_ids(s),
            RunView::Finished(p) => pack_category_ids(p),
            RunView::Failed(p, _) => pack_category_ids(p),
        },
    decreases events.len(),
{
    if events.len() > 0 {
        lemma_full_ids_follow_nesting(pack, events.drop_last());
        if let RunView::Running(p, s) = run_events(pack, events.drop_last()) {
            lemma_step_category_ids(p, s, events.last());
        }
    }
}


pub open spec fn stack_pois_valid(stack: Seq<PartialView>) -> bool {
    forall|i: int|
        0 <= i < stack.len() ==> (#[trigger] stack[i] matches PartialView::Poi(p)
            ==> poi::poi_coordinates_valid(p))
}

pub open spec fn pack_pois_valid(pack: PackView) -> bool {
    forall|i: int| 0 <= i < pack.pois.len() ==> poi::poi_coordinates_valid(#[trigger] pack.pois[i])
}

proof fn lemma_step_pois(pack: PackView, stack: Seq<PartialView>, event: XmlItemView)
    requires
        pack_pois_valid(pack),
        stack_pois_valid(stack),
    ensures
        match step(pack, stack, event) {
            StepView::Continue(p, s) => pack_pois_valid(p) && stack_pois_valid(s),
            StepView::Finished(p) => pack_pois_valid(p),
            StepView::Failed(_) => true,
        },
{
    match event {
        XmlItemView::StartElement(name, attrs) => {
            poi::lemma_poi_coordinates(attrs);
            let n = name.local_name;
            if start_allowed(top_of_stack(stack), n) {
                let x = if eq_ignoring_ascii_case(n, "overlaydata"@) {
                    PartialView::OverlayData
                } else if eq_ignoring_ascii_case(n, "markercategory"@) {
                    PartialView::MarkerCategory(category_from_attrs(stack, attrs))
                } else if eq_ignoring_ascii_case(n, "pois"@) {
                    PartialView::PoiGroup
                } else {
                    match poi::poi_from_attrs(attrs) {
                        Ok(p) => PartialView::Poi(p),
                        Err(_) => PartialView::PoiGroup,
                    }
                };
                let s2 = stack.push(x);
                assert forall|i: int| 0 <= i < s2.len() implies (#[trigger] s2[i] matches PartialView::Poi(p)
                    ==> poi::poi_coordinates_valid(p)) by {
                    if i < stack.len() {
                        let _ = stack[i];
                    }
                }
            }
        },
        XmlItemView::EndElement(name) => {
            let n = name.local_name;
            if end_allowed(top_of_stack(stack), n) && stack.len() > 0 {
                let s2 = stack.drop_last();
                assert forall|i: int| 0 <= i < s2.len() implies (#[trigger] s2[i] matches PartialView::Poi(p)
                    ==> poi::poi_coordinates_valid(p)) by {
                    let _ = stack[i];
                }
                let _ = stack[stack.len() - 1];
                if let Some(PartialView::MarkerCategory(c)) = top_of_stack(stack) {
                    let rest = stack.drop_last();
                    if rest.len() > 0 {
                        let _ = rest[rest.len() - 1];
                        assert forall|i: int| 0 <= i < rest.drop_last().len() implies (#[trigger] rest.drop_last()[i] matches PartialView::Poi(p)
                            ==> poi::poi_coordinates_valid(p)) by {
                            let _ = rest[i];
                        }
                    }
                }
                if let PartialView::Poi(p) = stack.last() {
                    let p2 = pack.pois.push(p);
                    assert forall|i: int| 0 <= i < p2.len() implies poi::poi_coordinates_valid(#[trigger] p2[i]) by {
                        if i < pack.pois.len() {
                            let _ = pack.pois[i];
                        }
                    }
                }
            }
        },
        _ => {},
    }
}

/// Every point of interest read into a pack has a map id and three
/// coordinates that `f32::from_str` accepts: reading keeps this of any pack
/// that had it (an empty one, say).
pub proof fn lemma_read_pois_are_valid(pack: PackView, events: Seq<XmlItemView>)
    requires
        pack_pois_valid(pack),
    ensures
        match run_events(pack, events) {
            RunView::Running(p, s) => pack_pois_valid(p) && stack_pois_valid(s),
            RunView::Finished(p) => pack_pois_valid(p),
            RunView::Failed(p, _) => pack_pois_valid(p),
        },
    decreases events.len(),
{
    if events.len() > 0 {
        lemma_read_pois_are_valid(pack, events.drop_last());
        if let RunView::Running(p, s) = run_events(pack, events.drop_last()) {
            lemma_step_pois(p, s, events.last());
        }
    }
}

} // verus!

verus! {

proof fn lemma_read_only_adds(pack: PackView, bytes: Seq<u8>, k: nat)
    ensures
        match read_events(pack, bytes, k) {
            RunView::Running(p, s) => pack_extends(pack, p) && no_trail_items(s),
            RunView::Finished(p) => pack_extends(pack, p),
            RunView::Failed(p, _) => pack_extends(pack, p),
        },
    decreases k,
{
    if k == 0 {
        assert(pack.pois.take(pack.pois.len() as int) == pack.pois);
    } else {
        lemma_read_only_adds(pack, bytes, (k - 1) as nat);
        if let RunView::Running(p, s) = read_events(pack, bytes, (k - 1) as nat) {
            if let Ok(event) = xml_event_at(bytes, (k - 1) as nat) {
                lemma_step_extends(p, s, event);
                if let StepView::Continue(p2, s2) = step(p, s, event) {
                    lemma_extends_trans(pack, p, p2);
                }
            }
        }
    }
}

proof fn lemma_read_full_ids(pack: PackView, bytes: Seq<u8>, k: nat)
    requires
        pack_category_ids(pack),
    ensures
        match read_events(pack, bytes, k) {
            RunView::Running(p, s) => pack_category_ids(p) && stack_category_ids(s),
            RunView::Finished(p) => pack_category_ids(p),
            RunView::Failed(p, _) => pack_category_ids(p),
        },
    decreases k,
{
    if k > 0 {
        lemma_read_full_ids(pack, bytes, (k - 1) as nat);
        if let RunView::Running(p, s) = read_events(pack, bytes, (k - 1) as nat) {
            if let Ok(event) = xml_event_at(bytes, (k - 1) as nat) {
                lemma_step_category_ids(p, s, event);
            }
        }
    }
}

proof fn lemma_read_pois_valid(pack: PackView, bytes: Seq<u8>, k: nat)
    requires
        pack_pois_valid(pack),
    ensures
        match read_events(pack, bytes, k) {
            RunView::Running(p, s) => pack_pois_valid(p) && stack_pois_valid(s),
            RunView::Finished(p) => pack_pois_valid(p),
            RunView::Failed(p, _) => pack_pois_valid(p),
        },
    decreases k,
{
    if k > 0 {
        lemma_read_pois_valid(pack, bytes, (k - 1) as nat);
        if let RunView::Running(p, s) = read_events(pack, bytes, (k - 1) as nat) {
            if let Ok(event) = xml_event_at(bytes, (k - 1) as nat) {
                lemma_step_pois(p, s, event);
            }
        }
    }
}

/// Reading a document's bytes only adds to a pack, as reading events does:
/// however the reading ends, the textures and trails are as they were, the
/// points of interest already there come first and in order, and every
/// category name stays.
pub proof fn lemma_document_only_adds(pack: PackView, bytes: Seq<u8>)
    ensures
        match document_read(pack, bytes) {
            RunView::Finished(p) => pack_extends(pack, p),
            RunView::Failed(p, _) => pack_extends(pack, p),
            RunView::Running(_, _) => false,
        },
{
    lemma_read_only_adds(pack, bytes, usize::MAX as nat);
}

/// Full ids name the path to a category in every pack read from a
/// document's bytes into a pack whose categories are so named, as they do in
/// every pack read from events.
pub proof fn lemma_document_full_ids(pack: PackView, bytes: Seq<u8>)
    requires
        pack_category_ids(pack),
    ensures
        match document_read(pack, bytes) {
            RunView::Finished(p) => pack_category_ids(p),
            RunView::Failed(p, _) => pack_category_ids(p),
            RunView::Running(_, _) => false,
        },
{
    lemma_read_full_ids(pack, bytes, usize::MAX as nat);
}

/// Every point of interest read from a document's bytes into a pack whose
/// points are valid has a map id and three coordinates that `f32::from_str`
/// accepts.
pub proof fn lemma_document_pois_are_valid(pack: PackView, bytes: Seq<u8>)
    requires
        pack_pois_valid(pack),
    ensures
        match document_read(pack, bytes) {
            RunView::Finished(p) => pack_pois_valid(p),
            RunView::Failed(p, _) => pack_pois_valid(p),
            RunView::Running(_, _) => false,
        },
{
    lemma_read_pois_valid(pack, bytes, usize::MAX as nat);
}

} // verus!

verus! {

/// After filing `value` under `key`, `after` finds `value` under `key`, and
/// finds every other name where `before` found it.
pub open spec fn files_under(
    before: Seq<(Seq<char>, CategoryView)>,
    after: Seq<(Seq<char>, CategoryView)>,
    key: Seq<char>,
    value: CategoryView,
) -> bool {
    &&& match category_map::key_position(after, key) {
        Some(i) => after[i].1 == value,
        None => false,
    }
    &&& forall|k: Seq<char>| k != key ==> #[trigger] category_map::key_position(after, k)
        == category_map::key_position(before, k)
}

/// The step files `c` in `parent`, the category below it on the stack: the
/// pack is unchanged, the stack loses `c`, the parent keeps its place, id and
/// full id, and everything below the parent stays as it was.
pub open spec fn filed_in_parent(
    pack: PackView,
    below: Seq<PartialView>,
    parent: CategoryView,
    c: CategoryView,
    result: StepView,
) -> bool {
    match result {
        StepView::Continue(p2, s2) => {
            &&& p2 == pack
            &&& s2.len() == below.len()
            &&& s2.drop_last() == below.drop_last()
            &&& match s2.last() {
                PartialView::MarkerCategory(q) => {
                    &&& q.id == parent.id
                    &&& q.full_id == parent.full_id
                    &&& files_under(parent.sub_categories, q.sub_categories, c.id, c)
                },
                _ => false,
            }
        },
        _ => false,
    }
}

/// The step files `c` in the pack's categories: the stack loses `c`, and the
/// points of interest and trails stay as they were.
pub open spec fn filed_in_pack(pack: PackView, below: Seq<PartialView>, c: CategoryView, result: StepView) -> bool {
    match result {
        StepView::Continue(p2, s2) => {
            &&& s2 == below
            &&& p2.pois == pack.pois
            &&& p2.trails == pack.trails
            &&& files_under(pack.categories, p2.categories, c.id, c)
        },
        _ => false,
    }
}

/// Closing a category files it under its id in whatever holds it, at any
/// depth: when the item below it is a category, in that category's
/// sub-categories; when it is `OverlayData`, in the pack's categories.
/// Anywhere else the closing is rejected.
pub proof fn lemma_closing_files_the_category(pack: PackView, stack: Seq<PartialView>)
    requires
        stack.len() >= 1,
        stack.last() is MarkerCategory,
    ensures
        match top_of_stack(stack.drop_last()) {
            Some(PartialView::MarkerCategory(parent)) => filed_in_parent(
                pack,
                stack.drop_last(),
                parent,
                stack.last()->MarkerCategory_0,
                close_category(pack, stack),
            ),
            Some(PartialView::OverlayData) => filed_in_pack(
                pack,
                stack.drop_last(),
                stack.last()->MarkerCategory_0,
                close_category(pack, stack),
            ),
            _ => close_category(pack, stack) is Failed,
        },
{
    let c = stack.last()->MarkerCategory_0;
    let below = stack.drop_last();
    match top_of_stack(below) {
        Some(PartialView::MarkerCategory(parent)) => {
            category_map::lemma_insert_then_get(parent.sub_categories, c.id, c, c.id);
            assert forall|k: Seq<char>| k != c.id implies #[trigger] category_map::key_position(
                entries_insert(parent.sub_categories, c.id, c),
                k,
            ) == category_map::key_position(parent.sub_categories, k) by {
                category_map::lemma_insert_then_get(parent.sub_categories, c.id, c, k);
            }
            let s2 = below.drop_last().push(
                PartialView::MarkerCategory(
                    CategoryView { sub_categories: entries_insert(parent.sub_categories, c.id, c), ..parent },
                ),
            );
            assert(s2.drop_last() == below.drop_last());
        },
        Some(PartialView::OverlayData) => {
            category_map::lemma_insert_then_get(pack.categories, c.id, c, c.id);
            assert forall|k: Seq<char>| k != c.id implies #[trigger] category_map::key_position(
                entries_insert(pack.categories, c.id, c),
                k,
            ) == category_map::key_position(pack.categories, k) by {
                category_map::lemma_insert_then_get(pack.categories, c.id, c, k);
            }
        },
        _ => {},
    }
}

/// Reading the end of a `MarkerCategory` element while a category is open
/// closes that category as `lemma_closing_files_the_category` says.
pub proof fn lemma_category_end_closes(pack: PackView, stack: Seq<PartialView>, name: XmlNameView)
    requires
        stack.len() >= 1,
        stack.last() is MarkerCategory,
        eq_ignoring_ascii_case(name.local_name, "markercategory"@),
    ensures
        step(pack, stack, XmlItemView::EndElement(name)) == close_category(pack, stack),
{
    reveal_strlit("markercategory");
    reveal_strlit("overlaydata");
    reveal_strlit("pois");
    assert(!eq_ignoring_ascii_case(name.local_name, "overlaydata"@));
    assert(!eq_ignoring_ascii_case(name.local_name, "pois"@));
}

} // verus!
