//! Points of interest.
use super::events::{attrs_view, XmlAttribute};
use super::loader::PackLoaderContext;
use super::text::{eq_ignore_ascii_case, eq_ignoring_ascii_case, float_literal, i32_text_value, is_float_literal, parse_i32, safe_name};
use super::{taco_safe_name, Axis, Pack, PackError, PackErrorView};
use vstd::prelude::*;

verus! {

/// A position in map space. Each coordinate is kept as the decimal text it was
/// given in, one that `f32::from_str` accepts (see `float_literal`).
pub struct MapPosition {
    pub x: String,
    pub y: String,
    pub z: String,
}

pub struct Poi {
    pub id: String,
    pub map_id: i32,
    pub position: MapPosition,
}

#[verifier::ext_equal]
pub struct PoiView {
    pub id: Seq<char>,
    pub map_id: i32,
    pub position: (Seq<char>, Seq<char>, Seq<char>),
}

impl View for Poi {
    type V = PoiView;

    open spec fn view(&self) -> PoiView {
        PoiView {
            id: self.id@,
            map_id: self.map_id,
            position: (self.position.x@, self.position.y@, self.position.z@),
        }
    }
}

/// What the attributes read so far have given.
pub struct PoiScan {
    pub id: Seq<char>,
    pub map_id: Option<i32>,
    pub x: Option<Seq<char>>,
    pub y: Option<Seq<char>>,
    pub z: Option<Seq<char>>,
}

pub open spec fn poi_scan_start() -> PoiScan {
    PoiScan { id: Seq::empty(), map_id: None, x: None, y: None, z: None }
}

/// Reads one attribute of a point of interest; a value that does not parse
/// is an error.
pub open spec fn poi_take_attr(acc: PoiScan, attr: (Seq<char>, Seq<char>)) -> Result<
    PoiScan,
    PackErrorView,
> {
    let (name, value) = attr;
    if eq_ignoring_ascii_case(name, "type"@) {
        Ok(PoiScan { id: safe_name(value, true), ..acc })
    } else if eq_ignoring_ascii_case(name, "MapID"@) {
        match i32_text_value(value) {
            Some(m) => Ok(PoiScan { map_id: Some(m), ..acc }),
            None => Err(PackErrorView::InvalidPoiMapId),
        }
    } else if eq_ignoring_ascii_case(name, "xpos"@) {
        if float_literal(value) {
            Ok(PoiScan { x: Some(value), ..acc })
        } else {
            Err(PackErrorView::InvalidPoiCoordinate(Axis::X))
        }
    } else if eq_ignoring_ascii_case(name, "ypos"@) {
        if float_literal(value) {
            Ok(PoiScan { y: Some(value), ..acc })
        } else {
            Err(PackErrorView::InvalidPoiCoordinate(Axis::Y))
        }
    } else if eq_ignoring_ascii_case(name, "zpos"@) {
        if float_literal(value) {
            Ok(PoiScan { z: Some(value), ..acc })
        } else {
            Err(PackErrorView::InvalidPoiCoordinate(Axis::Z))
        }
    } else {
        Ok(acc)
    }
}

/// Reads the attributes in order, stopping at the first that does not parse.
pub open spec fn poi_scan(attrs: Seq<(Seq<char>, Seq<char>)>) -> Result<PoiScan, PackErrorView>
    decreases attrs.len(),
{
    if attrs.len() == 0 {
        Ok(poi_scan_start())
    } else {
        match poi_scan(attrs.drop_last()) {
            Ok(acc) => poi_take_attr(acc, attrs.last()),
            Err(e) => Err(e),
        }
    }
}

/// The point of interest that a `poi` element with these attributes describes.
pub open spec fn poi_from_attrs(attrs: Seq<(Seq<char>, Seq<char>)>) -> Result<PoiView, PackErrorView> {
    match poi_scan(attrs) {
        Err(e) => Err(e),
        Ok(acc) => match (acc.map_id, acc.x, acc.y, acc.z) {
            (None, _, _, _) => Err(PackErrorView::PoiMissingMapId),
            (Some(m), Some(x), Some(y), Some(z)) => Ok(PoiView { id: acc.id, map_id: m, position: (x, y, z) }),
            _ => Err(PackErrorView::PoiMissingPosition),
        },
    }
}

pub open spec fn poi_result_view(r: Result<Poi, PackError>) -> Result<PoiView, PackErrorView> {
    match r {
        Ok(p) => Ok(p@),
        Err(e) => Err(e@),
    }
}

impl Poi {
    /// Reads a `poi` element's attributes: `type` (the id, made safe),
    /// `MapID`, and the coordinates `xpos`, `ypos` and `zpos`, names without
    /// regard to ASCII case; other attributes are ignored.
    pub fn from_xml<C: PackLoaderContext>(pack: &mut Pack, ctx: &C, attrs: Vec<XmlAttribute>) -> (r: Result<Poi, PackError>)
        ensures
            poi_result_view(r) == poi_from_attrs(attrs_view(attrs@)),
            *final(pack) == *old(pack),
    {
        let mut id = String::new();
        let mut map_id: Option<i32> = None;
        let mut pos_x: Option<String> = None;
        let mut pos_y: Option<String> = None;
        let mut pos_z: Option<String> = None;
        let ghost av = attrs_view(attrs@);
        let mut i: usize = 0;
        while i < attrs.len()
            invariant
                i <= attrs@.len(),
                av == attrs_view(attrs@),
                poi_scan(av.take(i as int)) == Ok::<PoiScan, PackErrorView>(PoiScan {
                    id: id@,
                    map_id: map_id,
                    x: super::events::opt_text_view(pos_x),
                    y: super::events::opt_text_view(pos_y),
                    z: super::events::opt_text_view(pos_z),
                }),
            decreases attrs@.len() - i,
        {
            let attr = &attrs[i];
            proof {
                assert(av.take(i + 1).drop_last() == av.take(i as int));
                assert(av.take(i + 1).last() == attr@);
            }
            if eq_ignore_ascii_case(attr.name.as_str(), "type") {
                id = taco_safe_name(attr.value.as_str(), true);
            } else if eq_ignore_ascii_case(attr.name.as_str(), "MapID") {
                match parse_i32(attr.value.as_str()) {
                    Some(m) => map_id = Some(m),
                    None => {
                        proof { lemma_scan_stops(av, i as int); }
                        return Err(PackError::InvalidPoiMapId);
                    },
                }
            } else if eq_ignore_ascii_case(attr.name.as_str(), "xpos") {
                if is_float_literal(attr.value.as_str()) {
                    pos_x = Some(attr.value.clone());
                } else {
                    proof { lemma_scan_stops(av, i as int); }
                    return Err(PackError::InvalidPoiCoordinate(Axis::X));
                }
            } else if eq_ignore_ascii_case(attr.name.as_str(), "ypos") {
                if is_float_literal(attr.value.as_str()) {
                    pos_y = Some(attr.value.clone());
                } else {
                    proof { lemma_scan_stops(av, i as int); }
                    return Err(PackError::InvalidPoiCoordinate(Axis::Y));
                }
            } else if eq_ignore_ascii_case(attr.name.as_str(), "zpos") {
                if is_float_literal(attr.value.as_str()) {
                    pos_z = Some(attr.value.clone());
                } else {
                    proof { lemma_scan_stops(av, i as int); }
                    return Err(PackError::InvalidPoiCoordinate(Axis::Z));
                }
            }
            i = i + 1;
        }
        assert(av.take(attrs@.len() as int) == av);
        let map_id = match map_id {
            Some(m) => m,
            None => return Err(PackError::PoiMissingMapId),
        };
        match (pos_x, pos_y, pos_z) {
            (Some(x), Some(y), Some(z)) => Ok(Poi { id, map_id, position: MapPosition { x, y, z } }),
            _ => Err(PackError::PoiMissingPosition),
        }
    }
}

/// Reading a point of interest fails only for its own reasons.
pub proof fn lemma_poi_rejections(attrs: Seq<(Seq<char>, Seq<char>)>)
    ensures
        poi_from_attrs(attrs) matches Err(e) ==> !(e is Xml) && !(e is TooManyEvents),
        poi_scan(attrs) matches Err(e) ==> !(e is Xml) && !(e is TooManyEvents),
    decreases attrs.len(),
{
    if attrs.len() > 0 {
        lemma_poi_rejections(attrs.drop_last());
    }
}

/// A point of interest that was read has three coordinates that
/// `f32::from_str` accepts.
pub open spec fn poi_coordinates_valid(p: PoiView) -> bool {
    float_literal(p.position.0) && float_literal(p.position.1) && float_literal(p.position.2)
}

pub open spec fn scan_coordinates_valid(acc: PoiScan) -> bool {
    &&& acc.x matches Some(x) ==> float_literal(x)
    &&& acc.y matches Some(y) ==> float_literal(y)
    &&& acc.z matches Some(z) ==> float_literal(z)
}

proof fn lemma_scan_coordinates(attrs: Seq<(Seq<char>, Seq<char>)>)
    ensures
        poi_scan(attrs) matches Ok(acc) ==> scan_coordinates_valid(acc),
    decreases attrs.len(),
{
    if attrs.len() > 0 {
        lemma_scan_coordinates(attrs.drop_last());
    }
}

/// Every point of interest read from attributes has valid coordinates.
pub proof fn lemma_poi_coordinates(attrs: Seq<(Seq<char>, Seq<char>)>)
    ensures
        poi_from_attrs(attrs) matches Ok(p) ==> poi_coordinates_valid(p),
{
    lemma_scan_coordinates(attrs);
}

/// Once an attribute fails to parse, the scan of all attributes fails the same way.
proof fn lemma_scan_stops(av: Seq<(Seq<char>, Seq<char>)>, i: int)
    requires
        0 <= i < av.len(),
        poi_scan(av.take(i + 1)) is Err,
    ensures
        poi_scan(av) == poi_scan(av.take(i + 1)),
    decreases av.len() - i,
{
    if i + 1 == av.len() {
        assert(av.take(i + 1) == av);
    } else {
        assert(av.take(i + 2).drop_last() == av.take(i + 1));
        lemma_scan_stops(av, i + 1);
    }
}

} // verus!
