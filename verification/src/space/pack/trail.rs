//! Trails and the binary trail file format.
use super::events::{attrs_view, XmlAttribute};
use super::loader::PackLoaderContext;
use super::text::{eq_ignore_ascii_case, eq_ignoring_ascii_case, safe_name};
use super::{taco_safe_name, Pack, PackError, PackErrorView};
use vstd::prelude::*;

verus! {

pub struct Trail {
    pub id: String,
    pub data: TrailData,
}

pub struct TrailData {
    pub map_id: i32,
    pub sections: Vec<TrailSection>,
}

/// A run of points; each point is the bit patterns of its three `f32`
/// coordinates, as stored little-endian in the trail file.
pub struct TrailSection {
    pub points: Vec<[u32; 3]>,
}

#[verifier::ext_equal]
pub struct TrailView {
    pub id: Seq<char>,
    pub map_id: i32,
    pub sections: Seq<Seq<[u32; 3]>>,
}

impl View for Trail {
    type V = TrailView;

    open spec fn view(&self) -> TrailView {
        TrailView {
            id: self.id@,
            map_id: self.data.map_id,
            sections: self.data.sections@.map_values(|s: TrailSection| s.points@),
        }
    }
}

/// Why a trail file could not be read.
#[derive(Debug, Clone, Copy, PartialEq, Eq)]
pub enum TrailFileError {
    /// The file ends before its four version bytes.
    ReadingVersion,
    /// The version is not 0; the version found.
    UnsupportedVersion(i32),
    /// The file ends before its four map id bytes.
    ReadingMapId,
}

/// A read that needed more bytes than were left.
#[derive(Debug, Clone, Copy, PartialEq, Eq)]
pub enum ReadError {
    UnexpectedEof,
}

/// Reads a byte slice from the front.
pub struct ByteReader<'a> {
    bytes: &'a [u8],
    pos: usize,
}

impl<'a> ByteReader<'a> {
    pub closed spec fn remaining(&self) -> Seq<u8> {
        self.bytes@.skip(self.pos as int)
    }

    #[verifier::type_invariant]
    spec fn wf(self) -> bool {
        self.pos <= self.bytes@.len()
    }

    pub fn new(bytes: &'a [u8]) -> (r: ByteReader<'a>)
        ensures
            r.remaining() == bytes@,
    {
        ByteReader { bytes, pos: 0 }
    }

    /// Reads the next four bytes. When fewer are left, all of them are
    /// consumed and the read fails, as `Read::read_exact` does on a slice.
    pub fn read_exact4(&mut self) -> (r: Result<[u8; 4], ReadError>)
        ensures
            old(self).remaining().len() >= 4 ==> (r matches Ok(b) && b@ == old(self).remaining().take(4)
                && final(self).remaining() == old(self).remaining().skip(4)),
            old(self).remaining().len() < 4 ==> r is Err && final(self).remaining().len() == 0,
    {
        proof {
            use_type_invariant(&*self);
        }
        if self.bytes.len() - self.pos >= 4 {
            let p = self.pos;
            let b = [self.bytes[p], self.bytes[p + 1], self.bytes[p + 2], self.bytes[p + 3]];
            self.pos = p + 4;
            proof {
                assert(b@ =~= self.bytes@.skip(p as int).take(4));
                assert(self.bytes@.skip(p as int).skip(4) =~= self.bytes@.skip(p + 4));
            }
            Ok(b)
        } else {
            self.pos = self.bytes.len();
            Err(ReadError::UnexpectedEof)
        }
    }
}

/// The unsigned value of four bytes, least significant first.
pub open spec fn le_u32_value(b: Seq<u8>) -> int {
    b[0] + 256 * b[1] + 65536 * b[2] + 16777216 * b[3]
}

/// The signed value of four bytes, least significant first.
pub open spec fn le_i32_value(b: Seq<u8>) -> int {
    if le_u32_value(b) >= 0x8000_0000 {
        le_u32_value(b) - 0x1_0000_0000
    } else {
        le_u32_value(b)
    }
}

fn le_u32(b: [u8; 4]) -> (r: u32)
    ensures
        r == le_u32_value(b@),
{
    (b[0] as u32) + 256 * (b[1] as u32) + 65536 * (b[2] as u32) + 16777216 * (b[3] as u32)
}

fn le_i32(b: [u8; 4]) -> (r: i32)
    ensures
        r == le_i32_value(b@),
{
    let u = le_u32(b);
    if u >= 0x8000_0000 {
        (u - 0x8000_0000) as i32 - 0x4000_0000 - 0x4000_0000
    } else {
        u as i32
    }
}

/// Reads one point: three groups of four bytes.
pub fn read_point(reader: &mut ByteReader) -> (r: Result<[[u8; 4]; 3], ReadError>)
    ensures
        old(reader).remaining().len() >= 12 ==> (r matches Ok(p) && p[0]@ == old(reader).remaining().subrange(0, 4)
            && p[1]@ == old(reader).remaining().subrange(4, 8) && p[2]@ == old(reader).remaining().subrange(8, 12)
            && final(reader).remaining() == old(reader).remaining().skip(12)),
        old(reader).remaining().len() < 12 ==> r is Err && final(reader).remaining().len() == 0,
{
    let ghost rem = reader.remaining();
    let a = match reader.read_exact4() {
        Ok(b) => b,
        Err(e) => return Err(e),
    };
    let b = match reader.read_exact4() {
        Ok(b) => b,
        Err(e) => return Err(e),
    };
    let c = match reader.read_exact4() {
        Ok(b) => b,
        Err(e) => return Err(e),
    };
    proof {
        assert(rem.skip(4).take(4) =~= rem.subrange(4, 8));
        assert(rem.skip(4).skip(4).take(4) =~= rem.subrange(8, 12));
        assert(rem.take(4) =~= rem.subrange(0, 4));
        assert(rem.skip(4).skip(4).skip(4) =~= rem.skip(12));
    }
    Ok([a, b, c])
}

fn is_empty_point(p: &[[u8; 4]; 3]) -> (r: bool)
    ensures
        r == (forall|i: int, j: int| 0 <= i < 3 && 0 <= j < 4 ==> p[i][j] == 0),
{
    let mut i: usize = 0;
    while i < 3
        invariant
            i <= 3,
            forall|a: int, c: int| 0 <= a < i && 0 <= c < 4 ==> p[a][c] == 0,
        decreases 3 - i,
    {
        if p[i][0] != 0 || p[i][1] != 0 || p[i][2] != 0 || p[i][3] != 0 {
            return false;
        }
        i = i + 1;
    }
    true
}

/// What reading a trail file's header gives: the map id, or why not.
pub open spec fn trl_header(bytes: Seq<u8>) -> Result<i32, TrailFileError> {
    if bytes.len() < 4 {
        Err(TrailFileError::ReadingVersion)
    } else if le_i32_value(bytes.subrange(0, 4)) != 0 {
        Err(TrailFileError::UnsupportedVersion(le_i32_value(bytes.subrange(0, 4)) as i32))
    } else if bytes.len() < 8 {
        Err(TrailFileError::ReadingMapId)
    } else {
        Ok(le_i32_value(bytes.subrange(4, 8)) as i32)
    }
}

/// Reads a trail file: a little-endian `i32` version, which must be 0, a
/// little-endian `i32` map id, then points of three little-endian `f32`s until
/// the bytes run out, an all-zero point ending a section. The sections read
/// are not kept: the result always has none.
pub fn read_trl_file(bytes: &[u8]) -> (r: Result<TrailData, TrailFileError>)
    ensures
        match trl_header(bytes@) {
            Ok(m) => r matches Ok(d) && d.map_id == m && d.sections@.len() == 0,
            Err(e) => r == Err::<TrailData, TrailFileError>(e),
        },
{
    let mut reader = ByteReader::new(bytes);
    let version = match reader.read_exact4() {
        Ok(b) => b,
        Err(_) => return Err(TrailFileError::ReadingVersion),
    };
    assert(version@ == bytes@.subrange(0, 4));
    let v = le_i32(version);
    if v != 0 {
        return Err(TrailFileError::UnsupportedVersion(v));
    }
    let map_bytes = match reader.read_exact4() {
        Ok(b) => b,
        Err(_) => return Err(TrailFileError::ReadingMapId),
    };
    assert(map_bytes@ == bytes@.subrange(4, 8));
    let map_id = le_i32(map_bytes);

    let mut sections: Vec<TrailSection> = Vec::new();
    let mut current_section: Vec<[u32; 3]> = Vec::new();
    let mut read_more = true;
    while read_more
        decreases
            if read_more { reader.remaining().len() + 1 } else { 0 },
    {
        let point_data = match read_point(&mut reader) {
            Ok(p) => p,
            Err(ReadError::UnexpectedEof) => {
                read_more = false;
                [[0u8; 4]; 3]
            },
        };
        if is_empty_point(&point_data) {
            if current_section.len() > 0 {
                let mut points: Vec<[u32; 3]> = Vec::new();
                std::mem::swap(&mut points, &mut current_section);
                sections.push(TrailSection { points });
            }
        } else {
            let x = le_u32(point_data[0]);
            let y = le_u32(point_data[1]);
            let z = le_u32(point_data[2]);
            current_section.push([x, y, z]);
        }
    }
    Ok(TrailData { map_id, sections: Vec::new() })
}

/// The type name of a trail: its last `trailData` attribute made safe, or
/// empty when it has none.
pub open spec fn trail_type_name(attrs: Seq<(Seq<char>, Seq<char>)>) -> Seq<char>
    decreases attrs.len(),
{
    if attrs.len() == 0 {
        Seq::empty()
    } else if eq_ignoring_ascii_case(attrs.last().0, "trailData"@) {
        safe_name(attrs.last().1, true)
    } else {
        trail_type_name(attrs.drop_last())
    }
}

/// What reading a `trail` element gives. The attribute that names the type
/// also is the only one tested for the data file, so no data file is ever
/// found: a trail element is always rejected.
pub open spec fn trail_from_attrs(attrs: Seq<(Seq<char>, Seq<char>)>) -> PackErrorView {
    if trail_type_name(attrs).len() == 0 {
        PackErrorView::TrailMissingType
    } else {
        PackErrorView::TrailMissingData(trail_type_name(attrs))
    }
}

impl Trail {
    pub fn from_xml<C: PackLoaderContext>(pack: &mut Pack, ctx: &C, attrs: Vec<XmlAttribute>) -> (r: Result<Trail, PackError>)
        ensures
            r matches Err(e) && e@ == trail_from_attrs(attrs_view(attrs@)),
            *final(pack) == *old(pack),
    {
        let mut id = String::new();
        let mut trail_path: Option<String> = None;
        let ghost av = attrs_view(attrs@);
        let mut i: usize = 0;
        while i < attrs.len()
            invariant
                i <= attrs@.len(),
                av == attrs_view(attrs@),
                id@ == trail_type_name(av.take(i as int)),
                trail_path is None,
            decreases attrs@.len() - i,
        {
            let attr = &attrs[i];
            proof {
                assert(av.take(i + 1).drop_last() == av.take(i as int));
                assert(av.take(i + 1).last() == attr@);
            }
            if eq_ignore_ascii_case(attr.name.as_str(), "trailData") {
                id = taco_safe_name(attr.value.as_str(), true);
            } else if eq_ignore_ascii_case(attr.name.as_str(), "trailData") {
                // the same test as above: never reached
                trail_path = Some(attr.value.clone());
            }
            i = i + 1;
        }
        assert(av.take(attrs@.len() as int) == av);
        if id.as_str().is_empty() {
            return Err(PackError::TrailMissingType);
        }
        let trail_path = match trail_path {
            Some(p) => p,
            None => return Err(PackError::TrailMissingData(id)),
        };
        let bytes = match ctx.load_asset(trail_path.as_str()) {
            Ok(b) => b,
            Err(e) => return Err(PackError::Load(e)),
        };
        match read_trl_file(bytes.as_slice()) {
            Ok(data) => Ok(Trail { id, data }),
            Err(e) => Err(PackError::TrailFile(e)),
        }
    }
}

/// The four bytes of `u`, least significant first, as `u32::to_le_bytes`
/// gives them.
pub open spec fn le_bytes(u: u32) -> Seq<u8> {
    seq![(u % 256) as u8, ((u / 256) % 256) as u8, ((u / 65536) % 256) as u8, (u / 16777216) as u8]
}

/// Reading four little-endian bytes gives back the number they were written
/// from: unsigned, and signed (the bytes of an `i32` being those of the same
/// bits as a `u32`).
pub proof fn lemma_le_round_trip(u: u32, m: i32)
    ensures
        le_u32_value(le_bytes(u)) == u,
        le_i32_value(le_bytes(m as u32)) == m,
{
    assert((u % 256) + 256 * ((u / 256) % 256) + 65536 * ((u / 65536) % 256) + 16777216 * (u / 16777216) == u)
        by (bit_vector);
    let v = m as u32;
    assert((v % 256) + 256 * ((v / 256) % 256) + 65536 * ((v / 65536) % 256) + 16777216 * (v / 16777216) == v)
        by (bit_vector);
    assert(v as int == if m < 0 { m + 0x1_0000_0000 } else { m as int }) by (bit_vector)
        requires
            v == m as u32,
    ;
}

/// A trail file that starts with version 0 and a map id gives that map id,
/// whatever follows.
pub proof fn lemma_trail_header_round_trip(m: i32, rest: Seq<u8>)
    ensures
        trl_header(le_bytes(0) + le_bytes(m as u32) + rest) == Ok::<i32, TrailFileError>(m),
{
    lemma_le_round_trip(0, 0);
    lemma_le_round_trip(0, m);
    let bytes = le_bytes(0) + le_bytes(m as u32) + rest;
    assert(bytes.subrange(0, 4) =~= le_bytes(0));
    assert(bytes.subrange(4, 8) =~= le_bytes(m as u32));
}

} // verus!
