//! Markup events of a pack definition, as plain values, and the reader that
//! produces them from a document's bytes.
use vstd::prelude::*;
use xml::common::Position;
use std::io::Cursor;
use xml::reader::{EventReader, XmlEvent};

verus! {

/// The qualified name of an element.
#[derive(Debug)]
pub struct XmlName {
    pub local_name: String,
    pub namespace: Option<String>,
    pub prefix: Option<String>,
}

pub struct XmlNameView {
    pub local_name: Seq<char>,
    pub namespace: Option<Seq<char>>,
    pub prefix: Option<Seq<char>>,
}

pub open spec fn opt_text_view(t: Option<String>) -> Option<Seq<char>> {
    match t {
        Some(s) => Some(s@),
        None => None,
    }
}

impl View for XmlName {
    type V = XmlNameView;

    open spec fn view(&self) -> XmlNameView {
        XmlNameView {
            local_name: self.local_name@,
            namespace: opt_text_view(self.namespace),
            prefix: opt_text_view(self.prefix),
        }
    }
}

/// An attribute of an element: its local name and its value.
pub struct XmlAttribute {
    pub name: String,
    pub value: String,
}

impl View for XmlAttribute {
    type V = (Seq<char>, Seq<char>);

    open spec fn view(&self) -> (Seq<char>, Seq<char>) {
        (self.name@, self.value@)
    }
}

pub open spec fn attrs_view(attrs: Seq<XmlAttribute>) -> Seq<(Seq<char>, Seq<char>)> {
    attrs.map_values(|a: XmlAttribute| a@)
}

/// One event of a markup document, reduced to what a pack definition reads.
pub enum XmlItem {
    StartDocument,
    EndDocument,
    StartElement(XmlName, Vec<XmlAttribute>),
    EndElement(XmlName),
    /// Text, comments, character data and processing instructions.
    Other,
}

pub enum XmlItemView {
    StartDocument,
    EndDocument,
    StartElement(XmlNameView, Seq<(Seq<char>, Seq<char>)>),
    EndElement(XmlNameView),
    Other,
}

impl View for XmlItem {
    type V = XmlItemView;

    open spec fn view(&self) -> XmlItemView {
        match self {
            XmlItem::StartDocument => XmlItemView::StartDocument,
            XmlItem::EndDocument => XmlItemView::EndDocument,
            XmlItem::StartElement(n, a) => XmlItemView::StartElement(n@, attrs_view(a@)),
            XmlItem::EndElement(n) => XmlItemView::EndElement(n@),
            XmlItem::Other => XmlItemView::Other,
        }
    }
}

/// A pull parser over the bytes of one document: an `xml::EventReader` that
/// owns the bytes it reads. Its contents are known through `reader_source`
/// (the bytes) and `reader_pulled` (how many events it has yielded).
#[verifier::external_body]
pub struct DocumentReader {
    reader: EventReader<Cursor<Vec<u8>>>,
}

/// The bytes of the document a reader was made over.
pub uninterp spec fn reader_source(doc: DocumentReader) -> Seq<u8>;

/// How many times `EventReader::next` has been called on a reader since it
/// was made.
pub uninterp spec fn reader_pulled(doc: DocumentReader) -> nat;

/// The result of the call of `EventReader::next` numbered `k` (from zero) on a
/// reader made by `EventReader::new` over `bytes`, kept as `next_item` keeps
/// it: the event as an `XmlItemView`, or the error's message. The reader's
/// configuration is the default one, and it reads nothing but `bytes`, so the
/// result depends on `bytes` and `k` alone.
pub uninterp spec fn xml_event_at(bytes: Seq<u8>, k: nat) -> Result<XmlItemView, Seq<char>>;

pub open spec fn item_result_view(r: Result<XmlItem, String>) -> Result<XmlItemView, Seq<char>> {
    match r {
        Ok(item) => Ok(item@),
        Err(message) => Err(message@),
    }
}

/// A pull parser over the given bytes, which has yielded nothing yet.
///
/// Wraps `xml::EventReader::new` over a cursor on the bytes.
#[verifier::external_body]
pub(crate) fn reader_over(bytes: Vec<u8>) -> (r: DocumentReader)
    ensures
        reader_source(r) == bytes@,
        reader_pulled(r) == 0,
{
    DocumentReader { reader: EventReader::new(Cursor::new(bytes)) }
}

/// Pulls the next event from the reader and keeps of it what a pack
/// definition reads: the names and attributes of elements, and where the
/// document starts and ends; processing instructions, character data,
/// comments, text and whitespace are all `Other`. An error is kept as its
/// message, as its `Display` writes it.
///
/// Wraps `xml::EventReader::next`. The result is the one numbered by how many
/// events the reader had yielded, over the reader's bytes; the reader keeps
/// its bytes and has yielded one more.
#[verifier::external_body]
pub(crate) fn next_item(doc: &mut DocumentReader) -> (r: Result<XmlItem, String>)
    ensures
        reader_source(*final(doc)) == reader_source(*old(doc)),
        reader_pulled(*final(doc)) == reader_pulled(*old(doc)) + 1,
        item_result_view(r) == xml_event_at(reader_source(*old(doc)), reader_pulled(*old(doc))),
{
    let name = |n: xml::name::OwnedName| XmlName { local_name: n.local_name, namespace: n.namespace, prefix: n.prefix };
    Ok(match doc.reader.next().map_err(|e| e.to_string())? {
        XmlEvent::StartDocument { .. } => XmlItem::StartDocument,
        XmlEvent::EndDocument => XmlItem::EndDocument,
        XmlEvent::StartElement { name: n, attributes, .. } => XmlItem::StartElement(
            name(n),
            attributes.into_iter().map(|a| XmlAttribute { name: a.name.local_name, value: a.value }).collect(),
        ),
        XmlEvent::EndElement { name: n } => XmlItem::EndElement(name(n)),
        _ => XmlItem::Other,
    })
}

/// The position, as row and column from zero, that `Position::position`
/// reports for a reader made by `EventReader::new` over `bytes` after `k` calls
/// of `EventReader::next`. Like the events, it depends on `bytes` and `k`
/// alone.
pub uninterp spec fn xml_position_at(bytes: Seq<u8>, k: nat) -> (u64, u64);

/// The reader's position in the document: row and column, both from zero.
///
/// Wraps `Position::position` of `xml::EventReader`: the position after the
/// events the reader has yielded, over its bytes.
#[verifier::external_body]
pub(crate) fn reader_position(doc: &DocumentReader) -> (r: (u64, u64))
    ensures
        r == xml_position_at(reader_source(*doc), reader_pulled(*doc)),
{
    let p = doc.reader.position();
    (p.row, p.column)
}

} // verus!
