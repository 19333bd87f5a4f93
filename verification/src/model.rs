//! The mathematical model of PDF objects, and the plain objects the library builds.

use vstd::prelude::*;
use crate::document::{EmbeddedImage, xobject_of};
use crate::names::{name, name_bytes};

verus! {

/// An object number and a generation number.
pub type ObjectId = (u32, u16);

/// The entries of a dictionary.
pub type DictMap = Map<Seq<u8>, PdfValue>;

/// The objects of a document, each by its identifier.
pub type ObjectMap = Map<ObjectId, PdfValue>;

/// What a PDF object holds, as the contracts see it. A real number is kept
/// without its value, a string without its notation; dictionaries are maps
/// from keys to values.
pub enum PdfValue {
    Null,
    Boolean(bool),
    Integer(i64),
    Real,
    Name(Seq<u8>),
    Text(Seq<u8>),
    Array(Seq<PdfValue>),
    Dictionary(Map<Seq<u8>, PdfValue>),
    Stream(Map<Seq<u8>, PdfValue>, Seq<u8>),
    Reference(ObjectId),
}

/// An object that the library builds and hands to the document.
pub enum PdfObject {
    Integer(i64),
    Name(Vec<u8>),
    Reference(ObjectId),
    Array(Vec<PdfObject>),
    /// Entries in the order in which they are set; a later entry replaces an earlier one.
    Dictionary(Vec<(Vec<u8>, PdfObject)>),
    /// A stream with its dictionary entries and its content.
    Stream(Vec<(Vec<u8>, PdfObject)>, Vec<u8>),
    /// An image XObject stream.
    Image(EmbeddedImage),
}

pub open spec fn object_value(o: PdfObject) -> PdfValue
    decreases o, 0nat,
{
    match o {
        PdfObject::Integer(i) => PdfValue::Integer(i),
        PdfObject::Name(n) => PdfValue::Name(n@),
        PdfObject::Reference(id) => PdfValue::Reference(id),
        PdfObject::Array(items) => PdfValue::Array(items_value(items@)),
        PdfObject::Dictionary(entries) => PdfValue::Dictionary(entries_value(entries@)),
        PdfObject::Stream(entries, content) => PdfValue::Stream(
            entries_value(entries@).insert(name("Length"), PdfValue::Integer(content@.len() as i64)),
            content@,
        ),
        PdfObject::Image(img) => xobject_of(img.source()),
    }
}

pub open spec fn items_value(s: Seq<PdfObject>) -> Seq<PdfValue>
    decreases s, 1nat,
{
    if s.len() == 0 {
        Seq::empty()
    } else {
        items_value(s.drop_last()).push(object_value(s.last()))
    }
}

pub open spec fn entries_value(s: Seq<(Vec<u8>, PdfObject)>) -> Map<Seq<u8>, PdfValue>
    decreases s, 1nat,
{
    if s.len() == 0 {
        Map::empty()
    } else {
        entries_value(s.drop_last()).insert(s.last().0@, object_value(s.last().1))
    }
}

/// References to these objects, in order.
pub open spec fn references(ids: Seq<ObjectId>) -> Seq<PdfValue> {
    Seq::new(ids.len(), |i: int| PdfValue::Reference(ids[i]))
}

/// Adds an entry to a dictionary under construction.
pub(crate) fn push_entry(entries: &mut Vec<(Vec<u8>, PdfObject)>, key: &str, value: PdfObject)
    ensures
        entries_value(final(entries)@) == entries_value(old(entries)@).insert(name(key), object_value(value)),
{
    let ghost before = entries@;
    entries.push((name_bytes(key), value));
    proof {
        assert(entries@.drop_last() =~= before);
    }
}

/// Adds an element to an array under construction.
pub(crate) fn push_item(items: &mut Vec<PdfObject>, value: PdfObject)
    ensures
        final(items)@ == old(items)@.push(value),
        items_value(final(items)@) == items_value(old(items)@).push(object_value(value)),
{
    let ghost before = items@;
    items.push(value);
    proof {
        assert(items@.drop_last() =~= before);
    }
}

} // verus!
