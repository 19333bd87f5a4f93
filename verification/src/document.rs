//! The calls that the library makes into `lopdf`, with what they are trusted to do.
//!
//! A `lopdf::Document` is seen through three names: the objects it holds, its
//! trailer dictionary, and its `max_id` counter from which new object numbers
//! are drawn. Every other fact about a document is stated over these.

use vstd::prelude::*;
use crate::names::name;
use crate::text::decimal;
use crate::model::{ObjectId, PdfObject, PdfValue, DictMap, ObjectMap, items_value, object_value, references};

verus! {

#[verifier::external_type_specification]
#[verifier::external_body]
pub struct ExDocument(lopdf::Document);

#[verifier::external_type_specification]
#[verifier::external_body]
pub struct ExObject(lopdf::Object);

#[verifier::external_type_specification]
#[verifier::external_body]
pub struct ExStream(lopdf::Stream);

#[verifier::external_type_specification]
#[verifier::external_body]
pub struct ExError(lopdf::Error);

/// The objects of a document (`Document::objects`), each by its identifier.
pub uninterp spec fn document_objects(doc: lopdf::Document) -> ObjectMap;

/// The entries of a document's trailer dictionary (`Document::trailer`).
pub uninterp spec fn document_trailer(doc: lopdf::Document) -> DictMap;

/// The highest object number that the document has handed out (`Document::max_id`).
pub uninterp spec fn document_max_id(doc: lopdf::Document) -> u32;

/// The version of the PDF specification the document declares (`Document::version`).
pub uninterp spec fn document_version(doc: lopdf::Document) -> Seq<char>;

/// What `Document::get_pages` returns for a document with these objects and
/// this trailer: its (page number, object id) pairs in ascending page number.
pub uninterp spec fn pdf_pages(objects: ObjectMap, trailer: DictMap) -> Seq<(u32, ObjectId)>;

/// The objects and the trailer that `Document::delete_pages` leaves, given the
/// objects, the trailer and the one page number it is called with.
pub uninterp spec fn page_deletion(objects: ObjectMap, trailer: DictMap, number: u32) -> (ObjectMap, DictMap);

/// The image XObject stream that `lopdf::xobject::image_from` makes of these
/// bytes, or `None` where it returns an error.
pub uninterp spec fn image_xobject(data: Seq<u8>) -> Option<PdfValue>;


/// The state of a document as the contracts see it.
pub struct DocState {
    pub objects: ObjectMap,
    pub trailer: DictMap,
    pub max_id: u32,
    pub version: Seq<char>,
}

pub open spec fn state_of(doc: lopdf::Document) -> DocState {
    DocState {
        objects: document_objects(doc),
        trailer: document_trailer(doc),
        max_id: document_max_id(doc),
        version: document_version(doc),
    }
}

/// The identifier that `Document::get_object` arrives at from `id`: it follows
/// references, at most 128 of them, and fails on a missing object.
pub open spec fn resolve(objects: ObjectMap, id: ObjectId) -> Option<ObjectId> {
    if objects.contains_key(id) {
        follow(objects, id, 0)
    } else {
        None
    }
}

pub open spec fn follow(objects: ObjectMap, cur: ObjectId, steps: nat) -> Option<ObjectId>
    decreases 128 - steps,
{
    match objects[cur] {
        PdfValue::Reference(next) => if objects.contains_key(next) && steps < 128 {
            follow(objects, next, steps + 1)
        } else {
            None
        },
        _ => Some(cur),
    }
}

/// The dictionary that `get_object(id)` followed by `as_dict` gives, with the
/// identifier it is stored under.
pub open spec fn resolved_dictionary(objects: ObjectMap, id: ObjectId) -> Option<(ObjectId, DictMap)> {
    match resolve(objects, id) {
        Some(target) => match objects[target] {
            PdfValue::Dictionary(d) => Some((target, d)),
            _ => None,
        },
        None => None,
    }
}

/// Storing a value that is no reference at the place a resolution ends keeps
/// the resolution.
pub proof fn lemma_follow_update_target(objects: ObjectMap, cur: ObjectId, steps: nat, v: PdfValue)
    requires
        objects.contains_key(cur),
        follow(objects, cur, steps) is Some,
        !(v is Reference),
    ensures
        follow(objects.insert(follow(objects, cur, steps)->Some_0, v), cur, steps) == follow(objects, cur, steps),
    decreases 128 - steps,
{
    let t = follow(objects, cur, steps)->Some_0;
    if cur != t {
        if let PdfValue::Reference(next) = objects[cur] {
            lemma_follow_update_target(objects, next, steps + 1, v);
        }
    }
}

pub proof fn lemma_resolve_update_target(objects: ObjectMap, id: ObjectId, v: PdfValue)
    requires
        resolve(objects, id) is Some,
        !(v is Reference),
    ensures
        resolve(objects.insert(resolve(objects, id)->Some_0, v), id) == resolve(objects, id),
{
    lemma_follow_update_target(objects, id, 0, v);
}

pub proof fn lemma_follow_contained(objects: ObjectMap, cur: ObjectId, steps: nat)
    requires
        objects.contains_key(cur),
    ensures
        follow(objects, cur, steps) matches Some(t) ==> objects.contains_key(t),
    decreases 128 - steps,
{
    if let PdfValue::Reference(next) = objects[cur] {
        if objects.contains_key(next) && steps < 128 {
            lemma_follow_contained(objects, next, steps + 1);
        }
    }
}

/// A resolution ends at an object of the document.
pub proof fn lemma_resolve_contained(objects: ObjectMap, id: ObjectId)
    ensures
        resolve(objects, id) matches Some(t) ==> objects.contains_key(t),
{
    if objects.contains_key(id) {
        lemma_follow_contained(objects, id, 0);
    }
}

/// Growing is transitive.
pub proof fn lemma_grown_by_trans(a: ObjectMap, b: ObjectMap, c: ObjectMap, p: spec_fn(PdfValue) -> bool)
    requires
        grown_by(a, b, p),
        grown_by(b, c, p),
    ensures
        grown_by(a, c, p),
{
    assert forall|k: ObjectId| #[trigger] c.contains_key(k) implies
        (a.contains_key(k) && c[k] == a[k]) || (!(c[k] is Reference) && p(c[k])) by {
        if b.contains_key(k) && c[k] == b[k] {
            assert(b.contains_key(k));
        }
    }
}

/// `after` holds what `before` holds, but for objects that are no references
/// and satisfy `p`.
pub open spec fn grown_by(before: ObjectMap, after: ObjectMap, p: spec_fn(PdfValue) -> bool) -> bool {
    &&& before.dom().subset_of(after.dom())
    &&& forall|k: ObjectId| #[trigger] after.contains_key(k) ==>
        (before.contains_key(k) && after[k] == before[k]) || (!(after[k] is Reference) && p(after[k]))
}

/// Where objects were only added or replaced by objects that are no
/// references, a resolution ends where it ended before, at one of the new
/// objects, or nowhere.
pub proof fn lemma_follow_grown(before: ObjectMap, after: ObjectMap, p: spec_fn(PdfValue) -> bool, cur: ObjectId, steps: nat)
    requires
        grown_by(before, after, p),
        after.contains_key(cur),
    ensures
        follow(after, cur, steps) is None
            || (before.contains_key(cur) && follow(after, cur, steps) == follow(before, cur, steps))
            || (follow(after, cur, steps) matches Some(t) && after.contains_key(t) && p(after[t])),
        follow(after, cur, steps) matches Some(t) ==> after.contains_key(t),
    decreases 128 - steps,
{
    if before.contains_key(cur) && after[cur] == before[cur] {
        if let PdfValue::Reference(next) = after[cur] {
            if after.contains_key(next) && steps < 128 {
                lemma_follow_grown(before, after, p, next, steps + 1);
            }
        }
    }
}

pub proof fn lemma_resolved_dictionary_grown(before: ObjectMap, after: ObjectMap, p: spec_fn(PdfValue) -> bool, id: ObjectId)
    requires
        grown_by(before, after, p),
    ensures
        resolved_dictionary(after, id) is None
            || resolved_dictionary(after, id) == resolved_dictionary(before, id)
            || (resolved_dictionary(after, id) matches Some((t, d)) && after.contains_key(t) && p(after[t])),
{
    if after.contains_key(id) {
        lemma_follow_grown(before, after, p, id, 0);
        if let Some(t) = follow(after, id, 0) {
            assert(after.contains_key(t));
        }
    }
}

/// A shallow copy of a dictionary entry: a reference, an integer, an array
/// seen as the references it holds, or something else.
pub enum Entry {
    Reference(ObjectId),
    Integer(i64),
    Array(Vec<Option<ObjectId>>),
    Other,
}

pub open spec fn reference_in(v: PdfValue) -> Option<ObjectId> {
    match v {
        PdfValue::Reference(id) => Some(id),
        _ => None,
    }
}

pub open spec fn references_in(items: Seq<PdfValue>) -> Seq<Option<ObjectId>> {
    Seq::new(items.len(), |i: int| reference_in(items[i]))
}

/// `e` is the shallow copy of `v`.
pub open spec fn entry_of(v: PdfValue, e: Entry) -> bool {
    match v {
        PdfValue::Reference(id) => e == Entry::Reference(id),
        PdfValue::Integer(i) => e == Entry::Integer(i),
        PdfValue::Array(items) => e is Array && e->Array_0@ == references_in(items),
        _ => e is Other,
    }
}

/// The entry under `key`, if there is one, shallowly copied.
pub open spec fn entry_matches(d: DictMap, key: Seq<u8>, r: Option<Entry>) -> bool {
    match r {
        None => !d.contains_key(key),
        Some(e) => d.contains_key(key) && entry_of(d[key], e),
    }
}

/// `Document::with_version`: a document of this version, with no objects,
/// an empty trailer and `max_id` 0.
#[verifier::external_body]
pub(crate) fn new_document(version: &str) -> (doc: lopdf::Document)
    ensures
        document_objects(doc) == ObjectMap::empty(),
        document_trailer(doc) == DictMap::empty(),
        document_max_id(doc) == 0,
        document_version(doc) == version@,
        page_list_follows_tree(doc),
{
    lopdf::Document::with_version(version)
}

/// `Document::new_object_id`: raises `max_id` by one and returns it with
/// generation 0. It panics when `max_id` is already `u32::MAX`.
#[verifier::external_body]
pub(crate) fn new_object_id(doc: &mut lopdf::Document) -> (id: ObjectId)
    requires
        document_max_id(*old(doc)) < u32::MAX,
    ensures
        id.0 == document_max_id(*old(doc)) + 1,
        id.1 == 0,
        state_of(*final(doc)) == (DocState { max_id: id.0, ..state_of(*old(doc)) }),
        page_list_follows_tree(*final(doc)),
{
    doc.new_object_id()
}

/// `Document::add_object`: stores the object under a new identifier, drawn as
/// `new_object_id` draws one.
#[verifier::external_body]
pub(crate) fn add_object(doc: &mut lopdf::Document, value: PdfObject) -> (id: ObjectId)
    requires
        document_max_id(*old(doc)) < u32::MAX,
    ensures
        id.0 == document_max_id(*old(doc)) + 1,
        id.1 == 0,
        state_of(*final(doc)) == (DocState {
            objects: document_objects(*old(doc)).insert(id, object_value(value)),
            max_id: id.0,
            ..state_of(*old(doc))
        }),
        page_list_follows_tree(*final(doc)),
{
    doc.add_object(lopdf_object(value))
}

/// `BTreeMap::insert` on `Document::objects`: stores the object under `id`,
/// replacing what was there.
#[verifier::external_body]
pub(crate) fn insert_object(doc: &mut lopdf::Document, id: ObjectId, value: PdfObject)
    ensures
        state_of(*final(doc)) == (DocState {
            objects: document_objects(*old(doc)).insert(id, object_value(value)),
            ..state_of(*old(doc))
        }),
        page_list_follows_tree(*final(doc)),
{
    doc.objects.insert(id, lopdf_object(value));
}

/// `Dictionary::set` on `Document::trailer`.
#[verifier::external_body]
pub(crate) fn set_trailer_entry(doc: &mut lopdf::Document, key: &str, value: PdfObject)
    ensures
        state_of(*final(doc)) == (DocState {
            trailer: document_trailer(*old(doc)).insert(name(key), object_value(value)),
            ..state_of(*old(doc))
        }),
        page_list_follows_tree(*final(doc)),
{
    doc.trailer.set(key.as_bytes().to_vec(), lopdf_object(value));
}

/// `Dictionary::get` on `Document::trailer`, shallowly copied.
#[verifier::external_body]
pub(crate) fn trailer_entry(doc: &lopdf::Document, key: &str) -> (r: Option<Entry>)
    ensures
        entry_matches(document_trailer(*doc), name(key), r),
{
    doc.trailer.get(key.as_bytes()).ok().map(shallow_entry)
}

/// `Document::get_object`, then `Object::as_dict`, then `Dictionary::get`:
/// fails where the object cannot be reached or is no dictionary, and otherwise
/// gives the entry under `key`, if any, shallowly copied.
#[verifier::external_body]
pub(crate) fn dictionary_entry(doc: &lopdf::Document, id: ObjectId, key: &str) -> (r: Result<Option<Entry>, lopdf::Error>)
    ensures
        match resolved_dictionary(document_objects(*doc), id) {
            None => r is Err,
            Some((_, d)) => r is Ok && entry_matches(d, name(key), r->Ok_0),
        },
{
    let dict = doc.get_object(id).and_then(lopdf::Object::as_dict)?;
    Ok(dict.get(key.as_bytes()).ok().map(shallow_entry))
}

/// The dictionary that `get_object_mut(id)` and `as_dict_mut` reach, with `f`
/// applied to it; the other objects, the trailer and `max_id` stay.
pub open spec fn dictionary_changed(
    before: DocState,
    after: DocState,
    id: ObjectId,
    f: spec_fn(DictMap) -> DictMap,
) -> bool {
    match resolved_dictionary(before.objects, id) {
        Some((target, d)) => after == (DocState {
            objects: before.objects.insert(target, PdfValue::Dictionary(f(d))),
            ..before
        }),
        None => after == before,
    }
}

/// `Document::get_object_mut`, then `Object::as_dict_mut`, then `Dictionary::set`.
#[verifier::external_body]
pub(crate) fn set_dictionary_entry(doc: &mut lopdf::Document, id: ObjectId, key: &str, value: PdfObject) -> (r: Result<(), lopdf::Error>)
    ensures
        r is Ok <==> resolved_dictionary(document_objects(*old(doc)), id) is Some,
        dictionary_changed(state_of(*old(doc)), state_of(*final(doc)), id,
            (|d: DictMap| d.insert(name(key), object_value(value)))),
        page_list_follows_tree(*final(doc)),
{
    let dict = doc.get_object_mut(id).and_then(lopdf::Object::as_dict_mut)?;
    dict.set(key.as_bytes().to_vec(), lopdf_object(value));
    Ok(())
}

/// `BTreeMap::get_mut` on `Document::objects`, `Object::as_dict_mut`, then
/// `Dictionary::set`: sets an entry of the dictionary stored under `id`,
/// following no reference; nothing changes where no dictionary is stored there.
#[verifier::external_body]
pub(crate) fn set_stored_entry(doc: &mut lopdf::Document, id: ObjectId, key: &str, value: PdfObject)
    ensures
        match stored_dictionary(document_objects(*old(doc)), id) {
            Some(d) => state_of(*final(doc)) == (DocState {
                objects: document_objects(*old(doc)).insert(id, PdfValue::Dictionary(d.insert(name(key), object_value(value)))),
                ..state_of(*old(doc))
            }),
            None => state_of(*final(doc)) == state_of(*old(doc)),
        },
        page_list_follows_tree(*final(doc)),
{
    if let Some(dict) = doc.objects.get_mut(&id).and_then(|o| o.as_dict_mut().ok()) {
        dict.set(key.as_bytes().to_vec(), lopdf_object(value));
    }
}

/// The array under `key` of the dictionary that `id` resolves to, if it is one.
pub open spec fn array_at(objects: ObjectMap, id: ObjectId, key: Seq<u8>) -> Option<Seq<PdfValue>> {
    match resolved_dictionary(objects, id) {
        Some((_, d)) => if d.contains_key(key) {
            match d[key] {
                PdfValue::Array(items) => Some(items),
                _ => None,
            }
        } else {
            None
        },
        None => None,
    }
}

/// `f` applied to the array under `key`, where that entry is an array.
pub open spec fn with_array(
    d: DictMap,
    key: Seq<u8>,
    f: spec_fn(Seq<PdfValue>) -> Seq<PdfValue>,
) -> DictMap {
    if d.contains_key(key) {
        match d[key] {
            PdfValue::Array(items) => d.insert(key, PdfValue::Array(f(items))),
            _ => d,
        }
    } else {
        d
    }
}

/// `Document::get_object_mut`, `Object::as_dict_mut`, `Dictionary::get_mut`,
/// then `Vec::insert` where the entry is an array; nothing changes where it is
/// not. The array, a `Vec` of objects, holds at most `isize::MAX` of them.
#[verifier::external_body]
pub(crate) fn insert_array_entry(doc: &mut lopdf::Document, id: ObjectId, key: &str, index: usize, value: PdfObject) -> (r: Result<(), lopdf::Error>)
    requires
        array_at(document_objects(*old(doc)), id, name(key)) matches Some(items) ==> index <= items.len(),
    ensures
        r is Ok <==> resolved_dictionary(document_objects(*old(doc)), id) is Some,
        dictionary_changed(state_of(*old(doc)), state_of(*final(doc)), id,
            (|d: DictMap| with_array(d, name(key),
                (|items: Seq<PdfValue>| items.insert(index as int, object_value(value)))))),
        array_at(document_objects(*final(doc)), id, name(key)) matches Some(items) ==> items.len() <= isize::MAX,
        page_list_follows_tree(*final(doc)),
{
    let dict = doc.get_object_mut(id).and_then(lopdf::Object::as_dict_mut)?;
    if let Ok(lopdf::Object::Array(items)) = dict.get_mut(key.as_bytes()) {
        items.insert(index, lopdf_object(value));
    }
    Ok(())
}

/// As `insert_array_entry`, with `slice::swap` in place of the insertion.
#[verifier::external_body]
pub(crate) fn swap_array_entries(doc: &mut lopdf::Document, id: ObjectId, key: &str, i: usize, j: usize) -> (r: Result<(), lopdf::Error>)
    requires
        array_at(document_objects(*old(doc)), id, name(key)) matches Some(items) ==> i < items.len() && j < items.len(),
    ensures
        r is Ok <==> resolved_dictionary(document_objects(*old(doc)), id) is Some,
        dictionary_changed(state_of(*old(doc)), state_of(*final(doc)), id,
            (|d: DictMap| with_array(d, name(key),
                (|items: Seq<PdfValue>| items.update(i as int, items[j as int]).update(j as int, items[i as int]))))),
        page_list_follows_tree(*final(doc)),
{
    let dict = doc.get_object_mut(id).and_then(lopdf::Object::as_dict_mut)?;
    if let Ok(lopdf::Object::Array(items)) = dict.get_mut(key.as_bytes()) {
        items.swap(i, j);
    }
    Ok(())
}

/// As `insert_array_entry`, with an assignment to one element in place of the insertion.
#[verifier::external_body]
pub(crate) fn set_array_entry(doc: &mut lopdf::Document, id: ObjectId, key: &str, index: usize, value: PdfObject) -> (r: Result<(), lopdf::Error>)
    requires
        array_at(document_objects(*old(doc)), id, name(key)) matches Some(items) ==> index < items.len(),
    ensures
        r is Ok <==> resolved_dictionary(document_objects(*old(doc)), id) is Some,
        dictionary_changed(state_of(*old(doc)), state_of(*final(doc)), id,
            (|d: DictMap| with_array(d, name(key),
                (|items: Seq<PdfValue>| items.update(index as int, object_value(value)))))),
        page_list_follows_tree(*final(doc)),
{
    let dict = doc.get_object_mut(id).and_then(lopdf::Object::as_dict_mut)?;
    if let Ok(lopdf::Object::Array(items)) = dict.get_mut(key.as_bytes()) {
        items[index] = lopdf_object(value);
    }
    Ok(())
}

/// The dictionary stored under `id`, if that is what is stored there.
pub open spec fn stored_dictionary(objects: ObjectMap, id: ObjectId) -> Option<DictMap> {
    if objects.contains_key(id) {
        match objects[id] {
            PdfValue::Dictionary(d) => Some(d),
            _ => None,
        }
    } else {
        None
    }
}

/// A dictionary of `Type` `Page` is stored under `id`.
pub open spec fn is_page_leaf(objects: ObjectMap, id: ObjectId) -> bool {
    stored_dictionary(objects, id) matches Some(d) && d.contains_key(name("Type"))
        && d[name("Type")] == PdfValue::Name(name("Page"))
}

/// A page tree of one level: the trailer's `Root` refers to a catalog stored
/// as a dictionary, whose `Pages` refers to `root`, stored as a dictionary
/// whose `Kids` is an array of references to `kids`, each a page; there are
/// no more kids than objects, and fewer than `u32::MAX`.
pub open spec fn flat_page_tree(objects: ObjectMap, trailer: DictMap, root: ObjectId, kids: Seq<ObjectId>) -> bool {
    &&& objects.dom().finite()
    &&& reference_under(trailer, name("Root")) matches Some(catalog)
    &&& stored_dictionary(objects, catalog) matches Some(cd)
    &&& reference_under(cd, name("Pages")) == Some(root)
    &&& stored_dictionary(objects, root) matches Some(rd)
    &&& rd.contains_key(name("Kids")) && rd[name("Kids")] == PdfValue::Array(references(kids))
    &&& forall|i: int| 0 <= i < kids.len() ==> is_page_leaf(objects, #[trigger] kids[i])
    &&& kids.len() <= objects.dom().len()
    &&& kids.len() < u32::MAX
}

/// Pages numbered from 1.
pub open spec fn numbered(kids: Seq<ObjectId>) -> Seq<(u32, ObjectId)> {
    Seq::new(kids.len(), |i: int| ((i + 1) as u32, kids[i]))
}

/// The kids of a page tree node: the references of the `Kids` array of a
/// dictionary of `Type` `Pages` stored under `id`, where every element of
/// that array is a reference.
pub open spec fn node_kids(objects: ObjectMap, id: ObjectId) -> Option<Seq<ObjectId>> {
    match stored_dictionary(objects, id) {
        Some(d) => if d.contains_key(name("Type")) && d[name("Type")] == PdfValue::Name(name("Pages"))
            && d.contains_key(name("Kids")) && d[name("Kids")] is Array
            && forall|i: int| 0 <= i < d[name("Kids")]->Array_0.len() ==> #[trigger] d[name("Kids")]->Array_0[i] is Reference {
            let items = d[name("Kids")]->Array_0;
            Some(Seq::new(items.len(), |i: int| items[i]->Reference_0))
        } else {
            None
        },
        None => None,
    }
}

/// The page tree below the node `node`, where it is well formed within
/// `depth` further levels: every kid is a page (`is_page_leaf`) or a node
/// (`node_kids`). Gives every object below the node in the order of a walk
/// that takes each kid and then what is below it, and the pages among them.
pub open spec fn subtree(objects: ObjectMap, node: ObjectId, depth: nat) -> Option<(Seq<ObjectId>, Seq<ObjectId>)>
    decreases depth, 1nat, 0nat,
{
    match node_kids(objects, node) {
        Some(kids) => kids_subtrees(objects, kids, depth),
        None => None,
    }
}

/// `subtree` over the kids of a node, one after the other.
pub open spec fn kids_subtrees(objects: ObjectMap, kids: Seq<ObjectId>, depth: nat) -> Option<(Seq<ObjectId>, Seq<ObjectId>)>
    decreases depth, 0nat, kids.len(),
{
    if kids.len() == 0 {
        Some((Seq::empty(), Seq::empty()))
    } else {
        match kids_subtrees(objects, kids.drop_last(), depth) {
            None => None,
            Some((members, pages)) => {
                let k = kids.last();
                if is_page_leaf(objects, k) {
                    Some((members.push(k), pages.push(k)))
                } else if depth == 0 {
                    None
                } else {
                    match subtree(objects, k, (depth - 1) as nat) {
                        Some((below, below_pages)) => Some((members.push(k) + below, pages + below_pages)),
                        None => None,
                    }
                }
            },
        }
    }
}

/// A page tree of any depth up to 255 levels below its root: the trailer's
/// `Root` refers to a catalog stored as a dictionary, whose `Pages` refers to
/// `root`; the tree below `root` is well formed, holds no object twice and
/// not its root, has no more objects than the document, and its pages are
/// `pages`, fewer than `u32::MAX`.
pub open spec fn nested_page_tree(objects: ObjectMap, trailer: DictMap, root: ObjectId, pages: Seq<ObjectId>) -> bool {
    &&& objects.dom().finite()
    &&& reference_under(trailer, name("Root")) matches Some(catalog)
    &&& stored_dictionary(objects, catalog) matches Some(cd)
    &&& reference_under(cd, name("Pages")) == Some(root)
    &&& subtree(objects, root, 255) matches Some((members, below))
    &&& below == pages
    &&& distinct(members)
    &&& !members.contains(root)
    &&& members.len() <= objects.dom().len()
    &&& pages.len() < u32::MAX
}

/// The page list that `Document::get_pages` gives follows the page tree: in
/// a page tree of one level it is the kids, and in a page tree that
/// `nested_page_tree` describes it is the pages in tree order, numbered from 1.
/// (Its page iterator visits each kid once, in order, descending into a
/// node before the kids after it; it stops after as many kids as the
/// document has objects, and descends at most 256 levels.)
pub open spec fn pages_follow_tree(objects: ObjectMap, trailer: DictMap) -> bool {
    &&& forall|root: ObjectId, kids: Seq<ObjectId>|
        #[trigger] flat_page_tree(objects, trailer, root, kids) ==> pdf_pages(objects, trailer) == numbered(kids)
    &&& forall|root: ObjectId, pages: Seq<ObjectId>|
        #[trigger] nested_page_tree(objects, trailer, root, pages) ==> pdf_pages(objects, trailer) == numbered(pages)
}

pub open spec fn page_list_follows_tree(doc: lopdf::Document) -> bool {
    pages_follow_tree(document_objects(doc), document_trailer(doc))
}

/// The document is as it was, or its page list follows its page tree.
pub open spec fn kept_or_follows(before: lopdf::Document, after: lopdf::Document) -> bool {
    state_of(after) == state_of(before) || page_list_follows_tree(after)
}

/// `Document::get_pages`, its pairs in ascending page number (a `BTreeMap`
/// holds each number once, in ascending order). In a page tree of one
/// level, its page iterator meets the kids in order and yields each, since
/// each is a dictionary of `Type` `Page` and its limit of as many steps as
/// there are objects is not reached; so the pages are the kids, numbered from 1.
#[verifier::external_body]
pub(crate) fn page_entries(doc: &lopdf::Document) -> (r: Vec<(u32, ObjectId)>)
    ensures
        r@ == pdf_pages(document_objects(*doc), document_trailer(*doc)),
        forall|i: int, j: int| 0 <= i < j < r@.len() ==> r@[i].0 < r@[j].0,
        forall|root: ObjectId, kids: Seq<ObjectId>|
            #[trigger] flat_page_tree(document_objects(*doc), document_trailer(*doc), root, kids) ==> r@ == numbered(kids),
        forall|root: ObjectId, pages: Seq<ObjectId>|
            #[trigger] nested_page_tree(document_objects(*doc), document_trailer(*doc), root, pages) ==> r@ == numbered(pages),
{
    doc.get_pages().into_iter().collect()
}

/// The object that the page with this number is, in a list of pages: the
/// first pair with this number.
pub open spec fn page_lookup(pages: Seq<(u32, ObjectId)>, number: u32) -> Option<ObjectId>
    decreases pages.len(),
{
    if pages.len() == 0 {
        None
    } else if pages[0].0 == number {
        Some(pages[0].1)
    } else {
        page_lookup(pages.drop_first(), number)
    }
}

/// The walk that `Document::delete_pages` makes from a deleted page up its
/// `Parent` references, taking one from each `Count` on the way, returns
/// within `fuel` steps and meets no `Count` of `i64::MIN`. The walk goes on
/// while the reference leads to a dictionary stored under it.
pub open spec fn parent_walk_returns(objects: ObjectMap, next: Option<ObjectId>, fuel: int) -> bool
    decreases fuel,
{
    match next {
        None => true,
        Some(id) => if objects.contains_key(id) && objects[id] is Dictionary {
            let d = objects[id]->Dictionary_0;
            &&& !(d.contains_key(name("Count")) && d[name("Count")] == PdfValue::Integer(i64::MIN))
            &&& fuel > 0
            &&& parent_walk_returns(objects, reference_under(d, name("Parent")), fuel - 1)
        } else {
            true
        },
    }
}

/// The reference under `key`, if the value there is one.
pub open spec fn reference_under(d: DictMap, key: Seq<u8>) -> Option<ObjectId> {
    if d.contains_key(key) {
        reference_in(d[key])
    } else {
        None
    }
}

/// `Document::delete_pages` returns when called with this page number: the
/// page, once removed, starts a walk up its parents that returns. (Before the
/// walk it deletes every reference to the page from the arrays and the
/// dictionaries reachable from the trailer; those deletions cannot change
/// where the walk goes, since a step to the removed page ends it anyway.)
pub open spec fn deletion_returns(objects: ObjectMap, trailer: DictMap, number: u32, fuel: int) -> bool {
    match page_lookup(pdf_pages(objects, trailer), number) {
        None => true,
        Some(page) => if objects.contains_key(page) && objects[page] is Dictionary {
            parent_walk_returns(objects.remove(page), reference_under(objects[page]->Dictionary_0, name("Parent")), fuel)
        } else {
            true
        },
    }
}

/// No object occurs twice.
pub open spec fn distinct(ids: Seq<ObjectId>) -> bool {
    forall|i: int, j: int| 0 <= i < j < ids.len() ==> ids[i] != ids[j]
}

/// A page tree of one level from which page `number` is deleted plainly:
/// its kids are distinct, and are neither the catalog nor the root; each
/// refers to the root as its `Parent`; the root has no `Parent`, and no
/// `Count` of `i64::MIN`.
pub open spec fn plainly_deletable(objects: ObjectMap, trailer: DictMap, root: ObjectId, kids: Seq<ObjectId>, number: u32) -> bool {
    &&& flat_page_tree(objects, trailer, root, kids)
    &&& distinct(kids)
    &&& !kids.contains(root)
    &&& reference_under(trailer, name("Root")) matches Some(catalog) && !kids.contains(catalog)
    &&& forall|i: int| 0 <= i < kids.len() ==>
        reference_under(#[trigger] stored_dictionary(objects, kids[i])->Some_0, name("Parent")) == Some(root)
    &&& stored_dictionary(objects, root) matches Some(rd) && !rd.contains_key(name("Parent"))
        && !(rd.contains_key(name("Count")) && rd[name("Count")] == PdfValue::Integer(i64::MIN))
    &&& 1 <= number <= kids.len()
}

/// What `Document::delete_pages` leaves of a page tree that
/// `plainly_deletable` describes: a page tree of one level of the other
/// kids, which are also the page list; the page object is gone; the other
/// kids still refer to the root as their parent; the root still has no
/// parent, and its `Count`, where it was an integer, is one less.
pub open spec fn plainly_deleted(
    before: ObjectMap,
    after: ObjectMap,
    trailer: DictMap,
    root: ObjectId,
    kids: Seq<ObjectId>,
    number: u32,
) -> bool {
    let rest = kids.remove(number - 1);
    let rd = stored_dictionary(before, root)->Some_0;
    &&& flat_page_tree(after, trailer, root, rest)
    &&& pdf_pages(after, trailer) == numbered(rest)
    &&& !after.contains_key(kids[number - 1])
    &&& forall|i: int| 0 <= i < rest.len() ==>
        reference_under(#[trigger] stored_dictionary(after, rest[i])->Some_0, name("Parent")) == Some(root)
    &&& stored_dictionary(after, root) matches Some(rd2)
    &&& !rd2.contains_key(name("Parent"))
    &&& (rd.contains_key(name("Count")) && rd[name("Count")] is Integer) ==> (rd2.contains_key(name("Count"))
        && rd2[name("Count")] == PdfValue::Integer((rd[name("Count")]->Integer_0 - 1) as i64))
}

/// A page tree of any depth that `nested_page_tree` describes, with a page
/// numbered `number`, and a catalog that stands outside the tree.
pub open spec fn nestedly_deletable(objects: ObjectMap, trailer: DictMap, root: ObjectId, pages: Seq<ObjectId>, number: u32) -> bool {
    &&& nested_page_tree(objects, trailer, root, pages)
    &&& 1 <= number <= pages.len()
    &&& reference_under(trailer, name("Root")) matches Some(catalog) && catalog != root
        && !subtree(objects, root, 255)->Some_0.0.contains(catalog)
}

/// `Document::delete_pages` with this one page number; `max_id` and the version stay.
///
/// From a page tree of one level that `plainly_deletable` describes, the
/// page goes as follows: the deletion of every reference to it from the
/// arrays and dictionaries reachable from the trailer takes it out of the
/// root's `Kids` (its only reference there) and leaves the trailer's `Root`,
/// the catalog's `Pages` and the other kids' `Type` as they are; the page
/// object is removed; the walk up from it takes one from the root's `Count`
/// and stops at the root, which has no `Parent`. A page tree of one level
/// with the other kids remains, whose page list `get_pages` reads as for
/// `page_entries`. Deleting references only removes entries, so the other
/// kids keep their `Type` and their `Parent`, and the root keeps having no
/// `Parent`; the walk sets the root's `Count`, where it is an integer, to one
/// less (`plainly_deletable` rules out `i64::MIN`).
///
/// From a page tree of any depth that `nestedly_deletable` describes, the
/// page is its `number`-th page (the page list follows the tree), and it
/// goes the same way: it appears in the `Kids` of one node only, since no
/// object occurs twice in the tree, and that reference goes; the other
/// references it removes are no `Type` or `Kids` of the tree and no `Root`
/// or `Pages` (the page is neither the catalog nor the root); the walk up
/// the parents changes `Count`s only. A page tree of the same form with the
/// other pages remains.
#[verifier::external_body]
pub(crate) fn delete_page(doc: &mut lopdf::Document, number: u32)
    requires
        exists|fuel: int| deletion_returns(document_objects(*old(doc)), document_trailer(*old(doc)), number, fuel),
    ensures
        (document_objects(*final(doc)), document_trailer(*final(doc)))
            == page_deletion(document_objects(*old(doc)), document_trailer(*old(doc)), number),
        document_max_id(*final(doc)) == document_max_id(*old(doc)),
        document_version(*final(doc)) == document_version(*old(doc)),
        forall|root: ObjectId, kids: Seq<ObjectId>|
            #[trigger] plainly_deletable(document_objects(*old(doc)), document_trailer(*old(doc)), root, kids, number)
                ==> plainly_deleted(document_objects(*old(doc)), document_objects(*final(doc)), document_trailer(*final(doc)), root, kids, number),
        forall|root: ObjectId, pages: Seq<ObjectId>|
            #[trigger] nestedly_deletable(document_objects(*old(doc)), document_trailer(*old(doc)), root, pages, number)
                ==> nested_page_tree(document_objects(*final(doc)), document_trailer(*final(doc)), root, pages.remove(number - 1))
                && !document_objects(*final(doc)).contains_key(pages[number - 1]),
        page_list_follows_tree(*final(doc)),
{
    doc.delete_pages(&[number])
}

/// `Document::max_id`.
#[verifier::external_body]
pub(crate) fn max_object_number(doc: &lopdf::Document) -> (max_id: u32)
    ensures
        max_id == document_max_id(*doc),
{
    doc.max_id
}

/// `BTreeMap::len` on `Document::objects`.
#[verifier::external_body]
pub(crate) fn object_count(doc: &lopdf::Document) -> (count: usize)
    ensures
        count == document_objects(*doc).dom().len(),
{
    doc.objects.len()
}

/// `BTreeMap::get` on `Document::objects`, then `Object::as_dict` and
/// `Dictionary::get`, as `delete_pages` reads a page tree node: `None` where
/// no dictionary is stored under `id`, else the entry under `key`, if any,
/// shallowly copied.
#[verifier::external_body]
pub(crate) fn stored_dictionary_entry(doc: &lopdf::Document, id: ObjectId, key: &str) -> (r: Option<Option<Entry>>)
    ensures
        match (if document_objects(*doc).contains_key(id) { document_objects(*doc)[id] } else { PdfValue::Null }) {
            PdfValue::Dictionary(d) => r is Some && entry_matches(d, name(key), r->Some_0),
            _ => r is None,
        },
{
    let dict = doc.objects.get(&id)?.as_dict().ok()?;
    Some(dict.get(key.as_bytes()).ok().map(shallow_entry))
}

/// An image XObject made by `lopdf::xobject::image_from`, with the bytes it was made of.
pub struct EmbeddedImage {
    stream: lopdf::Stream,
    source: Ghost<Seq<u8>>,
}

impl EmbeddedImage {
    /// The bytes the image was made of.
    pub closed spec fn source(&self) -> Seq<u8> {
        self.source@
    }
}

/// What an embedded image made of these bytes holds.
pub open spec fn xobject_of(data: Seq<u8>) -> PdfValue {
    match image_xobject(data) {
        Some(v) => v,
        None => PdfValue::Null,
    }
}

/// `lopdf::xobject::image_from`: an image XObject stream for image bytes that
/// the `image` crate can read, or an error.
#[verifier::external_body]
pub(crate) fn embed_image(data: Vec<u8>) -> (r: Result<EmbeddedImage, lopdf::Error>)
    ensures
        r is Ok <==> image_xobject(data@) is Some,
        r matches Ok(img) ==> img.source() == data@ && xobject_of(data@) is Stream,
{
    let source = Ghost(data@);
    Ok(EmbeddedImage { stream: lopdf::xobject::image_from(data)?, source })
}

} // verus!

verus! {

/// An operator of a content stream with its operands.
pub struct ContentOperation {
    pub operator: &'static str,
    pub operands: Vec<PdfObject>,
}

/// Each operation as the bytes of its operator and the values of its operands.
pub open spec fn operations_value(ops: Seq<ContentOperation>) -> Seq<(Seq<u8>, Seq<PdfValue>)> {
    Seq::new(ops.len(), |i: int| (name(ops[i].operator), items_value(ops[i].operands@)))
}

/// An integer as `itoa` writes it: its decimal digits, after a minus sign
/// where it is negative.
pub open spec fn integer_text(i: i64) -> Seq<u8> {
    if i < 0 {
        seq![45u8] + decimal((-i) as nat)
    } else {
        decimal(i as nat)
    }
}

/// An upper-case hexadecimal digit.
pub open spec fn hex_digit(n: int) -> u8 {
    if n < 10 {
        (48 + n) as u8
    } else {
        (55 + n) as u8
    }
}

/// The bytes that `Writer::write_name` escapes: white space, the delimiters,
/// `#`, and every byte outside `!` to `~`.
pub open spec fn escaped_in_name(b: u8) -> bool {
    ||| b == 32 || b == 9 || b == 10 || b == 13 || b == 12
    ||| b == 40 || b == 41 || b == 60 || b == 62 || b == 91 || b == 93 || b == 123 || b == 125
    ||| b == 47 || b == 37 || b == 35
    ||| b < 33 || b > 126
}

/// A byte of a name as written: escaped as `#` and two hexadecimal digits, or as it is.
pub open spec fn name_byte_text(b: u8) -> Seq<u8> {
    if escaped_in_name(b) {
        seq![35u8, hex_digit((b / 16) as int), hex_digit((b % 16) as int)]
    } else {
        seq![b]
    }
}

pub open spec fn name_body_text(n: Seq<u8>) -> Seq<u8>
    decreases n.len(),
{
    if n.len() == 0 {
        Seq::empty()
    } else {
        name_body_text(n.drop_last()) + name_byte_text(n.last())
    }
}

/// An integer or a name operand as `Writer::write_object` writes it.
pub open spec fn operand_text(v: PdfValue) -> Seq<u8> {
    match v {
        PdfValue::Integer(i) => integer_text(i),
        PdfValue::Name(n) => seq![47u8] + name_body_text(n),
        _ => Seq::empty(),
    }
}

/// The operands of an operation, each followed by a space.
pub open spec fn operands_text(vs: Seq<PdfValue>) -> Seq<u8>
    decreases vs.len(),
{
    if vs.len() == 0 {
        Seq::empty()
    } else {
        operands_text(vs.drop_last()) + operand_text(vs.last()) + seq![32u8]
    }
}

/// The bytes of a content stream: each operation as its operands and its
/// operator, the operations separated by line feeds.
pub open spec fn content_text(ops: Seq<(Seq<u8>, Seq<PdfValue>)>) -> Seq<u8>
    decreases ops.len(),
{
    if ops.len() == 0 {
        Seq::empty()
    } else if ops.len() == 1 {
        operands_text(ops[0].1) + ops[0].0
    } else {
        content_text(ops.drop_last()) + seq![10u8] + operands_text(ops.last().1) + ops.last().0
    }
}

/// Every operand is an integer or a name: objects that `Writer::write_object`
/// writes from their value alone.
pub open spec fn plain_operands(ops: Seq<ContentOperation>) -> bool {
    forall|i: int, j: int| 0 <= i < ops.len() && 0 <= j < ops[i].operands@.len() ==>
        (#[trigger] ops[i].operands@[j]) is Integer || ops[i].operands@[j] is Name
}

/// `Content::encode`: for each operation its operands, each written by
/// `Writer::write_object` and followed by a space, then its operator; a line
/// feed between operations. Its errors come only from writing into its
/// `Vec<u8>` buffer, which never fails, so it is unwrapped. The operands are
/// held to integers and names: a dictionary operand would be written in the
/// order of its entries, which the model of a dictionary does not keep.
#[verifier::external_body]
pub(crate) fn encode_content(ops: Vec<ContentOperation>) -> (r: Vec<u8>)
    requires
        plain_operands(ops@),
    ensures
        r@ == content_text(operations_value(ops@)),
{
    let operations: Vec<lopdf::content::Operation> = ops.into_iter().map(|op| lopdf::content::Operation::new(
        op.operator, op.operands.into_iter().map(lopdf_object).collect())).collect();
    lopdf::content::Content { operations }.encode().unwrap()
}

/// Turns a library object into a `lopdf` one, variant by variant; a stream is
/// made by `Stream::new`, which adds its `Length` entry.
#[verifier::external_body]
fn lopdf_object(o: PdfObject) -> lopdf::Object {
    match o {
        PdfObject::Integer(i) => lopdf::Object::Integer(i),
        PdfObject::Name(n) => lopdf::Object::Name(n),
        PdfObject::Reference(id) => lopdf::Object::Reference(id),
        PdfObject::Array(items) => lopdf::Object::Array(items.into_iter().map(lopdf_object).collect()),
        PdfObject::Dictionary(entries) => lopdf::Object::Dictionary(lopdf_dictionary(entries)),
        PdfObject::Stream(entries, content) =>
            lopdf::Object::Stream(lopdf::Stream::new(lopdf_dictionary(entries), content)),
        PdfObject::Image(img) => lopdf::Object::Stream(img.stream),
    }
}

/// A `lopdf` dictionary with these entries, set in order by `Dictionary::from_iter`.
#[verifier::external_body]
fn lopdf_dictionary(entries: Vec<(Vec<u8>, PdfObject)>) -> lopdf::Dictionary {
    entries.into_iter().map(|(k, v)| (k, lopdf_object(v))).collect()
}

/// Copies a `lopdf` object shallowly, variant by variant.
#[verifier::external_body]
fn shallow_entry(o: &lopdf::Object) -> Entry {
    match o {
        lopdf::Object::Reference(id) => Entry::Reference(*id),
        lopdf::Object::Integer(i) => Entry::Integer(*i),
        lopdf::Object::Array(items) => Entry::Array(items.iter().map(|x| x.as_reference().ok()).collect()),
        _ => Entry::Other,
    }
}

#[verifier::external_type_specification]
#[verifier::external_body]
pub struct ExDictionary(lopdf::Dictionary);

} // verus!
