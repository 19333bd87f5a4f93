//! Building a document of image pages, and inserting image pages into one.

use vstd::prelude::*;
use crate::document::{
    ContentOperation, DocState, kept_or_follows, Entry, add_object, dictionary_entry, embed_image, encode_content,
    content_text, grown_by, image_xobject, insert_array_entry, new_document, new_object_id,
    insert_object, page_entries, pdf_pages, reference_in, resolved_dictionary, set_dictionary_entry,
    set_trailer_entry, state_of, trailer_entry, with_array, xobject_of, document_max_id,
    document_objects, max_object_number, lemma_resolved_dictionary_grown, lemma_resolve_update_target, resolve,
    lemma_grown_by_trans, lemma_resolve_contained, page_lookup, reference_under, references_in,
    set_stored_entry, stored_dictionary, stored_dictionary_entry, object_count, document_trailer,
};
use crate::error::PdfError;
use crate::model::{
    DictMap, ObjectId, ObjectMap, PdfObject, PdfValue, items_value, object_value, push_entry,
    push_item, references,
};
use crate::names::{lemma_name_bytes, name, name_bytes};
use crate::edit::{find_first, find_page, first_position, lemma_page_lookup};
use crate::text::{decimal, decimal_bytes};

verus! {

/// An image to be placed on a page of its own.
pub struct ImageData {
    /// The encoded image (JPEG, or another format that `image` reads).
    pub data: Vec<u8>,
    /// The width of the page, in points.
    pub width: u32,
    /// The height of the page, in points.
    pub height: u32,
    /// The EXIF orientation (1 to 8) under which the image is to be shown.
    pub orientation: u16,
}

/// The clockwise rotation, in degrees, with which a page shows an image of
/// this EXIF orientation: 180 for 3, 90 for 6, 270 for 8, none otherwise.
pub open spec fn rotation(orientation: u16) -> i64 {
    if orientation == 3 {
        180
    } else if orientation == 6 {
        90
    } else if orientation == 8 {
        270
    } else {
        0
    }
}

/// The name under which a page's resources file its image: `Im` and the
/// image object's number.
pub open spec fn image_name(image: ObjectId) -> Seq<u8> {
    name("Im") + decimal(image.0 as nat)
}

/// The drawing operations of a page: save the state, scale the unit square
/// to the page, draw the image, restore the state.
pub open spec fn placement_operations(width: u32, height: u32, image: Seq<u8>) -> Seq<(Seq<u8>, Seq<PdfValue>)> {
    seq![
        (name("q"), Seq::empty()),
        (name("cm"), seq![
            PdfValue::Integer(width as i64),
            PdfValue::Integer(0),
            PdfValue::Integer(0),
            PdfValue::Integer(height as i64),
            PdfValue::Integer(0),
            PdfValue::Integer(0),
        ]),
        (name("Do"), seq![PdfValue::Name(image)]),
        (name("Q"), Seq::empty()),
    ]
}

/// The content stream that draws the image on its page.
pub open spec fn content_value(width: u32, height: u32, image: Seq<u8>) -> PdfValue {
    let bytes = content_text(placement_operations(width, height, image));
    PdfValue::Stream(DictMap::empty().insert(name("Length"), PdfValue::Integer(bytes.len() as i64)), bytes)
}

/// The procedure sets a page declares.
pub open spec fn proc_set() -> Seq<PdfValue> {
    seq![
        PdfValue::Name(name("PDF")),
        PdfValue::Name(name("Text")),
        PdfValue::Name(name("ImageB")),
        PdfValue::Name(name("ImageC")),
        PdfValue::Name(name("ImageI")),
    ]
}

/// The dictionary of a page that shows one image over the whole page.
#[verifier::opaque]
pub open spec fn page_value(
    parent: ObjectId,
    contents: ObjectId,
    image: ObjectId,
    width: u32,
    height: u32,
    orientation: u16,
) -> PdfValue {
    let resources = DictMap::empty()
        .insert(name("XObject"), PdfValue::Dictionary(DictMap::empty().insert(image_name(image), PdfValue::Reference(image))))
        .insert(name("ProcSet"), PdfValue::Array(proc_set()));
    let entries = DictMap::empty()
        .insert(name("Type"), PdfValue::Name(name("Page")))
        .insert(name("Parent"), PdfValue::Reference(parent))
        .insert(name("MediaBox"), PdfValue::Array(seq![
            PdfValue::Integer(0),
            PdfValue::Integer(0),
            PdfValue::Integer(width as i64),
            PdfValue::Integer(height as i64),
        ]))
        .insert(name("Contents"), PdfValue::Reference(contents))
        .insert(name("Resources"), PdfValue::Dictionary(resources));
    PdfValue::Dictionary(
        if rotation(orientation) != 0 {
            entries.insert(name("Rotate"), PdfValue::Integer(rotation(orientation)))
        } else {
            entries
        },
    )
}

/// The identifier `n` above `max_id`.
pub open spec fn id_above(max_id: u32, n: int) -> ObjectId {
    ((max_id + n) as u32, 0u16)
}

/// Adding the page of one image under `parent`: its image, its content stream
/// and its page dictionary take the next three identifiers. `None` where the
/// image cannot be embedded; the document is then left as it was.
#[verifier::opaque]
pub open spec fn add_page(st: DocState, img: ImageData, parent: ObjectId) -> Option<(DocState, ObjectId)> {
    match image_xobject(img.data@) {
        None => None,
        Some(xobject) => {
            let image = id_above(st.max_id, 1);
            let contents = id_above(st.max_id, 2);
            let page = id_above(st.max_id, 3);
            Some((DocState {
                objects: st.objects
                    .insert(image, xobject)
                    .insert(contents, content_value(img.width, img.height, image_name(image)))
                    .insert(page, page_value(parent, contents, image, img.width, img.height, img.orientation)),
                max_id: page.0,
                ..st
            }, page))
        },
    }
}

/// Adding the pages of these images one after the other: the state reached,
/// the pages added, and whether every image could be embedded. Adding stops
/// at the first image that cannot be.
#[verifier::opaque]
pub open spec fn add_pages(st: DocState, imgs: Seq<ImageData>, parent: ObjectId) -> (DocState, Seq<ObjectId>, bool)
    decreases imgs.len(),
{
    if imgs.len() == 0 {
        (st, Seq::empty(), true)
    } else {
        let (before, pages, complete) = add_pages(st, imgs.drop_last(), parent);
        if !complete {
            (before, pages, false)
        } else {
            match add_page(before, imgs.last(), parent) {
                None => (before, pages, false),
                Some((after, page)) => (after, pages.push(page), true),
            }
        }
    }
}

/// The catalog of a new document.
pub open spec fn catalog_value(pages: ObjectId) -> PdfValue {
    PdfValue::Dictionary(DictMap::empty()
        .insert(name("Type"), PdfValue::Name(name("Catalog")))
        .insert(name("Pages"), PdfValue::Reference(pages)))
}

/// The root of the page tree of a new document, with its kids and their count.
pub open spec fn page_tree_value(kids: Seq<ObjectId>, count: int) -> PdfValue {
    PdfValue::Dictionary(DictMap::empty()
        .insert(name("Type"), PdfValue::Name(name("Pages")))
        .insert(name("Kids"), PdfValue::Array(references(kids)))
        .insert(name("Count"), PdfValue::Integer(count as i64)))
}

/// The page tree root of a new document takes identifier 1, its catalog 2.
pub open spec fn new_tree_id() -> ObjectId {
    (1u32, 0u16)
}

pub open spec fn new_catalog_id() -> ObjectId {
    (2u32, 0u16)
}

/// A new document of version 1.5 with its catalog, before any page is added.
pub open spec fn new_document_state() -> DocState {
    DocState {
        objects: ObjectMap::empty().insert(new_catalog_id(), catalog_value(new_tree_id())),
        trailer: DictMap::empty().insert(name("Root"), PdfValue::Reference(new_catalog_id())),
        max_id: 2,
        version: "1.5"@,
    }
}

/// The document built of these images: the state, its pages, and whether
/// every image could be embedded.
pub open spec fn created(images: Seq<ImageData>) -> (DocState, Seq<ObjectId>, bool) {
    let (st, pages, complete) = add_pages(new_document_state(), images, new_tree_id());
    (DocState {
        objects: st.objects.insert(new_tree_id(), page_tree_value(pages, images.len() as int)),
        ..st
    }, pages, complete)
}

/// Adding the pages of one more image.
proof fn lemma_add_pages_step(st: DocState, imgs: Seq<ImageData>, k: int, parent: ObjectId)
    requires
        0 <= k < imgs.len(),
        add_pages(st, imgs.take(k), parent).2,
    ensures
        add_pages(st, imgs.take(k + 1), parent) == (match add_page(add_pages(st, imgs.take(k), parent).0, imgs[k], parent) {
            None => (add_pages(st, imgs.take(k), parent).0, add_pages(st, imgs.take(k), parent).1, false),
            Some((after, page)) => (after, add_pages(st, imgs.take(k), parent).1.push(page), true),
        }),
{
    reveal(add_pages);
    lemma_take_last(imgs, k);
}

proof fn lemma_add_pages_empty(st: DocState, imgs: Seq<ImageData>, parent: ObjectId)
    ensures
        add_pages(st, imgs.take(0), parent) == (st, Seq::<ObjectId>::empty(), true),
{
    reveal(add_pages);
    assert(imgs.take(0) =~= Seq::<ImageData>::empty());
}

pub proof fn lemma_page_value_countless(
    parent: ObjectId,
    contents: ObjectId,
    image: ObjectId,
    width: u32,
    height: u32,
    orientation: u16,
)
    ensures
        page_value(parent, contents, image, width, height, orientation) is Dictionary,
        (countless())(page_value(parent, contents, image, width, height, orientation)),
        page_value(parent, contents, image, width, height, orientation)->Dictionary_0.contains_key(name("Type")),
        page_value(parent, contents, image, width, height, orientation)->Dictionary_0[name("Type")] == PdfValue::Name(name("Page")),
        page_value(parent, contents, image, width, height, orientation)->Dictionary_0.contains_key(name("Parent")),
        page_value(parent, contents, image, width, height, orientation)->Dictionary_0[name("Parent")] == PdfValue::Reference(parent),
{
    reveal(page_value);
    lemma_name_bytes();
}

proof fn lemma_add_page_grown(st: DocState, img: ImageData, parent: ObjectId)
    requires
        add_page(st, img, parent) is Some,
        xobject_of(img.data@) is Stream,
        st.max_id + 3 <= u32::MAX,
    ensures
        grown_by(st.objects, add_page(st, img, parent)->Some_0.0.objects, countless()),
        add_page(st, img, parent)->Some_0.0.max_id == st.max_id + 3,
        add_page(st, img, parent)->Some_0.0.trailer == st.trailer,
{
    reveal(add_page);
    let image = id_above(st.max_id, 1);
    let contents = id_above(st.max_id, 2);
    let page = id_above(st.max_id, 3);
    lemma_page_value_countless(parent, contents, image, img.width, img.height, img.orientation);
    let after = add_page(st, img, parent)->Some_0.0.objects;
    assert forall|k: ObjectId| #[trigger] after.contains_key(k) implies
        (st.objects.contains_key(k) && after[k] == st.objects[k])
            || (!(after[k] is Reference) && (countless())(after[k])) by {
        if k == page {
        } else if k == contents {
        } else if k == image {
        }
    }
}

proof fn lemma_add_pages_keep_state(st: DocState, imgs: Seq<ImageData>, k: int, parent: ObjectId)
    requires
        0 <= k <= imgs.len(),
        !add_pages(st, imgs.take(k), parent).2,
    ensures
        add_pages(st, imgs, parent).0 == add_pages(st, imgs.take(k), parent).0,
    decreases imgs.len() - k,
{
    reveal(add_pages);
    if k < imgs.len() {
        lemma_take_last(imgs, k);
        lemma_add_pages_keep_state(st, imgs, k + 1, parent);
    } else {
        assert(imgs.take(k) =~= imgs);
    }
}

proof fn lemma_take_last<A>(s: Seq<A>, i: int)
    requires
        0 <= i < s.len(),
    ensures
        s.take(i + 1).drop_last() == s.take(i),
        s.take(i + 1).last() == s[i],
{
    assert(s.take(i + 1).drop_last() =~= s.take(i));
}

/// The operations that draw an image of this size filed under `image`.
fn placement(width: u32, height: u32, image: Vec<u8>) -> (ops: Vec<ContentOperation>)
    ensures
        crate::document::operations_value(ops@) == placement_operations(width, height, image@),
        crate::document::plain_operands(ops@),
{
    let mut scale: Vec<PdfObject> = Vec::new();
    push_item(&mut scale, PdfObject::Integer(width as i64));
    push_item(&mut scale, PdfObject::Integer(0));
    push_item(&mut scale, PdfObject::Integer(0));
    push_item(&mut scale, PdfObject::Integer(height as i64));
    push_item(&mut scale, PdfObject::Integer(0));
    push_item(&mut scale, PdfObject::Integer(0));
    let mut draw: Vec<PdfObject> = Vec::new();
    push_item(&mut draw, PdfObject::Name(image));
    let ghost scale_value = items_value(scale@);
    let ghost draw_value = items_value(draw@);
    let ghost scale_objects = scale@;
    let ghost draw_objects = draw@;
    let mut ops: Vec<ContentOperation> = Vec::new();
    ops.push(ContentOperation { operator: "q", operands: Vec::new() });
    ops.push(ContentOperation { operator: "cm", operands: scale });
    ops.push(ContentOperation { operator: "Do", operands: draw });
    ops.push(ContentOperation { operator: "Q", operands: Vec::new() });
    proof {
        assert(items_value(Seq::<PdfObject>::empty()) == Seq::<PdfValue>::empty());
        assert(scale_value =~= seq![
            PdfValue::Integer(width as i64),
            PdfValue::Integer(0),
            PdfValue::Integer(0),
            PdfValue::Integer(height as i64),
            PdfValue::Integer(0),
            PdfValue::Integer(0),
        ]);
        assert(draw_value =~= seq![PdfValue::Name(image@)]);
        assert(crate::document::operations_value(ops@) =~= placement_operations(width, height, image@));
        assert forall|i: int, j: int| 0 <= i < ops@.len() && 0 <= j < ops@[i].operands@.len() implies
            (#[trigger] ops@[i].operands@[j]) is Integer || ops@[i].operands@[j] is Name by {
            if i == 1 {
                assert(scale_objects =~= seq![
                    PdfObject::Integer(width as i64),
                    PdfObject::Integer(0),
                    PdfObject::Integer(0),
                    PdfObject::Integer(height as i64),
                    PdfObject::Integer(0),
                    PdfObject::Integer(0),
                ]);
            } else if i == 2 {
                assert(draw_objects[0] is Name);
            }
        }
    }
    ops
}

/// The dictionary of a page showing the image `image` drawn by `contents`.
fn page_dictionary(
    parent: ObjectId,
    contents: ObjectId,
    image: ObjectId,
    image_key: Vec<u8>,
    width: u32,
    height: u32,
    orientation: u16,
) -> (page: PdfObject)
    requires
        image_key@ == image_name(image),
    ensures
        object_value(page) == page_value(parent, contents, image, width, height, orientation),
{
    proof {
        reveal(page_value);
    }
    let mut images: Vec<(Vec<u8>, PdfObject)> = Vec::new();
    images.push((image_key, PdfObject::Reference(image)));
    proof {
        assert(images@.drop_last() =~= Seq::<(Vec<u8>, PdfObject)>::empty());
        assert(crate::model::entries_value(Seq::<(Vec<u8>, PdfObject)>::empty()) == DictMap::empty());
        assert(images@.last().0@ == image_name(image));
        assert(object_value(images@.last().1) == PdfValue::Reference(image));
        assert(crate::model::entries_value(images@) == DictMap::empty().insert(image_name(image), PdfValue::Reference(image)));
    }
    let mut proc_sets: Vec<PdfObject> = Vec::new();
    push_item(&mut proc_sets, PdfObject::Name(name_bytes("PDF")));
    push_item(&mut proc_sets, PdfObject::Name(name_bytes("Text")));
    push_item(&mut proc_sets, PdfObject::Name(name_bytes("ImageB")));
    push_item(&mut proc_sets, PdfObject::Name(name_bytes("ImageC")));
    push_item(&mut proc_sets, PdfObject::Name(name_bytes("ImageI")));
    proof {
        assert(items_value(proc_sets@) =~= proc_set());
    }
    let ghost images_value = crate::model::entries_value(images@);
    let mut resources: Vec<(Vec<u8>, PdfObject)> = Vec::new();
    push_entry(&mut resources, "XObject", PdfObject::Dictionary(images));
    push_entry(&mut resources, "ProcSet", PdfObject::Array(proc_sets));
    let mut media_box: Vec<PdfObject> = Vec::new();
    push_item(&mut media_box, PdfObject::Integer(0));
    push_item(&mut media_box, PdfObject::Integer(0));
    push_item(&mut media_box, PdfObject::Integer(width as i64));
    push_item(&mut media_box, PdfObject::Integer(height as i64));
    proof {
        assert(items_value(media_box@) =~= seq![
            PdfValue::Integer(0),
            PdfValue::Integer(0),
            PdfValue::Integer(width as i64),
            PdfValue::Integer(height as i64),
        ]);
    }
    let rotate: i64 = match orientation {
        3 => 180,
        6 => 90,
        8 => 270,
        _ => 0,
    };
    let mut entries: Vec<(Vec<u8>, PdfObject)> = Vec::new();
    push_entry(&mut entries, "Type", PdfObject::Name(name_bytes("Page")));
    push_entry(&mut entries, "Parent", PdfObject::Reference(parent));
    push_entry(&mut entries, "MediaBox", PdfObject::Array(media_box));
    push_entry(&mut entries, "Contents", PdfObject::Reference(contents));
    push_entry(&mut entries, "Resources", PdfObject::Dictionary(resources));
    assert(rotate == rotation(orientation));
    if rotate != 0 {
        push_entry(&mut entries, "Rotate", PdfObject::Integer(rotate));
    }
    PdfObject::Dictionary(entries)
}

/// Embeds the image, adds a content stream that draws it over the whole
/// page, and adds a page under `parent` that shows it.
fn create_and_add_page(doc: &mut lopdf::Document, img: &ImageData, parent: ObjectId) -> (r: Result<ObjectId, PdfError>)
    requires
        document_max_id(*old(doc)) + 3 <= u32::MAX,
    ensures
        match add_page(state_of(*old(doc)), *img, parent) {
            None => r == Err::<ObjectId, PdfError>(PdfError::ImageNotEmbeddable)
                && state_of(*final(doc)) == state_of(*old(doc)),
            Some((after, page)) => r == Ok::<ObjectId, PdfError>(page) && state_of(*final(doc)) == after,
        },
        r is Ok ==> xobject_of(img.data@) is Stream,
        kept_or_follows(*old(doc), *final(doc)),
{
    proof {
        reveal(add_page);
    }
    let xobject = match embed_image(img.data.clone()) {
        Ok(x) => x,
        Err(_) => return Err(PdfError::ImageNotEmbeddable),
    };
    let image_id = add_object(doc, PdfObject::Image(xobject));
    let mut image_key = name_bytes("Im");
    let mut digits = decimal_bytes(image_id.0);
    image_key.append(&mut digits);
    let ops = placement(img.width, img.height, image_key.clone());
    let content = encode_content(ops);
    let contents_id = add_object(doc, PdfObject::Stream(Vec::new(), content));
    let page = page_dictionary(parent, contents_id, image_id, image_key, img.width, img.height, img.orientation);
    let page_id = add_object(doc, page);
    proof {
        assert(crate::model::entries_value(Seq::<(Vec<u8>, PdfObject)>::empty()) == DictMap::empty());
    }
    Ok(page_id)
}

pub proof fn lemma_add_pages_stays_incomplete(st: DocState, imgs: Seq<ImageData>, k: int, parent: ObjectId)
    requires
        0 <= k <= imgs.len(),
        !add_pages(st, imgs.take(k), parent).2,
    ensures
        !add_pages(st, imgs, parent).2,
    decreases imgs.len() - k,
{
    reveal(add_pages);
    if k < imgs.len() {
        lemma_take_last(imgs, k);
        lemma_add_pages_stays_incomplete(st, imgs, k + 1, parent);
    } else {
        assert(imgs.take(k) =~= imgs);
    }
}

/// References to these objects, as an array to store.
fn reference_array(ids: &Vec<ObjectId>) -> (r: Vec<PdfObject>)
    ensures
        items_value(r@) == references(ids@),
{
    let mut r: Vec<PdfObject> = Vec::new();
    let mut i: usize = 0;
    while i < ids.len()
        invariant
            i <= ids.len(),
            items_value(r@) =~= references(ids@.take(i as int)),
        decreases ids.len() - i,
    {
        push_item(&mut r, PdfObject::Reference(ids[i]));
        i = i + 1;
        proof {
            assert(references(ids@.take(i as int)) =~= references(ids@.take(i - 1)).push(PdfValue::Reference(ids@[i - 1])));
        }
    }
    proof {
        assert(ids@.take(ids.len() as int) =~= ids@);
    }
    r
}

/// Builds a PDF document with one page for each image, in order.
///
/// The page tree root takes identifier 1 and the catalog 2; then each image
/// in turn takes the next three identifiers, for its image, its content
/// stream and its page. The document fails to be built exactly when some
/// image cannot be embedded.
pub fn create_pdf(images: &[ImageData]) -> (r: Result<lopdf::Document, PdfError>)
    requires
        images@.len() * 3 + 2 <= u32::MAX,
    ensures
        r is Ok <==> created(images@).2,
        r matches Ok(doc) ==> state_of(doc) == created(images@).0,
        r matches Err(e) ==> e == PdfError::ImageNotEmbeddable,
        r matches Ok(doc) ==> crate::document::page_list_follows_tree(doc),
{
    let mut doc = new_document("1.5");
    let pages_id = new_object_id(&mut doc);
    let mut catalog: Vec<(Vec<u8>, PdfObject)> = Vec::new();
    push_entry(&mut catalog, "Type", PdfObject::Name(name_bytes("Catalog")));
    push_entry(&mut catalog, "Pages", PdfObject::Reference(pages_id));
    let catalog_id = add_object(&mut doc, PdfObject::Dictionary(catalog));
    set_trailer_entry(&mut doc, "Root", PdfObject::Reference(catalog_id));
    proof {
        assert(crate::model::entries_value(Seq::<(Vec<u8>, PdfObject)>::empty()) == DictMap::empty());
        assert(state_of(doc) == new_document_state());
    }
    let page_ids = add_image_pages(&mut doc, images, pages_id)?;
    let kids = reference_array(&page_ids);
    let mut tree: Vec<(Vec<u8>, PdfObject)> = Vec::new();
    push_entry(&mut tree, "Type", PdfObject::Name(name_bytes("Pages")));
    push_entry(&mut tree, "Kids", PdfObject::Array(kids));
    push_entry(&mut tree, "Count", PdfObject::Integer(images.len() as i32 as i64));
    insert_object(&mut doc, pages_id, PdfObject::Dictionary(tree));
    Ok(doc)
}

/// The value under `key`, where it is a reference.
pub open spec fn entry_reference(d: DictMap, key: Seq<u8>) -> Option<ObjectId> {
    if d.contains_key(key) {
        reference_in(d[key])
    } else {
        None
    }
}

/// The value under `key`, where it is an integer.
pub open spec fn entry_integer(d: DictMap, key: Seq<u8>) -> Option<i64> {
    if d.contains_key(key) {
        match d[key] {
            PdfValue::Integer(i) => Some(i),
            _ => None,
        }
    } else {
        None
    }
}

/// The root of the page tree, reached from the trailer's `Root` through the
/// catalog's `Pages`, or why it cannot be reached.
pub open spec fn page_tree_root(st: DocState) -> Result<ObjectId, PdfError> {
    match entry_reference(st.trailer, name("Root")) {
        None => Err(PdfError::MissingCatalog),
        Some(catalog) => match resolved_dictionary(st.objects, catalog) {
            None => Err(PdfError::UnreadableObject(catalog.0, catalog.1)),
            Some((_, d)) => match entry_reference(d, name("Pages")) {
                None => Err(PdfError::MissingPageTree),
                Some(root) => Ok(root),
            },
        },
    }
}

/// The `Count` of the dictionary that `root` resolves to, 0 where there is none.
pub open spec fn count_entry(objects: ObjectMap, root: ObjectId) -> int {
    match resolved_dictionary(objects, root) {
        Some((_, d)) => match entry_integer(d, name("Count")) {
            Some(c) => c as int,
            None => 0,
        },
        None => 0,
    }
}

/// The page before which insertion starts: `start`, at least 1 and at most
/// one past the last page.
pub open spec fn insertion_start(page_count: u32, start: u32) -> int {
    let at_least_one: int = if start < 1 { 1 } else { start as int };
    if at_least_one < page_count + 1 { at_least_one } else { page_count + 1 }
}

/// `new` put into `items` before position `at`.
pub open spec fn spliced(items: Seq<PdfValue>, at: int, new: Seq<PdfValue>) -> Seq<PdfValue> {
    items.take(at) + new + items.skip(at)
}

/// Where the new pages go: the page tree node whose `Kids` take them, and the
/// page they go before. Before the page numbered `start` (clamped between
/// the first page and one past the last), in the `Kids` of that page's
/// `Parent` (of the root where it names none); after the last page, at the
/// end of the root's `Kids`.
pub open spec fn insertion_place(st: DocState, root: ObjectId, start: u32) -> (ObjectId, Option<ObjectId>) {
    let pages = pdf_pages(st.objects, st.trailer);
    let s = insertion_start(pages.len() as u32, start);
    if s <= pages.len() as u32 {
        match page_lookup(pages, s as u32) {
            Some(page) => (match resolved_dictionary(st.objects, page) {
                Some((_, d)) => match reference_under(d, name("Parent")) {
                    Some(parent) => parent,
                    None => root,
                },
                None => root,
            }, Some(page)),
            None => (root, None),
        }
    } else {
        (root, None)
    }
}

/// The position in `Kids` at which the new pages go: that of the first
/// reference to the page they go before, or the end.
pub open spec fn kid_slot(items: Seq<PdfValue>, before: Option<ObjectId>) -> int {
    match before {
        Some(page) => match first_position(references_in(items), page) {
            Some(i) => i,
            None => items.len() as int,
        },
        None => items.len() as int,
    }
}

/// Raising by `m` the `Count` of each page tree node up a chain of `Parent`
/// references from `next`, for at most `fuel` nodes, each a dictionary
/// stored under its identifier (no reference is followed, as
/// `delete_pages` walks). Only an integer `Count` is raised, and not where
/// that would pass `i64::MAX`.
pub open spec fn raised_above(st: DocState, next: Option<ObjectId>, m: int, fuel: nat) -> DocState
    decreases fuel,
{
    if fuel == 0 {
        st
    } else {
        match next {
            None => st,
            Some(id) => match stored_dictionary(st.objects, id) {
                None => st,
                Some(d) => {
                    let raised = match entry_integer(d, name("Count")) {
                        Some(c) => if c + m <= i64::MAX {
                            DocState {
                                objects: st.objects.insert(id, PdfValue::Dictionary(
                                    d.insert(name("Count"), PdfValue::Integer((c + m) as i64)))),
                                ..st
                            }
                        } else {
                            st
                        },
                        None => st,
                    };
                    raised_above(raised, reference_under(d, name("Parent")), m, (fuel - 1) as nat)
                },
            },
        }
    }
}

/// The document after inserting the pages of `images` before page `start`,
/// and the result of the insertion. The new pages go under the node that
/// `insertion_place` gives, into its `Kids` where that is an array, before
/// the page they go before; its `Count` grows by their number (from 0 where
/// it has none), and so does each integer `Count` above it. Where an image
/// cannot be embedded, the pages of the images before it stay added,
/// unlinked.
pub open spec fn inserted(st: DocState, images: Seq<ImageData>, start: u32) -> (DocState, Result<(), PdfError>) {
    if images.len() == 0 {
        (st, Ok(()))
    } else {
        match page_tree_root(st) {
            Err(e) => (st, Err(e)),
            Ok(root) => {
                let (node, before) = insertion_place(st, root, start);
                let (added, pages, complete) = add_pages(st, images, node);
                if !complete {
                    (added, Err(PdfError::ImageNotEmbeddable))
                } else {
                    match resolved_dictionary(added.objects, node) {
                        None => (added, Err(PdfError::UnreadableObject(node.0, node.1))),
                        Some((target, d)) => {
                            let kids = with_array(d, name("Kids"),
                                |items: Seq<PdfValue>| spliced(items, kid_slot(items, before), references(pages)));
                            let count = count_entry(added.objects, node);
                            let linked = DocState {
                                objects: added.objects.insert(target, PdfValue::Dictionary(
                                    kids.insert(name("Count"), PdfValue::Integer((count + images.len()) as i64)))),
                                ..added
                            };
                            (raised_above(linked, reference_under(d, name("Parent")), images.len() as int,
                                linked.objects.dom().len()), Ok(()))
                        },
                    }
                }
            },
        }
    }
}

/// What `insert_pages` needs, where there are images, to run without
/// overflow: identifiers for three objects per image, a page count below
/// `u32::MAX`, and room in the `Count` of the node that takes the pages.
pub open spec fn insertion_fits(st: DocState, images: Seq<ImageData>, start: u32) -> bool {
    images.len() > 0 ==> {
        &&& st.max_id + 3 * images.len() <= u32::MAX
        &&& (pdf_pages(st.objects, st.trailer).len() as u32) < u32::MAX
        &&& page_tree_root(st) matches Ok(root)
            ==> count_entry(st.objects, insertion_place(st, root, start).0) + images.len() <= i64::MAX
    }
}

/// A value that is no dictionary with a `Count`.
pub open spec fn countless() -> spec_fn(PdfValue) -> bool {
    |v: PdfValue| !(v matches PdfValue::Dictionary(d) && d.contains_key(name("Count")))
}

proof fn lemma_splice_step(items: Seq<PdfValue>, at: int, pages: Seq<ObjectId>, j: int)
    requires
        0 <= at <= items.len(),
        0 <= j < pages.len(),
    ensures
        spliced(items, at, references(pages.take(j))).insert(at + j, PdfValue::Reference(pages[j]))
            == spliced(items, at, references(pages.take(j + 1))),
{
    assert(spliced(items, at, references(pages.take(j))).insert(at + j, PdfValue::Reference(pages[j]))
        =~= spliced(items, at, references(pages.take(j + 1))));
}

/// Adds the pages of these images under `parent`, one after the other,
/// and returns them; stops at the first image that cannot be embedded.
fn add_image_pages(doc: &mut lopdf::Document, images: &[ImageData], parent: ObjectId) -> (r: Result<Vec<ObjectId>, PdfError>)
    requires
        document_max_id(*old(doc)) + 3 * images@.len() <= u32::MAX,
    ensures
        add_pages(state_of(*old(doc)), images@, parent).0 == state_of(*final(doc)),
        add_pages(state_of(*old(doc)), images@, parent).2 ==> (r matches Ok(ids) && ids@ == add_pages(state_of(*old(doc)), images@, parent).1),
        !add_pages(state_of(*old(doc)), images@, parent).2 ==> r == Err::<Vec<ObjectId>, PdfError>(PdfError::ImageNotEmbeddable),
        grown_by(document_objects(*old(doc)), document_objects(*final(doc)), countless()),
        kept_or_follows(*old(doc), *final(doc)),
{
    let ghost st0 = state_of(*doc);
    proof {
        lemma_add_pages_empty(st0, images@, parent);
        assert(grown_by(st0.objects, st0.objects, countless()));
    }
    let mut page_ids: Vec<ObjectId> = Vec::new();
    let mut i: usize = 0;
    while i < images.len()
        invariant
            i <= images@.len(),
            st0 == state_of(*old(doc)),
            st0.max_id + 3 * images@.len() <= u32::MAX,
            add_pages(st0, images@.take(i as int), parent) == (state_of(*doc), page_ids@, true),
            document_max_id(*doc) == st0.max_id + 3 * i,
            grown_by(st0.objects, document_objects(*doc), countless()),
            kept_or_follows(*old(doc), *doc),
        decreases images@.len() - i,
    {
        proof {
            lemma_add_pages_step(st0, images@, i as int, parent);
        }
        let ghost before = state_of(*doc);
        let page_id = match create_and_add_page(doc, &images[i], parent) {
            Ok(id) => id,
            Err(e) => {
                proof {
                    lemma_add_pages_stays_incomplete(st0, images@, i + 1, parent);
                    lemma_add_pages_keep_state(st0, images@, i + 1, parent);
                }
                return Err(e);
            },
        };
        proof {
            lemma_add_page_grown(before, images@[i as int], parent);
            lemma_grown_by_trans(st0.objects, before.objects, document_objects(*doc), countless());
        }
        page_ids.push(page_id);
        i = i + 1;
    }
    proof {
        assert(images@.take(images@.len() as int) =~= images@);
    }
    Ok(page_ids)
}

/// Puts references to `ids` into the `Kids` array of the dictionary that
/// `root` resolves to, before position `at`.
fn link_kids(doc: &mut lopdf::Document, root: ObjectId, at: usize, ids: &Vec<ObjectId>)
    requires
        resolved_dictionary(document_objects(*old(doc)), root) matches Some((_, d))
            && d.contains_key(name("Kids")) && d[name("Kids")] is Array
            && at <= d[name("Kids")]->Array_0.len(),
    ensures
        resolve(document_objects(*final(doc)), root) == resolve(document_objects(*old(doc)), root),
        resolved_dictionary(document_objects(*old(doc)), root) matches Some((target, d)) && state_of(*final(doc)) == (DocState {
            objects: document_objects(*old(doc)).insert(target, PdfValue::Dictionary(d.insert(name("Kids"),
                PdfValue::Array(spliced(d[name("Kids")]->Array_0, at as int, references(ids@)))))),
            ..state_of(*old(doc))
        }),
        kept_or_follows(*old(doc), *final(doc)),
{
    let ghost st0 = state_of(*doc);
    let ghost target = resolved_dictionary(st0.objects, root)->Some_0.0;
    let ghost d0 = resolved_dictionary(st0.objects, root)->Some_0.1;
    let ghost items = d0[name("Kids")]->Array_0;
    proof {
        lemma_resolve_contained(st0.objects, root);
        assert(ids@.take(0) =~= Seq::<ObjectId>::empty());
        assert(spliced(items, at as int, references(ids@.take(0))) =~= items);
        assert(d0.insert(name("Kids"), PdfValue::Array(items)) =~= d0);
        assert(st0.objects.insert(target, PdfValue::Dictionary(d0)) =~= st0.objects);
    }
    let mut j: usize = 0;
    while j < ids.len()
        invariant
            j <= ids.len(),
            at <= items.len(),
            j > 0 ==> at + j <= isize::MAX,
            resolve(st0.objects, root) == Some(target),
            st0.objects.contains_key(target),
            resolve(document_objects(*doc), root) == Some(target),
            kept_or_follows(*old(doc), *doc),
            state_of(*doc) == (DocState {
                objects: st0.objects.insert(target, PdfValue::Dictionary(d0.insert(name("Kids"),
                    PdfValue::Array(spliced(items, at as int, references(ids@.take(j as int))))))),
                ..st0
            }),
        decreases ids.len() - j,
    {
        let ghost next = PdfValue::Dictionary(d0.insert(name("Kids"),
            PdfValue::Array(spliced(items, at as int, references(ids@.take(j + 1))))));
        let ghost dj = d0.insert(name("Kids"), PdfValue::Array(spliced(items, at as int, references(ids@.take(j as int)))));
        let ghost before = document_objects(*doc);
        proof {
            lemma_splice_step(items, at as int, ids@, j as int);
            assert(before.insert(target, next) =~= st0.objects.insert(target, next));
            lemma_resolve_update_target(before, root, next);
            assert(resolved_dictionary(before, root) == Some((target, dj)));
            let grown = dj.insert(name("Kids"), PdfValue::Array(spliced(items, at as int, references(ids@.take(j as int))).insert(at + j, PdfValue::Reference(ids@[j as int]))));
            assert(grown =~= d0.insert(name("Kids"), PdfValue::Array(spliced(items, at as int, references(ids@.take(j + 1))))));
        }
        let _ = insert_array_entry(doc, root, "Kids", at + j, PdfObject::Reference(ids[j]));
        proof {
            let cur = document_objects(*doc);
            assert(cur =~= st0.objects.insert(target, next));
        }
        j = j + 1;
    }
    proof {
        assert(ids@.take(ids@.len() as int) =~= ids@);
    }
}

/// Where the new pages go, as `insertion_place` describes: reads the page
/// numbered `actual_start` in `pages` and its `Parent`.
fn place_of(doc: &lopdf::Document, pages: &Vec<(u32, ObjectId)>, actual_start: u32, start_index: u32, root: ObjectId) -> (r: (ObjectId, Option<ObjectId>))
    requires
        pages@ == pdf_pages(document_objects(*doc), document_trailer(*doc)),
        (pages@.len() as u32) < u32::MAX,
        actual_start == insertion_start(pages@.len() as u32, start_index),
    ensures
        r == insertion_place(state_of(*doc), root, start_index),
{
    let page_count = #[verifier::truncate] (pages.len() as u32);
    if actual_start <= page_count {
        match find_page(pages, actual_start) {
            Some(page) => {
                let parent = match dictionary_entry(doc, page, "Parent") {
                    Ok(Some(Entry::Reference(p))) => p,
                    _ => root,
                };
                (parent, Some(page))
            },
            None => (root, None),
        }
    } else {
        (root, None)
    }
}

/// Raises by `m` each integer `Count` up the chain of `Parent` references
/// from `start`, as `raised_above` describes, for at most as many nodes as
/// the document has objects.
fn raise_ancestors(doc: &mut lopdf::Document, start: Option<ObjectId>, m: i64)
    requires
        m >= 0,
    ensures
        state_of(*final(doc)) == raised_above(state_of(*old(doc)), start, m as int, document_objects(*old(doc)).dom().len()),
        kept_or_follows(*old(doc), *final(doc)),
{
    let ghost st0 = state_of(*doc);
    let ghost fuel = document_objects(*doc).dom().len();
    let limit = object_count(doc);
    let mut next = start;
    let mut steps: usize = 0;
    while steps < limit
        invariant
            steps <= limit,
            limit == fuel,
            m >= 0,
            st0 == state_of(*old(doc)),
            raised_above(st0, start, m as int, fuel) == raised_above(state_of(*doc), next, m as int, (fuel - steps) as nat),
            kept_or_follows(*old(doc), *doc),
        ensures
            raised_above(st0, start, m as int, fuel) == state_of(*doc),
            kept_or_follows(*old(doc), *doc),
        decreases limit - steps,
    {
        let id = match next {
            None => break,
            Some(id) => id,
        };
        let count = match stored_dictionary_entry(doc, id, "Count") {
            None => break,
            Some(c) => c,
        };
        let parent = match stored_dictionary_entry(doc, id, "Parent") {
            Some(Some(Entry::Reference(p))) => Some(p),
            _ => None,
        };
        let ghost d = stored_dictionary(document_objects(*doc), id)->Some_0;
        assert(parent == reference_under(d, name("Parent")));
        match count {
            Some(Entry::Integer(c)) => {
                if c <= i64::MAX - m {
                    set_stored_entry(doc, id, "Count", PdfObject::Integer(c + m));
                }
            },
            _ => {},
        }
        next = parent;
        steps = steps + 1;
    }
}

/// Inserts the pages of `images` into the document, before page
/// `start_index` (counted from 1; clamped to lie between the first page and
/// one past the last).
///
/// The pages go where `insertion_place` says: into the `Kids` of the parent
/// of the page they go before, just before it (at the end of the root's
/// `Kids` where they go after the last page). The `Count` of that node grows
/// by their number, and so does each integer `Count` above it.
pub fn insert_pages(doc: &mut lopdf::Document, images: &[ImageData], start_index: u32) -> (r: Result<(), PdfError>)
    requires
        insertion_fits(state_of(*old(doc)), images@, start_index),
    ensures
        inserted(state_of(*old(doc)), images@, start_index) == (state_of(*final(doc)), r),
        kept_or_follows(*old(doc), *final(doc)),
{
    if images.len() == 0 {
        return Ok(());
    }
    let pages = page_entries(doc);
    let page_count = #[verifier::truncate] (pages.len() as u32);
    let at_least_one = if start_index < 1 { 1 } else { start_index };
    let actual_start = if at_least_one < page_count + 1 { at_least_one } else { page_count + 1 };
    let catalog_id = match trailer_entry(doc, "Root") {
        Some(Entry::Reference(id)) => id,
        _ => return Err(PdfError::MissingCatalog),
    };
    let pages_root_id = match dictionary_entry(doc, catalog_id, "Pages") {
        Err(_) => return Err(PdfError::UnreadableObject(catalog_id.0, catalog_id.1)),
        Ok(Some(Entry::Reference(id))) => id,
        Ok(_) => return Err(PdfError::MissingPageTree),
    };
    let ghost st0 = state_of(*doc);
    assert(page_tree_root(st0) == Ok::<ObjectId, PdfError>(pages_root_id));
    let (node, before) = place_of(doc, &pages, actual_start, start_index, pages_root_id);
    let new_page_ids = add_image_pages(doc, images, node)?;
    let ghost added = state_of(*doc);
    let count = match dictionary_entry(doc, node, "Count") {
        Err(_) => return Err(PdfError::UnreadableObject(node.0, node.1)),
        Ok(Some(Entry::Integer(c))) => c,
        Ok(_) => 0,
    };
    proof {
        assert(count as int == count_entry(added.objects, node));
        lemma_resolved_dictionary_grown(st0.objects, added.objects, countless(), node);
        assert(count + images@.len() <= i64::MAX);
    }
    let ghost d0 = resolved_dictionary(added.objects, node)->Some_0.1;
    let ghost target = resolved_dictionary(added.objects, node)->Some_0.0;
    proof {
        lemma_resolve_contained(added.objects, node);
        assert(added.objects.insert(target, PdfValue::Dictionary(d0)) =~= added.objects);
    }
    match dictionary_entry(doc, node, "Kids") {
        Ok(Some(Entry::Array(kids))) => {
            let ghost items = d0[name("Kids")]->Array_0;
            let insert_idx = match before {
                Some(page) => match find_first(&kids, page) {
                    Some(i) => i,
                    None => kids.len(),
                },
                None => kids.len(),
            };
            assert(insert_idx == kid_slot(items, before));
            link_kids(doc, node, insert_idx, &new_page_ids);
        },
        _ => {},
    }
    let ghost linked = state_of(*doc);
    let ghost d1 = with_array(d0, name("Kids"),
        |items: Seq<PdfValue>| spliced(items, kid_slot(items, before), references(new_page_ids@)));
    assert(linked == (DocState { objects: added.objects.insert(target, PdfValue::Dictionary(d1)), ..added }));
    assert(resolved_dictionary(linked.objects, node) == Some((target, d1)));
    let _ = set_dictionary_entry(doc, node, "Count", PdfObject::Integer(count + images.len() as i64));
    let ghost d2 = d1.insert(name("Count"), PdfValue::Integer((count + images.len()) as i64));
    assert(state_of(*doc).objects =~= added.objects.insert(target, PdfValue::Dictionary(d2)));
    assert(add_pages(st0, images@, node) == (added, new_page_ids@, true));
    proof {
        lemma_name_bytes();
        lemma_resolve_update_target(linked.objects, node, PdfValue::Dictionary(d2));
        assert(linked.objects.insert(target, PdfValue::Dictionary(d2)) =~= added.objects.insert(target, PdfValue::Dictionary(d2)));
    }
    let parent = match dictionary_entry(doc, node, "Parent") {
        Ok(Some(Entry::Reference(p))) => Some(p),
        _ => None,
    };
    assert(parent == reference_under(d0, name("Parent")));
    raise_ancestors(doc, parent, images.len() as i64);
    assert(state_of(*doc) == inserted(st0, images@, start_index).0);
    Ok(())
}

/// Inserts the pages of `images` before page `start_index` where that can be
/// done without overflow (see `insertion_fits`); otherwise gives `None` and
/// leaves the document as it is.
pub fn try_insert_pages(doc: &mut lopdf::Document, images: &[ImageData], start_index: u32) -> (r: Option<Result<(), PdfError>>)
    ensures
        r is None <==> !insertion_fits(state_of(*old(doc)), images@, start_index),
        r is None ==> state_of(*final(doc)) == state_of(*old(doc)),
        r matches Some(result) ==> inserted(state_of(*old(doc)), images@, start_index) == (state_of(*final(doc)), result),
        kept_or_follows(*old(doc), *final(doc)),
{
    if images.len() == 0 {
        return Some(insert_pages(doc, images, start_index));
    }
    let max_id = max_object_number(doc);
    if images.len() > ((u32::MAX - max_id) / 3) as usize {
        return None;
    }
    let pages = page_entries(doc);
    let page_count = #[verifier::truncate] (pages.len() as u32);
    if page_count == u32::MAX {
        return None;
    }
    let at_least_one = if start_index < 1 { 1 } else { start_index };
    let actual_start = if at_least_one < page_count + 1 { at_least_one } else { page_count + 1 };
    let root = match trailer_entry(doc, "Root") {
        Some(Entry::Reference(catalog)) => match dictionary_entry(doc, catalog, "Pages") {
            Ok(Some(Entry::Reference(root))) => Some(root),
            _ => None,
        },
        _ => None,
    };
    assert(root == match page_tree_root(state_of(*doc)) {
        Ok(r) => Some(r),
        Err(_) => None::<ObjectId>,
    });
    if let Some(root) = root {
        let (node, _) = place_of(doc, &pages, actual_start, start_index, root);
        let count: i64 = match dictionary_entry(doc, node, "Count") {
            Ok(Some(Entry::Integer(c))) => c,
            _ => 0,
        };
        assert(count as int == count_entry(document_objects(*doc), node));
        if count > i64::MAX - images.len() as i64 {
            return None;
        }
    }
    Some(insert_pages(doc, images, start_index))
}

} // verus!
