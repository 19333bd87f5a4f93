//! What holds of the page tree across the operations of the library.

use vstd::prelude::*;
use crate::document::{
    DocState, image_xobject, nested_page_tree, nestedly_deletable, node_kids, subtree, kids_subtrees, deletion_returns, distinct, pages_follow_tree, flat_page_tree, is_page_leaf, numbered, page_deletion,
    page_lookup, parent_walk_returns, pdf_pages, plainly_deletable, reference_under, references_in,
    resolve, resolved_dictionary, stored_dictionary, xobject_of, with_array,
};
use crate::edit::{
    first_position, kids_of, last_position, lemma_numbered_lookup, lemma_page_lookup, page_parent, removed, swap_in_parent, swapped,
};
use crate::model::{ObjectId, ObjectMap, PdfValue, references};
use crate::names::{lemma_name_bytes, name};
use crate::text::decimal;
use crate::document::content_text;
use crate::model::DictMap;
use crate::tree::{count_of, counted, lemma_counted_traded, lemma_subtree_pages, swap_id, swap_ids, lemma_subtree_traded, traded, same_shape, splice_before, index_in, spliced_node, lemma_subtree_splice, lemma_subtree_facts,
    lemma_kids_concat, lemma_kids_frame, lemma_kids_leaves, lemma_index_at, lemma_index_in, lemma_contains};
use crate::pages::{
    ImageData, add_page, add_pages, id_above, lemma_add_pages_stays_incomplete, content_value, created, image_name, lemma_page_value_countless,
    new_catalog_id, new_document_state, new_tree_id, page_tree_value, page_value, catalog_value,
    inserted, insertion_fits, insertion_start, insertion_place, kid_slot, page_tree_root, spliced, count_entry,
    raised_above, entry_integer, countless,
};

verus! {

/// Every object is numbered at most `max_id`.
pub open spec fn numbered_below(objects: ObjectMap, max_id: u32) -> bool {
    forall|k: ObjectId| #[trigger] objects.contains_key(k) ==> k.0 <= max_id
}

/// The page `page` draws `img`: it is the page that `add_page` makes, with
/// the image and the content stream stored just before it.
pub open spec fn shows_image(objects: ObjectMap, page: ObjectId, parent: ObjectId, img: ImageData) -> bool {
    let image = ((page.0 - 2) as u32, 0u16);
    let contents = ((page.0 - 1) as u32, 0u16);
    &&& objects.contains_key(page) && objects.contains_key(image) && objects.contains_key(contents)
    &&& objects[page] == page_value(parent, contents, image, img.width, img.height, img.orientation)
    &&& objects[image] == xobject_of(img.data@)
    &&& objects[contents] == content_value(img.width, img.height, image_name(image))
}

/// Adding pages to a document whose objects are all numbered at most its
/// `max_id` stores them under new numbers, three per image, and keeps every
/// object it had.
proof fn lemma_add_pages_fresh(st: DocState, imgs: Seq<ImageData>, parent: ObjectId)
    requires
        numbered_below(st.objects, st.max_id),
        st.objects.dom().finite(),
        st.max_id + 3 * imgs.len() <= u32::MAX,
        add_pages(st, imgs, parent).2,
    ensures
        ({
            let (after, pages, _) = add_pages(st, imgs, parent);
            &&& after.max_id == st.max_id + 3 * imgs.len()
            &&& after.trailer == st.trailer
            &&& numbered_below(after.objects, after.max_id)
            &&& after.objects.dom().finite()
            &&& after.objects.dom().len() == st.objects.dom().len() + 3 * imgs.len()
            &&& forall|k: ObjectId| #[trigger] st.objects.contains_key(k) ==>
                after.objects.contains_key(k) && after.objects[k] == st.objects[k]
            &&& forall|k: ObjectId| #[trigger] after.objects.contains_key(k) ==>
                st.objects.contains_key(k) || k.0 > st.max_id
            &&& pages.len() == imgs.len()
            &&& forall|i: int| 0 <= i < imgs.len() ==> #[trigger] pages[i] == ((st.max_id + 3 * (i + 1)) as u32, 0u16)
            &&& forall|i: int| 0 <= i < imgs.len() ==> shows_image(after.objects, #[trigger] pages[i], parent, imgs[i])
        }),
    decreases imgs.len(),
{
    reveal(add_pages);
    if imgs.len() > 0 {
        let prefix = imgs.drop_last();
        lemma_add_pages_fresh(st, prefix, parent);
        let (before, pages, _) = add_pages(st, prefix, parent);
        reveal(add_page);
        let img = imgs.last();
        let image = ((before.max_id + 1) as u32, 0u16);
        let contents = ((before.max_id + 2) as u32, 0u16);
        let page = ((before.max_id + 3) as u32, 0u16);
        let (after, all, _) = add_pages(st, imgs, parent);
        assert(!before.objects.contains_key(image));
        assert(!before.objects.contains_key(contents));
        assert(!before.objects.contains_key(page));
        assert(after.objects.dom() =~= before.objects.dom().insert(image).insert(contents).insert(page));
        assert forall|i: int| 0 <= i < imgs.len() implies shows_image(after.objects, #[trigger] all[i], parent, imgs[i]) by {
            if i < imgs.len() - 1 {
                assert(all[i] == pages[i]);
                assert(prefix[i] == imgs[i]);
                assert(shows_image(before.objects, pages[i], parent, prefix[i]));
            }
        }
    }
}

/// A document built of images is a page tree of one level whose kids are its
/// new pages, one for each image, in the order of the images; each page
/// draws its image.
pub proof fn law_created_page_tree(images: Seq<ImageData>)
    requires
        images.len() * 3 + 2 <= u32::MAX,
        created(images).2,
    ensures
        flat_page_tree(created(images).0.objects, created(images).0.trailer, new_tree_id(), created(images).1),
        created(images).1.len() == images.len(),
        forall|i: int| 0 <= i < images.len() ==>
            shows_image(created(images).0.objects, #[trigger] created(images).1[i], new_tree_id(), images[i]),
{
    let st0 = new_document_state();
    assert(st0.objects.dom() =~= set![new_catalog_id()]);
    assert(numbered_below(st0.objects, st0.max_id));
    lemma_add_pages_fresh(st0, images, new_tree_id());
    let (added, pages, _) = add_pages(st0, images, new_tree_id());
    let (done, kids, _) = created(images);
    lemma_name_bytes();
    assert(!added.objects.contains_key(new_tree_id())) by {
        if added.objects.contains_key(new_tree_id()) {
            assert(!st0.objects.contains_key(new_tree_id()));
        }
    }
    assert(st0.objects.contains_key(new_catalog_id()));
    assert(done.objects.dom() =~= added.objects.dom().insert(new_tree_id()));
    assert forall|i: int| 0 <= i < kids.len() implies is_page_leaf(done.objects, #[trigger] kids[i]) by {
        let page = kids[i];
        let image = ((page.0 - 2) as u32, 0u16);
        let contents = ((page.0 - 1) as u32, 0u16);
        lemma_page_value_countless(new_tree_id(), contents, image, images[i].width, images[i].height, images[i].orientation);
        assert(page != new_tree_id());
    }
    assert(added.objects.contains_key(new_catalog_id()));
    assert(done.objects[new_catalog_id()] == catalog_value(new_tree_id()));
    assert forall|i: int| 0 <= i < images.len() implies
        shows_image(done.objects, #[trigger] kids[i], new_tree_id(), images[i]) by {
        assert(shows_image(added.objects, pages[i], new_tree_id(), images[i]));
        assert(kids[i].0 >= 5);
    }
}

/// A dictionary stored under `id` is what `id` resolves to.
proof fn lemma_stored_resolves(objects: ObjectMap, id: ObjectId)
    requires
        stored_dictionary(objects, id) is Some,
    ensures
        resolve(objects, id) == Some(id),
        resolved_dictionary(objects, id) == Some((id, stored_dictionary(objects, id)->Some_0)),
{
}

/// Inserting the pages of images into a page tree of one level, whose kids
/// are distinct and refer to the root, which has no parent, and whose
/// objects are all numbered at most its `max_id`, keeps it a page tree of one
/// level: the new pages, one for each image and each drawing it, stand among
/// the kids before page `start` (clamped between the first page and one past
/// the last: a start of 0 or 1 puts them first, a start past the last page
/// puts them last).
#[verifier::rlimit(40)]
pub proof fn law_inserted_page_tree(st: DocState, images: Seq<ImageData>, start: u32, root: ObjectId, kids: Seq<ObjectId>)
    requires
        flat_page_tree(st.objects, st.trailer, root, kids),
        pdf_pages(st.objects, st.trailer) == numbered(kids),
        distinct(kids),
        forall|i: int| 0 <= i < kids.len() ==>
            reference_under(#[trigger] stored_dictionary(st.objects, kids[i])->Some_0, name("Parent")) == Some(root),
        stored_dictionary(st.objects, root) matches Some(rd) && !rd.contains_key(name("Parent")),
        numbered_below(st.objects, st.max_id),
        insertion_fits(st, images, start),
        kids.len() + images.len() < u32::MAX,
        inserted(st, images, start).1 is Ok,
    ensures
        ({
            let at = insertion_start(kids.len() as u32, start) - 1;
            let new = add_pages(st, images, root).1;
            let after = inserted(st, images, start).0;
            &&& new.len() == images.len()
            &&& flat_page_tree(after.objects, after.trailer, root, kids.take(at) + new + kids.skip(at))
            &&& forall|i: int| 0 <= i < images.len() ==> shows_image(after.objects, #[trigger] new[i], root, images[i])
            &&& start <= 1 ==> kids.take(at) + new + kids.skip(at) == new + kids
            &&& start > kids.len() ==> kids.take(at) + new + kids.skip(at) == kids + new
        }),
{
    let at = insertion_start(kids.len() as u32, start) - 1;
    let new_pages = add_pages(st, images, root).1;
    if start <= 1 {
        assert(kids.take(at) + new_pages + kids.skip(at) =~= new_pages + kids);
    }
    if start > kids.len() {
        assert(kids.take(at) + new_pages + kids.skip(at) =~= kids + new_pages);
    }
    let catalog = reference_under(st.trailer, name("Root"))->Some_0;
    let cd = stored_dictionary(st.objects, catalog)->Some_0;
    let rd = stored_dictionary(st.objects, root)->Some_0;
    lemma_stored_resolves(st.objects, catalog);
    lemma_stored_resolves(st.objects, root);
    lemma_name_bytes();
    if images.len() == 0 {
        reveal(add_pages);
        assert(kids.take(at) + Seq::<ObjectId>::empty() + kids.skip(at) =~= kids);
    } else {
        assert(page_tree_root(st) == Ok::<ObjectId, crate::error::PdfError>(root));
        lemma_flat_place(st, start, root, kids);
        assert(insertion_place(st, root, start).0 == root);
        lemma_add_pages_fresh(st, images, root);
        let (added, new, _) = add_pages(st, images, root);
        assert(st.objects.contains_key(root));
        assert(stored_dictionary(added.objects, root) == Some(rd));
        lemma_stored_resolves(added.objects, root);
        let page_count = pdf_pages(st.objects, st.trailer).len() as u32;
        assert(page_count == kids.len());
        assert(reference_under(rd, name("Parent")) is None);
        let all = kids.take(at) + new + kids.skip(at);
        assert(spliced(references(kids), at, references(new)) =~= references(all));
        let after = inserted(st, images, start).0;
        let rd2 = after.objects[root]->Dictionary_0;
        assert(rd2.contains_key(name("Kids")) && rd2[name("Kids")] == PdfValue::Array(references(all)));
        assert(st.objects.contains_key(catalog));
        assert(stored_dictionary(after.objects, catalog) is Some);
        assert(reference_under(stored_dictionary(after.objects, catalog)->Some_0, name("Pages")) == Some(root));
        assert forall|i: int| 0 <= i < all.len() implies is_page_leaf(after.objects, #[trigger] all[i]) by {
            if at <= i < at + new.len() {
                let page = new[i - at];
                assert(all[i] == page);
                let image = ((page.0 - 2) as u32, 0u16);
                let contents = ((page.0 - 1) as u32, 0u16);
                lemma_page_value_countless(root, contents, image, images[i - at].width, images[i - at].height, images[i - at].orientation);
                assert(shows_image(added.objects, page, root, images[i - at]));
                assert(page != root);
            } else {
                let k = if i < at { i } else { i - new.len() };
                assert(all[i] == kids[k]);
                assert(is_page_leaf(st.objects, kids[k]));
                assert(st.objects.contains_key(kids[k]));
            }
        }
        assert(after.objects.dom() =~= added.objects.dom());
        assert forall|i: int| 0 <= i < images.len() implies shows_image(after.objects, #[trigger] new[i], root, images[i]) by {
            assert(shows_image(added.objects, new[i], root, images[i]));
            assert(new[i].0 > st.max_id);
        }
    }
}

/// No reference to `id` among `refs`: no first position.
proof fn lemma_first_position_absent(refs: Seq<Option<ObjectId>>, id: ObjectId)
    requires
        forall|j: int| 0 <= j < refs.len() ==> refs[j] != Some(id),
    ensures
        first_position(refs, id) is None,
    decreases refs.len(),
{
    if refs.len() > 0 {
        lemma_first_position_absent(refs.drop_last(), id);
    }
}

/// Among distinct references, the first one to `kids[i]` is at `i`.
proof fn lemma_first_position_distinct(kids: Seq<ObjectId>, i: int)
    requires
        distinct(kids),
        0 <= i < kids.len(),
    ensures
        first_position(references_in(references(kids)), kids[i]) == Some(i),
    decreases kids.len(),
{
    let refs = references_in(references(kids));
    let shorter = kids.drop_last();
    assert(references_in(references(shorter)) =~= refs.drop_last());
    if i < kids.len() - 1 {
        lemma_first_position_distinct(shorter, i);
    } else {
        assert forall|j: int| 0 <= j < refs.drop_last().len() implies refs.drop_last()[j] != Some(kids[i]) by {
            assert(refs.drop_last()[j] == Some(kids[j]));
        }
        lemma_first_position_absent(refs.drop_last(), kids[i]);
    }
}

/// In a page tree of one level whose kids are distinct and refer to the root,
/// the new pages go into the root's `Kids`, at the position of page `start`.
proof fn lemma_flat_place(st: DocState, start: u32, root: ObjectId, kids: Seq<ObjectId>)
    requires
        flat_page_tree(st.objects, st.trailer, root, kids),
        pdf_pages(st.objects, st.trailer) == numbered(kids),
        distinct(kids),
        forall|i: int| 0 <= i < kids.len() ==>
            reference_under(#[trigger] stored_dictionary(st.objects, kids[i])->Some_0, name("Parent")) == Some(root),
    ensures
        ({
            let at = insertion_start(kids.len() as u32, start) - 1;
            let before = if at < kids.len() { Some(kids[at]) } else { None::<ObjectId> };
            &&& insertion_place(st, root, start) == (root, before)
            &&& kid_slot(references(kids), before) == at
        }),
{
    let at = insertion_start(kids.len() as u32, start) - 1;
    if at < kids.len() {
        lemma_numbered_lookup(kids, (at + 1) as u32);
        assert(is_page_leaf(st.objects, kids[at]));
        lemma_stored_resolves(st.objects, kids[at]);
        assert(reference_under(stored_dictionary(st.objects, kids[at])->Some_0, name("Parent")) == Some(root));
        lemma_first_position_distinct(kids, at);
    }
}

/// Among distinct references, the last one to `kids[i]` is at `i`.
proof fn lemma_last_position_distinct(kids: Seq<ObjectId>, i: int)
    requires
        distinct(kids),
        0 <= i < kids.len(),
    ensures
        last_position(references_in(references(kids)), kids[i]) == Some(i),
    decreases kids.len(),
{
    let refs = references_in(references(kids));
    if i < kids.len() - 1 {
        let shorter = kids.drop_last();
        assert(references_in(references(shorter)) =~= refs.drop_last());
        lemma_last_position_distinct(shorter, i);
        assert(refs.last() != Some(kids[i]));
    }
}

/// Swapping two pages of a page tree of one level, whose kids are distinct
/// and each refers to the root as its parent, swaps the two kids and changes
/// nothing else (so every `Parent` and the root's `Count` stay right, and the
/// kids stay distinct); swapping a page with itself changes nothing.
pub proof fn law_swapped_page_tree(st: DocState, a: u32, b: u32, root: ObjectId, kids: Seq<ObjectId>)
    requires
        flat_page_tree(st.objects, st.trailer, root, kids),
        pdf_pages(st.objects, st.trailer) == numbered(kids),
        distinct(kids),
        forall|i: int| 0 <= i < kids.len() ==>
            reference_under(#[trigger] stored_dictionary(st.objects, kids[i])->Some_0, name("Parent")) == Some(root),
        1 <= a <= kids.len(),
        1 <= b <= kids.len(),
    ensures
        ({
            let exchanged = kids.update(a - 1, kids[b - 1]).update(b - 1, kids[a - 1]);
            let rd = stored_dictionary(st.objects, root)->Some_0;
            &&& swapped(st, a, b).1 is Ok
            &&& swapped(st, a, b).0 == (DocState {
                objects: st.objects.insert(root, PdfValue::Dictionary(rd.insert(name("Kids"), PdfValue::Array(references(exchanged))))),
                ..st
            })
            &&& flat_page_tree(swapped(st, a, b).0.objects, st.trailer, root, exchanged)
            &&& distinct(exchanged)
            &&& forall|i: int| 0 <= i < exchanged.len() ==>
                reference_under(#[trigger] stored_dictionary(swapped(st, a, b).0.objects, exchanged[i])->Some_0, name("Parent")) == Some(root)
        }),
{
    let exchanged = kids.update(a - 1, kids[b - 1]).update(b - 1, kids[a - 1]);
    let rd = stored_dictionary(st.objects, root)->Some_0;
    let catalog = reference_under(st.trailer, name("Root"))->Some_0;
    lemma_name_bytes();
    lemma_stored_resolves(st.objects, root);
    lemma_stored_resolves(st.objects, catalog);
    let items = references(kids);
    let new_objects = st.objects.insert(root, PdfValue::Dictionary(rd.insert(name("Kids"), PdfValue::Array(references(exchanged)))));
    if a == b {
        assert(exchanged =~= kids);
        assert(rd.insert(name("Kids"), PdfValue::Array(references(exchanged))) =~= rd);
        assert(new_objects =~= st.objects);
    } else {
        lemma_numbered_lookup(kids, a);
        lemma_numbered_lookup(kids, b);
        let ka = kids[a - 1];
        let kb = kids[b - 1];
        assert(is_page_leaf(st.objects, ka));
        assert(is_page_leaf(st.objects, kb));
        lemma_stored_resolves(st.objects, ka);
        lemma_stored_resolves(st.objects, kb);
        assert(reference_under(stored_dictionary(st.objects, kids[a - 1])->Some_0, name("Parent")) == Some(root));
        assert(reference_under(stored_dictionary(st.objects, kids[b - 1])->Some_0, name("Parent")) == Some(root));
        assert(kids_of(rd) == Some(items));
        lemma_last_position_distinct(kids, a - 1);
        lemma_last_position_distinct(kids, b - 1);
        assert(items.update(a - 1, items[b - 1]).update(b - 1, items[a - 1]) =~= references(exchanged));
    }
    assert(new_objects.dom() =~= st.objects.dom());
    assert forall|i: int| 0 <= i < exchanged.len() implies is_page_leaf(new_objects, #[trigger] exchanged[i]) by {
        let k = if i == b - 1 { a - 1 } else if i == a - 1 { b - 1 } else { i };
        assert(exchanged[i] == kids[k]);
        assert(is_page_leaf(st.objects, kids[k]));
    }
    assert(st.objects.contains_key(catalog));
    assert forall|i: int, j: int| 0 <= i < j < exchanged.len() implies exchanged[i] != exchanged[j] by {
        let ki = if i == b - 1 { a - 1 } else if i == a - 1 { b - 1 } else { i };
        let kj = if j == b - 1 { a - 1 } else if j == a - 1 { b - 1 } else { j };
        assert(exchanged[i] == kids[ki] && exchanged[j] == kids[kj]);
        assert(ki != kj);
        if ki < kj { assert(kids[ki] != kids[kj]); } else { assert(kids[kj] != kids[ki]); }
    }
    assert forall|i: int| 0 <= i < exchanged.len() implies
        reference_under(#[trigger] stored_dictionary(new_objects, exchanged[i])->Some_0, name("Parent")) == Some(root) by {
        let k = if i == b - 1 { a - 1 } else if i == a - 1 { b - 1 } else { i };
        assert(exchanged[i] == kids[k]);
        assert(reference_under(stored_dictionary(st.objects, kids[k])->Some_0, name("Parent")) == Some(root));
        if kids[k] == root {
            assert(name("Kids") != name("Parent"));
            assert(stored_dictionary(new_objects, root)->Some_0 == rd.insert(name("Kids"), PdfValue::Array(references(exchanged))));
        }
    }
}

/// Swapping the same two pages twice gives back the document (within a page
/// tree of one level whose kids are distinct and refer to the root).
pub proof fn law_swap_twice(st: DocState, a: u32, b: u32, root: ObjectId, kids: Seq<ObjectId>)
    requires
        flat_page_tree(st.objects, st.trailer, root, kids),
        pdf_pages(st.objects, st.trailer) == numbered(kids),
        distinct(kids),
        forall|i: int| 0 <= i < kids.len() ==>
            reference_under(#[trigger] stored_dictionary(st.objects, kids[i])->Some_0, name("Parent")) == Some(root),
        1 <= a <= kids.len(),
        1 <= b <= kids.len(),
        pages_follow_tree(swapped(st, a, b).0.objects, swapped(st, a, b).0.trailer),
    ensures
        swapped(swapped(st, a, b).0, a, b) == (st, Ok::<(), crate::error::PdfError>(())),
{
    law_swapped_page_tree(st, a, b, root, kids);
    let once = swapped(st, a, b).0;
    let exchanged = kids.update(a - 1, kids[b - 1]).update(b - 1, kids[a - 1]);
    assert(pdf_pages(once.objects, once.trailer) == numbered(exchanged));
    law_swapped_page_tree(once, a, b, root, exchanged);
    let back = exchanged.update(a - 1, exchanged[b - 1]).update(b - 1, exchanged[a - 1]);
    assert(back =~= kids);
    let rd = stored_dictionary(st.objects, root)->Some_0;
    let rd1 = stored_dictionary(once.objects, root)->Some_0;
    lemma_name_bytes();
    assert(rd1 == rd.insert(name("Kids"), PdfValue::Array(references(exchanged))));
    assert(rd1.insert(name("Kids"), PdfValue::Array(references(back))) =~= rd);
    assert(once.objects.insert(root, PdfValue::Dictionary(rd)) =~= st.objects);
}

/// The order of the two page numbers of a swap does not matter (within a
/// page tree of one level whose kids are distinct and refer to the root).
pub proof fn law_swap_order(st: DocState, a: u32, b: u32, root: ObjectId, kids: Seq<ObjectId>)
    requires
        flat_page_tree(st.objects, st.trailer, root, kids),
        pdf_pages(st.objects, st.trailer) == numbered(kids),
        distinct(kids),
        forall|i: int| 0 <= i < kids.len() ==>
            reference_under(#[trigger] stored_dictionary(st.objects, kids[i])->Some_0, name("Parent")) == Some(root),
        1 <= a <= kids.len(),
        1 <= b <= kids.len(),
    ensures
        swapped(st, a, b) == swapped(st, b, a),
{
    law_swapped_page_tree(st, a, b, root, kids);
    law_swapped_page_tree(st, b, a, root, kids);
    assert(kids.update(a - 1, kids[b - 1]).update(b - 1, kids[a - 1]) =~= kids.update(b - 1, kids[a - 1]).update(a - 1, kids[b - 1]));
}

/// From a page tree of one level that `plainly_deletable` describes, with at
/// least two pages, removing a page succeeds: `delete_pages` returns, and
/// the document is what it leaves. (What that is, a page tree of one level
/// of the other kids with the root's `Count` one less, `remove_page` states.)
pub proof fn law_removed_page(st: DocState, number: u32, root: ObjectId, kids: Seq<ObjectId>)
    requires
        plainly_deletable(st.objects, st.trailer, root, kids, number),
        pdf_pages(st.objects, st.trailer) == numbered(kids),
        kids.len() >= 2,
    ensures
        deletion_returns(st.objects, st.trailer, number, 1),
        removed(st, number).1 is Ok,
        removed(st, number).0 == (DocState {
            objects: page_deletion(st.objects, st.trailer, number).0,
            trailer: page_deletion(st.objects, st.trailer, number).1,
            ..st
        }),
{
    lemma_numbered_lookup(kids, number);
    let page = kids[number - 1];
    assert(is_page_leaf(st.objects, page));
    let rest = st.objects.remove(page);
    assert(reference_under(stored_dictionary(st.objects, kids[number - 1])->Some_0, name("Parent")) == Some(root));
    assert(page != root) by {
        if page == root {
            assert(kids.contains(root));
        }
    }
    assert(rest.contains_key(root) && rest[root] == st.objects[root]);
    reveal_with_fuel(parent_walk_returns, 2);
    assert(parent_walk_returns(rest, Some(root), 1));
}

/// Removing the page that inserting one image put before page `start` gives
/// back the page tree of one level the document had: the document after the
/// insertion is one from which that page is deleted plainly (so
/// `remove_page` succeeds on it and leaves `kids`, as its contract states).
pub proof fn law_remove_inserted(st: DocState, images: Seq<ImageData>, start: u32, root: ObjectId, kids: Seq<ObjectId>)
    requires
        flat_page_tree(st.objects, st.trailer, root, kids),
        pdf_pages(st.objects, st.trailer) == numbered(kids),
        distinct(kids),
        !kids.contains(root),
        reference_under(st.trailer, name("Root")) matches Some(catalog) && !kids.contains(catalog),
        forall|i: int| 0 <= i < kids.len() ==>
            reference_under(#[trigger] stored_dictionary(st.objects, kids[i])->Some_0, name("Parent")) == Some(root),
        stored_dictionary(st.objects, root) matches Some(rd) && !rd.contains_key(name("Parent")),
        kids.len() >= 1,
        numbered_below(st.objects, st.max_id),
        insertion_fits(st, images, start),
        images.len() == 1,
        kids.len() + 1 < u32::MAX,
        inserted(st, images, start).1 is Ok,
    ensures
        ({
            let at = insertion_start(kids.len() as u32, start) - 1;
            let new = add_pages(st, images, root).1;
            let after = inserted(st, images, start).0;
            let all = kids.take(at) + new + kids.skip(at);
            &&& plainly_deletable(after.objects, after.trailer, root, all, (at + 1) as u32)
            &&& all.len() >= 2
            &&& all.remove(at) == kids
        }),
{
    law_inserted_page_tree(st, images, start, root, kids);
    lemma_name_bytes();
    let at = insertion_start(kids.len() as u32, start) - 1;
    let catalog = reference_under(st.trailer, name("Root"))->Some_0;
    let rd = stored_dictionary(st.objects, root)->Some_0;
    lemma_stored_resolves(st.objects, root);
    assert(page_tree_root(st) == Ok::<ObjectId, crate::error::PdfError>(root)) by {
        lemma_stored_resolves(st.objects, catalog);
    }
    lemma_flat_place(st, start, root, kids);
    assert(insertion_place(st, root, start).0 == root);
    assert(add_pages(st, images, root).2);
    lemma_add_pages_fresh(st, images, root);
    let (added, new, _) = add_pages(st, images, root);
    let after = inserted(st, images, start).0;
    let all = kids.take(at) + new + kids.skip(at);
    let page = new[0];
    assert(all[at] == page);
    assert(all.remove(at) =~= kids);
    assert(page.0 > st.max_id);
    assert(stored_dictionary(added.objects, root) == Some(rd));
    lemma_stored_resolves(added.objects, root);
    let count = count_entry(added.objects, root);
    let before = insertion_place(st, root, start).1;
    let d1 = with_array(rd, name("Kids"),
        |items: Seq<PdfValue>| spliced(items, kid_slot(items, before), references(new)));
    let d2 = d1.insert(name("Count"), PdfValue::Integer((count + images.len()) as i64));
    assert(after.objects == added.objects.insert(root, PdfValue::Dictionary(d2)));
    assert(!d2.contains_key(name("Parent")));
    assert(d2[name("Count")] == PdfValue::Integer((count + 1) as i64));
    assert(after.trailer == st.trailer);
    assert forall|k: ObjectId| #[trigger] kids.contains(k) implies st.objects.contains_key(k) && k.0 <= st.max_id && k != page by {
        let i = choose|i: int| 0 <= i < kids.len() && kids[i] == k;
        assert(is_page_leaf(st.objects, kids[i]));
    }
    assert(st.objects.contains_key(root));
    assert(st.objects.contains_key(catalog));
    assert forall|i: int| 0 <= i < all.len() implies #[trigger] all[i] == (if i < at { kids[i] } else if i == at { page } else { kids[i - 1] }) by {}
    assert forall|i: int, j: int| 0 <= i < j < all.len() implies all[i] != all[j] by {
        if i != at && j != at {
            let ki = if i < at { i } else { i - 1 };
            let kj = if j < at { j } else { j - 1 };
            assert(ki < kj);
            assert(kids[ki] != kids[kj]);
        } else if i == at {
            let kj = j - 1;
            assert(kids.contains(kids[kj]));
        } else {
            assert(kids.contains(kids[i]));
        }
    }
    assert(!all.contains(root)) by {
        if all.contains(root) {
            let i = choose|i: int| 0 <= i < all.len() && all[i] == root;
            if i < at { assert(kids.contains(kids[i])); } else if i > at { assert(kids.contains(kids[i - 1])); }
        }
    }
    assert(!all.contains(catalog)) by {
        if all.contains(catalog) {
            let i = choose|i: int| 0 <= i < all.len() && all[i] == catalog;
            if i < at { assert(kids.contains(kids[i])); } else if i > at { assert(kids.contains(kids[i - 1])); }
        }
    }
    assert forall|i: int| 0 <= i < all.len() implies
        reference_under(#[trigger] stored_dictionary(after.objects, all[i])->Some_0, name("Parent")) == Some(root) by {
        if i == at {
            let image = ((page.0 - 2) as u32, 0u16);
            let contents = ((page.0 - 1) as u32, 0u16);
            assert(shows_image(after.objects, new[0], root, images[0]));
            lemma_page_value_countless(root, contents, image, images[0].width, images[0].height, images[0].orientation);
        } else {
            let k = if i < at { i } else { i - 1 };
            assert(all[i] == kids[k]);
            assert(kids.contains(kids[k]));
            assert(reference_under(stored_dictionary(st.objects, kids[k])->Some_0, name("Parent")) == Some(root));
            assert(after.objects[kids[k]] == st.objects[kids[k]]);
        }
    }
}

/// Adding the pages of `a + b` is adding those of `a`, then those of `b`.
proof fn lemma_add_pages_append(st: DocState, a: Seq<ImageData>, b: Seq<ImageData>, parent: ObjectId)
    requires
        add_pages(st, a, parent).2,
    ensures
        add_pages(st, a + b, parent) == ({
            let (mid, first, _) = add_pages(st, a, parent);
            let (end, second, complete) = add_pages(mid, b, parent);
            (end, first + second, complete)
        }),
    decreases b.len(),
{
    reveal(add_pages);
    let (mid, first, _) = add_pages(st, a, parent);
    if b.len() == 0 {
        assert(a + b =~= a);
        assert(first + Seq::<ObjectId>::empty() =~= first);
    } else {
        lemma_add_pages_append(st, a, b.drop_last(), parent);
        assert((a + b).drop_last() =~= a + b.drop_last());
        assert((a + b).last() == b.last());
        let (_, second, _) = add_pages(mid, b.drop_last(), parent);
        match add_page(add_pages(mid, b.drop_last(), parent).0, b.last(), parent) {
            Some((_, page)) => {
                assert((first + second).push(page) =~= first + second.push(page));
            },
            None => {},
        }
    }
}

/// Adding pages beside an object numbered at most `max_id` adds the same
/// pages as without it, and leaves it in place.
proof fn lemma_add_pages_beside(st: DocState, imgs: Seq<ImageData>, parent: ObjectId, k: ObjectId, v: PdfValue)
    requires
        k.0 <= st.max_id,
        st.max_id + 3 * imgs.len() <= u32::MAX,
    ensures
        ({
            let (a1, p1, c1) = add_pages(st, imgs, parent);
            let (a2, p2, c2) = add_pages(DocState { objects: st.objects.insert(k, v), ..st }, imgs, parent);
            &&& a2 == (DocState { objects: a1.objects.insert(k, v), ..a1 })
            &&& p2 == p1
            &&& c2 == c1
            &&& st.max_id <= a1.max_id <= st.max_id + 3 * imgs.len()
        }),
    decreases imgs.len(),
{
    reveal(add_pages);
    if imgs.len() > 0 {
        lemma_add_pages_beside(st, imgs.drop_last(), parent, k, v);
        let (b1, _, c1) = add_pages(st, imgs.drop_last(), parent);
        if c1 {
            reveal(add_page);
            let image = id_above(b1.max_id, 1);
            let contents = id_above(b1.max_id, 2);
            let page = id_above(b1.max_id, 3);
            let img = imgs.last();
            if let Some(xobject) = image_xobject(img.data@) {
                let o1 = b1.objects.insert(image, xobject)
                    .insert(contents, content_value(img.width, img.height, image_name(image)))
                    .insert(page, page_value(parent, contents, image, img.width, img.height, img.orientation));
                let o2 = b1.objects.insert(k, v).insert(image, xobject)
                    .insert(contents, content_value(img.width, img.height, image_name(image)))
                    .insert(page, page_value(parent, contents, image, img.width, img.height, img.orientation));
                assert(o2 =~= o1.insert(k, v));
            }
        }
    }
}

/// Inserting the pages of more images after the last page of a document
/// built of images gives the document built of all the images.
pub proof fn law_insert_into_created(first: Seq<ImageData>, more: Seq<ImageData>)
    requires
        (first.len() + more.len()) * 3 + 2 <= u32::MAX,
        created(first + more).2,
        pages_follow_tree(created(first).0.objects, created(first).0.trailer),
    ensures
        created(first).2,
        inserted(created(first).0, more, (first.len() + 1) as u32) == (created(first + more).0, Ok::<(), crate::error::PdfError>(())),
{
    let st0 = new_document_state();
    let root = new_tree_id();
    assert((first + more).take(first.len() as int) =~= first);
    if !add_pages(st0, first, root).2 {
        lemma_add_pages_stays_incomplete(st0, first + more, first.len() as int, root);
    }
    law_created_page_tree(first);
    lemma_name_bytes();
    let st1 = created(first).0;
    let (sa, pa, _) = add_pages(st0, first, root);
    assert(st0.objects.dom() =~= set![new_catalog_id()]);
    assert(numbered_below(st0.objects, st0.max_id));
    lemma_add_pages_fresh(st0, first, root);
    if more.len() == 0 {
        assert(first + more =~= first);
        return;
    }
    lemma_add_pages_append(st0, first, more, root);
    let tree_a = page_tree_value(pa, first.len() as int);
    lemma_add_pages_beside(sa, more, root, root, tree_a);
    let (e, pb, _) = add_pages(sa, more, root);
    assert(pa + pb == created(first + more).1);
    // The page tree root, reached through the catalog.
    assert(st1.trailer == st0.trailer);
    assert(st0.objects.contains_key(new_catalog_id()));
    assert(st1.objects[new_catalog_id()] == catalog_value(root));
    lemma_stored_resolves(st1.objects, new_catalog_id());
    assert(page_tree_root(st1) == Ok::<ObjectId, crate::error::PdfError>(root));
    let added = add_pages(st1, more, root).0;
    assert(added == (DocState { objects: e.objects.insert(root, tree_a), ..e }));
    lemma_stored_resolves(added.objects, root);
    let da = tree_a->Dictionary_0;
    assert(resolved_dictionary(added.objects, root) == Some((root, da)));
    // The page count, and where the new kids go.
    assert(pdf_pages(st1.objects, st1.trailer) == numbered(pa));
    let page_count = pdf_pages(st1.objects, st1.trailer).len() as u32;
    assert(page_count == first.len());
    let items = references(pa);
    assert(insertion_place(st1, root, (first.len() + 1) as u32) == (root, None::<ObjectId>));
    assert(kid_slot(items, None) == pa.len());
    assert(spliced(items, pa.len() as int, references(pb)) =~= references(pa + pb));
    assert(count_entry(added.objects, root) == first.len());
    let d1 = with_array(da, name("Kids"),
        |items: Seq<PdfValue>| spliced(items, kid_slot(items, None), references(pb)));
    let d2 = d1.insert(name("Count"), PdfValue::Integer((first.len() + more.len()) as i64));
    assert(d2 =~= page_tree_value(pa + pb, (first + more).len() as int)->Dictionary_0);
    assert(reference_under(da, name("Parent")) is None);
    assert(added.objects.insert(root, PdfValue::Dictionary(d2)) =~= created(first + more).0.objects);
}

/// Raising `Count`s changes no shape of the page tree, no catalog's `Pages`,
/// nothing but objects stored as dictionaries, and neither the trailer, nor
/// `max_id`, nor the version.
proof fn lemma_raised_keeps_shape(st: DocState, next: Option<ObjectId>, m: int, fuel: nat)
    ensures
        ({
            let after = raised_above(st, next, m, fuel);
            &&& after.trailer == st.trailer && after.max_id == st.max_id && after.version == st.version
            &&& after.objects.dom() == st.objects.dom()
            &&& forall|k: ObjectId| #[trigger] same_shape(st.objects, after.objects, k)
            &&& forall|k: ObjectId| #[trigger] stored_dictionary(st.objects, k) is Some ==>
                stored_dictionary(after.objects, k) is Some
                && reference_under(stored_dictionary(after.objects, k)->Some_0, name("Pages"))
                    == reference_under(stored_dictionary(st.objects, k)->Some_0, name("Pages"))
            &&& forall|k: ObjectId| st.objects.contains_key(k) && (countless())(#[trigger] st.objects[k]) ==>
                after.objects[k] == st.objects[k]
        }),
    decreases fuel,
{
    lemma_name_bytes();
    if fuel > 0 {
        if let Some(id) = next {
            if let Some(d) = stored_dictionary(st.objects, id) {
                let raised = match entry_integer(d, name("Count")) {
                    Some(c) => if c + m <= i64::MAX {
                        DocState {
                            objects: st.objects.insert(id, PdfValue::Dictionary(
                                d.insert(name("Count"), PdfValue::Integer((c + m) as i64)))),
                            ..st
                        }
                    } else {
                        st
                    },
                    None => st,
                };
                lemma_raised_keeps_shape(raised, reference_under(d, name("Parent")), m, (fuel - 1) as nat);
                assert(raised.objects.dom() =~= st.objects.dom());
                assert forall|k: ObjectId| #[trigger] same_shape(st.objects, raised.objects, k) by {
                    if k == id && raised != st {
                        let d2 = d.insert(name("Count"), PdfValue::Integer((entry_integer(d, name("Count"))->Some_0 + m) as i64));
                        assert(stored_dictionary(raised.objects, id) == Some(d2));
                        assert(d2.contains_key(name("Type")) == d.contains_key(name("Type")));
                        assert(d2.contains_key(name("Kids")) == d.contains_key(name("Kids")));
                    }
                }
                assert forall|k: ObjectId| #[trigger] same_shape(st.objects, raised_above(st, next, m, fuel).objects, k) by {
                    assert(same_shape(st.objects, raised.objects, k));
                    assert(same_shape(raised.objects, raised_above(raised, reference_under(d, name("Parent")), m, (fuel - 1) as nat).objects, k));
                }
                assert forall|k: ObjectId| st.objects.contains_key(k) && (countless())(#[trigger] st.objects[k]) implies
                    raised.objects[k] == st.objects[k] && (countless())(raised.objects[k]) by {
                }
                assert forall|k: ObjectId| #[trigger] stored_dictionary(st.objects, k) is Some implies
                    stored_dictionary(raised.objects, k) is Some
                    && reference_under(stored_dictionary(raised.objects, k)->Some_0, name("Pages"))
                        == reference_under(stored_dictionary(st.objects, k)->Some_0, name("Pages")) by {
                }
            }
        }
    }
}

/// The first position of a reference, where there is one, holds it, and no
/// earlier position does; where there is none, no position holds it.
proof fn lemma_first_position_props(refs: Seq<Option<ObjectId>>, id: ObjectId)
    ensures
        first_position(refs, id) matches Some(i) ==> 0 <= i < refs.len() && refs[i] == Some(id)
            && forall|j: int| 0 <= j < i ==> refs[j] != Some(id),
        first_position(refs, id) is None ==> forall|j: int| 0 <= j < refs.len() ==> refs[j] != Some(id),
    decreases refs.len(),
{
    if refs.len() > 0 {
        lemma_first_position_props(refs.drop_last(), id);
        assert forall|j: int| 0 <= j < refs.len() - 1 implies refs[j] == refs.drop_last()[j] by {}
    }
}

/// Where the pages go before a page of a page tree of any depth: the page's
/// parent takes them into its kids just before the page, and the pages of
/// the tree are those before, the new pages, then the rest.
proof fn lemma_nested_place(st: DocState, start: u32, root: ObjectId, pages: Seq<ObjectId>)
    requires
        nested_page_tree(st.objects, st.trailer, root, pages),
        pdf_pages(st.objects, st.trailer) == numbered(pages),
        forall|i: int| 0 <= i < pages.len() ==>
            #[trigger] parent_holds(st.objects, root, pages[i]),
    ensures
        ({
            let at = insertion_start(pages.len() as u32, start) - 1;
            let (node, before) = insertion_place(st, root, start);
            &&& at < pages.len() ==> before == Some(pages[at]) && parent_holds(st.objects, root, pages[at])
                && node == reference_under(stored_dictionary(st.objects, pages[at])->Some_0, name("Parent"))->Some_0
            &&& at == pages.len() ==> node == root && before is None
        }),
{
    let at = insertion_start(pages.len() as u32, start) - 1;
    if at < pages.len() {
        lemma_numbered_lookup(pages, (at + 1) as u32);
        assert(parent_holds(st.objects, root, pages[at]));
        lemma_stored_resolves(st.objects, pages[at]);
    }
}

/// The page names as its `Parent` a node that holds it among its kids: the
/// root, or a node below the root.
pub open spec fn parent_holds(objects: ObjectMap, root: ObjectId, page: ObjectId) -> bool {
    &&& stored_dictionary(objects, page) is Some
    &&& reference_under(stored_dictionary(objects, page)->Some_0, name("Parent")) matches Some(parent)
    &&& (parent == root || subtree(objects, root, 255)->Some_0.0.contains(parent))
    &&& node_kids(objects, parent) matches Some(kp) && kp.contains(page)
}

/// Inserting the pages of images into a page tree of any depth (up to 255
/// levels below its root) puts them at page `start`: where every page names
/// as its parent the node that holds it, the catalog stands outside the
/// tree and every object is numbered at most `max_id`, the document after
/// the insertion holds such a page tree whose pages are those before page
/// `start` (clamped between the first page and one past the last), the new
/// pages, each the page of its image under that node, then the rest.
#[verifier::rlimit(100)]
pub proof fn law_inserted_nested(st: DocState, images: Seq<ImageData>, start: u32, root: ObjectId, pages: Seq<ObjectId>)
    requires
        nested_page_tree(st.objects, st.trailer, root, pages),
        pdf_pages(st.objects, st.trailer) == numbered(pages),
        forall|i: int| 0 <= i < pages.len() ==> #[trigger] parent_holds(st.objects, root, pages[i]),
        reference_under(st.trailer, name("Root")) matches Some(catalog) && catalog != root
            && !subtree(st.objects, root, 255)->Some_0.0.contains(catalog),
        numbered_below(st.objects, st.max_id),
        insertion_fits(st, images, start),
        pages.len() + images.len() < u32::MAX,
        inserted(st, images, start).1 is Ok,
    ensures
        ({
            let at = insertion_start(pages.len() as u32, start) - 1;
            let node = insertion_place(st, root, start).0;
            let new = add_pages(st, images, node).1;
            let after = inserted(st, images, start).0;
            &&& new.len() == images.len()
            &&& nested_page_tree(after.objects, after.trailer, root, pages.take(at) + new + pages.skip(at))
            &&& forall|q: ObjectId| subtree(after.objects, root, 255)->Some_0.0.contains(q) ==>
                subtree(st.objects, root, 255)->Some_0.0.contains(q) || new.contains(q)
            &&& forall|j: int| 0 <= j < new.len() ==> (#[trigger] new[j]).0 > st.max_id
            &&& after.trailer == st.trailer
            &&& forall|i: int| 0 <= i < images.len() ==> #[trigger] after.objects[new[i]] == page_value(node,
                ((new[i].0 - 1) as u32, 0u16), ((new[i].0 - 2) as u32, 0u16), images[i].width, images[i].height, images[i].orientation)
        }),
{
    lemma_name_bytes();
    let at = insertion_start(pages.len() as u32, start) - 1;
    let (node, before) = insertion_place(st, root, start);
    lemma_nested_place(st, start, root, pages);
    let catalog = reference_under(st.trailer, name("Root"))->Some_0;
    let (members, _) = subtree(st.objects, root, 255)->Some_0;
    lemma_subtree_facts(st.objects, root, 255);
    assert(page_tree_root(st) == Ok::<ObjectId, crate::error::PdfError>(root)) by {
        lemma_stored_resolves(st.objects, catalog);
    }
    // The node that takes the pages is the root or below it, and is stored.
    assert(node == root || members.contains(node));
    assert(node_kids(st.objects, node) is Some) by {
        if node == root {
        } else {
            assert(!is_page_leaf(st.objects, node) || node_kids(st.objects, node) is Some);
        }
    }
    assert(stored_dictionary(st.objects, node) is Some);
    assert(st.objects.contains_key(node));
    if images.len() == 0 {
        reveal(add_pages);
        assert(pages.take(at) + Seq::<ObjectId>::empty() + pages.skip(at) =~= pages);
        return;
    }
    assert(add_pages(st, images, node).2);
    assert(st.objects.dom().finite());
    lemma_add_pages_fresh(st, images, node);
    let (added, new, _) = add_pages(st, images, node);
    let kn = node_kids(st.objects, node)->Some_0;
    let dn = stored_dictionary(st.objects, node)->Some_0;
    assert(stored_dictionary(added.objects, node) == Some(dn));
    lemma_stored_resolves(added.objects, node);
    let items = dn[name("Kids")]->Array_0;
    let m = images.len() as int;
    let count = count_entry(added.objects, node);
    let slot = kid_slot(items, before);
    let d1 = with_array(dn, name("Kids"), |it: Seq<PdfValue>| spliced(it, kid_slot(it, before), references(new)));
    let d2 = d1.insert(name("Count"), PdfValue::Integer((count + m) as i64));
    let linked = DocState { objects: added.objects.insert(node, PdfValue::Dictionary(d2)), ..added };
    let after = inserted(st, images, start).0;
    assert(after == raised_above(linked, reference_under(dn, name("Parent")), m, linked.objects.dom().len()));
    lemma_raised_keeps_shape(linked, reference_under(dn, name("Parent")), m, linked.objects.dom().len());
    // The kids of the node, after the pages are linked.
    let k2 = kn.take(slot) + new + kn.skip(slot);
    assert(forall|i: int| 0 <= i < items.len() ==> #[trigger] items[i] == PdfValue::Reference(kn[i]));
    assert(kn.len() == items.len());
    if let Some(p) = before {
        lemma_first_position_props(references_in(items), p);
    }
    assert(0 <= slot <= items.len());
    let items2 = spliced(items, slot, references(new));
    assert(items2.len() == k2.len());
    assert forall|i: int| 0 <= i < items2.len() implies #[trigger] items2[i] == PdfValue::Reference(k2[i]) by {
        if i < slot {
            assert(items2[i] == items[i] && k2[i] == kn[i]);
        } else if i < slot + new.len() {
            assert(items2[i] == references(new)[i - slot] && k2[i] == new[i - slot]);
        } else {
            assert(items2[i] == items[i - new.len()] && k2[i] == kn[i - new.len()]);
        }
    }
    assert(d2[name("Kids")] == PdfValue::Array(items2));
    assert(node_kids(linked.objects, node) == Some(k2)) by {
        assert(Seq::new(items2.len(), |i: int| items2[i]->Reference_0) =~= k2);
    }
    assert(forall|j: int| 0 <= j < new.len() ==> #[trigger] new[j] == ((st.max_id + 3 * (j + 1)) as u32, 0u16));
    // Objects of the tree keep their shape; the new pages are pages.
    assert forall|k: ObjectId| members.contains(k) || k == root || k == catalog implies
        st.objects.contains_key(k) && k.0 <= st.max_id by {
        if members.contains(k) {
            assert(is_page_leaf(st.objects, k) || node_kids(st.objects, k) is Some);
        }
    }
    assert forall|k: ObjectId| (k == root || members.contains(k)) && k != node implies
        #[trigger] same_shape(st.objects, after.objects, k) by {
        assert(st.objects.contains_key(k));
        assert(added.objects[k] == st.objects[k]);
        assert(linked.objects[k] == st.objects[k]);
        assert(same_shape(linked.objects, after.objects, k));
    }
    assert forall|j: int| 0 <= j < new.len() implies is_page_leaf(after.objects, #[trigger] new[j]) by {
        let page = new[j];
        let image = ((page.0 - 2) as u32, 0u16);
        let contents = ((page.0 - 1) as u32, 0u16);
        assert(shows_image(added.objects, page, node, images[j]));
        lemma_page_value_countless(node, contents, image, images[j].width, images[j].height, images[j].orientation);
        assert(page != node);
        assert(is_page_leaf(linked.objects, page));
        assert(same_shape(linked.objects, after.objects, page));
    }
    assert forall|j: int| 0 <= j < new.len() implies !members.contains(#[trigger] new[j]) && new[j] != root by {}
    assert(node_kids(after.objects, node) == Some(k2)) by {
        assert(same_shape(linked.objects, after.objects, node));
    }
    let new_pages = pages.take(at) + new + pages.skip(at);
    let new_members;
    if at < pages.len() {
        let p = pages[at];
        assert(parent_holds(st.objects, root, p));
        assert(kn.contains(p));
        lemma_first_position_props(references_in(items), p);
        lemma_index_in(kn, p);
        assert(references_in(items)[index_in(kn, p)] == Some(p));
        assert forall|j: int| 0 <= j < index_in(kn, p) implies references_in(items)[j] != Some(p) by {}
        assert(first_position(references_in(items), p) == Some(index_in(kn, p))) by {
            if first_position(references_in(items), p) is None {
                assert(references_in(items)[index_in(kn, p)] == Some(p));
            } else {
                let f = first_position(references_in(items), p)->Some_0;
                if f < index_in(kn, p) {
                    assert(kn[f] == p);
                }
            }
        }
        assert(slot == index_in(kn, p));
        assert(k2 == splice_before(kn, p, new));
        assert(pages.contains(p));
        assert(is_page_leaf(st.objects, p));
        assert(spliced_node(st.objects, after.objects, node, p, new));
        lemma_subtree_splice(st.objects, after.objects, root, 255, node, p, new);
        lemma_index_at(pages, p, at);
        new_members = splice_before(members, p, new);
        lemma_index_in(members, p);
        assert(new_pages == splice_before(pages, p, new));
    } else {
        assert(at == pages.len());
        assert(node == root);
        assert(slot == items.len());
        assert(k2 =~= kn + new);
        assert(same_shape(st.objects, after.objects, root) || node == root);
        lemma_kids_concat(after.objects, kn, new, 255);
        assert forall|k: ObjectId| kids_subtrees(st.objects, kn, 255)->Some_0.0.contains(k) implies
            same_shape(st.objects, after.objects, k) by {
            assert(members.contains(k));
        }
        lemma_kids_frame(st.objects, after.objects, kn, 255);
        lemma_kids_leaves(after.objects, new, 255);
        assert(new_pages =~= pages + new);
        new_members = members + new;
    }
    assert(subtree(after.objects, root, 255) == Some((new_members, new_pages)));
    assert forall|q: ObjectId| new_members.contains(q) implies members.contains(q) || new.contains(q) by {
        let c = if at < pages.len() { index_in(members, pages[at]) } else { members.len() as int };
        if at < pages.len() {
            lemma_index_in(members, pages[at]);
        }
        assert(new_members =~= members.take(c) + new + members.skip(c));
        let i = choose|i: int| 0 <= i < new_members.len() && new_members[i] == q;
        if i < c {
            assert(members[i] == q);
        } else if i < c + new.len() {
            assert(new[i - c] == q);
        } else {
            assert(members[i - new.len()] == q);
        }
    }
    // The rest of a page tree of any depth.
    assert(after.trailer == st.trailer);
    assert(stored_dictionary(st.objects, catalog) is Some);
    assert(catalog != node);
    assert(added.objects[catalog] == st.objects[catalog]);
    assert(stored_dictionary(linked.objects, catalog) == stored_dictionary(st.objects, catalog));
    assert(stored_dictionary(after.objects, catalog) is Some);
    assert(after.objects.dom() == added.objects.dom()) by {
        assert(linked.objects.dom() =~= added.objects.dom());
    }
    lemma_contains(members, new, root);
    assert(new_members.len() == members.len() + new.len());
    assert(!new_members.contains(root)) by {
        if at < pages.len() {
            lemma_contains(members.take(index_in(members, pages[at])), new, root);
            lemma_contains(members.take(index_in(members, pages[at])) + new, members.skip(index_in(members, pages[at])), root);
            assert forall|q: ObjectId| members.take(index_in(members, pages[at])).contains(q) || members.skip(index_in(members, pages[at])).contains(q)
                implies members.contains(q) by {
                if members.take(index_in(members, pages[at])).contains(q) {
                    let i = choose|i: int| 0 <= i < members.take(index_in(members, pages[at])).len() && members.take(index_in(members, pages[at]))[i] == q;
                    assert(members[i] == q);
                } else {
                    let i = choose|i: int| 0 <= i < members.skip(index_in(members, pages[at])).len() && members.skip(index_in(members, pages[at]))[i] == q;
                    assert(members[index_in(members, pages[at]) + i] == q);
                }
            }
        }
    }
    assert(distinct(new_members)) by {
        let c = if at < pages.len() { index_in(members, pages[at]) } else { members.len() as int };
        lemma_index_in(members, pages[0]);
        if at < pages.len() {
            lemma_index_in(members, pages[at]);
        }
        assert(new_members =~= members.take(c) + new + members.skip(c));
        assert forall|i: int, j: int| 0 <= i < j < new_members.len() implies new_members[i] != new_members[j] by {
            let nm = new_members;
            if j < c {
                assert(nm[i] == members[i] && nm[j] == members[j]);
            } else if i >= c + new.len() {
                assert(nm[i] == members[i - new.len()] && nm[j] == members[j - new.len()]);
            } else if c <= i && j < c + new.len() {
                assert(nm[i] == new[i - c] && nm[j] == new[j - c]);
            } else if i < c && j < c + new.len() {
                assert(nm[i] == members[i] && nm[j] == new[j - c]);
                assert(members.contains(nm[i]));
            } else if c <= i && i < c + new.len() {
                assert(nm[i] == new[i - c] && nm[j] == members[j - new.len()]);
                assert(members.contains(nm[j]));
            } else {
                assert(nm[i] == members[i] && nm[j] == members[j - new.len()]);
            }
        }
    }
    assert(new_members.len() <= after.objects.dom().len());
    assert(new_pages.len() < u32::MAX);
    assert forall|i: int| 0 <= i < images.len() implies #[trigger] after.objects[new[i]] == page_value(node,
        ((new[i].0 - 1) as u32, 0u16), ((new[i].0 - 2) as u32, 0u16), images[i].width, images[i].height, images[i].orientation) by {
        assert(shows_image(added.objects, new[i], node, images[i]));
        let page = new[i];
        let image = ((page.0 - 2) as u32, 0u16);
        let contents = ((page.0 - 1) as u32, 0u16);
        lemma_page_value_countless(node, contents, image, images[i].width, images[i].height, images[i].orientation);
        assert(page != node);
        assert(linked.objects[page] == added.objects[page]);
    }
}

/// A start of 0 inserts as a start of 1 does, and every start past the last
/// page inserts as one past the last page does, in any document.
pub proof fn law_insertion_start_clamped(st: DocState, images: Seq<ImageData>, k: u32)
    requires
        (pdf_pages(st.objects, st.trailer).len() as u32) < u32::MAX,
        k > pdf_pages(st.objects, st.trailer).len(),
    ensures
        inserted(st, images, 0) == inserted(st, images, 1),
        insertion_fits(st, images, 0) == insertion_fits(st, images, 1),
        inserted(st, images, k) == inserted(st, images, (pdf_pages(st.objects, st.trailer).len() + 1) as u32),
        insertion_fits(st, images, k) == insertion_fits(st, images, (pdf_pages(st.objects, st.trailer).len() + 1) as u32),
{
    let n = pdf_pages(st.objects, st.trailer).len() as u32;
    let last = (pdf_pages(st.objects, st.trailer).len() + 1) as u32;
    assert(insertion_start(n, 0) == insertion_start(n, 1));
    assert(insertion_start(n, k) == insertion_start(n, last));
    assert forall|root: ObjectId| insertion_place(st, root, 0) == insertion_place(st, root, 1)
        && insertion_place(st, root, k) == insertion_place(st, root, last) by {}
}

/// Removing the page that inserting one image put at page `start` of a page
/// tree of any depth gives back its pages: the document after the insertion
/// is one from which that page is deleted as `nestedly_deletable` describes
/// (so `remove_page` succeeds on it and leaves the tree with `pages`, as its
/// contract states).
pub proof fn law_remove_inserted_nested(st: DocState, images: Seq<ImageData>, start: u32, root: ObjectId, pages: Seq<ObjectId>)
    requires
        nested_page_tree(st.objects, st.trailer, root, pages),
        pdf_pages(st.objects, st.trailer) == numbered(pages),
        forall|i: int| 0 <= i < pages.len() ==> #[trigger] parent_holds(st.objects, root, pages[i]),
        reference_under(st.trailer, name("Root")) matches Some(catalog) && catalog != root
            && !subtree(st.objects, root, 255)->Some_0.0.contains(catalog),
        numbered_below(st.objects, st.max_id),
        insertion_fits(st, images, start),
        images.len() == 1,
        pages.len() >= 1,
        pages.len() + 1 < u32::MAX,
        inserted(st, images, start).1 is Ok,
    ensures
        ({
            let at = insertion_start(pages.len() as u32, start) - 1;
            let new = add_pages(st, images, insertion_place(st, root, start).0).1;
            let after = inserted(st, images, start).0;
            let all = pages.take(at) + new + pages.skip(at);
            &&& nestedly_deletable(after.objects, after.trailer, root, all, (at + 1) as u32)
            &&& all.len() >= 2
            &&& all.remove(at) == pages
        }),
{
    law_inserted_nested(st, images, start, root, pages);
    let at = insertion_start(pages.len() as u32, start) - 1;
    let node = insertion_place(st, root, start).0;
    let new = add_pages(st, images, node).1;
    let after = inserted(st, images, start).0;
    let all = pages.take(at) + new + pages.skip(at);
    let catalog = reference_under(st.trailer, name("Root"))->Some_0;
    assert(all.remove(at) =~= pages);
    assert(st.objects.contains_key(catalog));
    assert(catalog.0 <= st.max_id);
    assert(!new.contains(catalog)) by {
        if new.contains(catalog) {
            let j = choose|j: int| 0 <= j < new.len() && new[j] == catalog;
            assert(new[j].0 > st.max_id);
        }
    }
    assert(!subtree(after.objects, root, 255)->Some_0.0.contains(catalog));
    assert(new.len() == 1);
    assert(all.len() == pages.len() + 1);
    assert(1 <= at + 1 <= all.len());
    assert(nested_page_tree(after.objects, after.trailer, root, all));
}

/// Every node of the page tree (the root and the nodes below it) holds no
/// kid twice, and every kid names as its `Parent` the node that holds it.
pub open spec fn parents_right(objects: ObjectMap, root: ObjectId) -> bool {
    forall|y: ObjectId, k: ObjectId|
        (y == root || subtree(objects, root, 255)->Some_0.0.contains(y)) && node_kids(objects, y) is Some
            && #[trigger] node_kids(objects, y)->Some_0.contains(k)
        ==> distinct(node_kids(objects, y)->Some_0) && stored_dictionary(objects, k) is Some
            && reference_under(stored_dictionary(objects, k)->Some_0, name("Parent")) == Some(y)
}

/// A page tree of any depth that swaps act on: `nested_page_tree`, every
/// page naming as its parent a node that holds it, every kid the node that
/// holds it, and a catalog outside the tree.
pub open spec fn swappable_tree(st: DocState, root: ObjectId, pages: Seq<ObjectId>) -> bool {
    &&& nested_page_tree(st.objects, st.trailer, root, pages)
    &&& pdf_pages(st.objects, st.trailer) == numbered(pages)
    &&& forall|i: int| 0 <= i < pages.len() ==> #[trigger] parent_holds(st.objects, root, pages[i])
    &&& parents_right(st.objects, root)
    &&& reference_under(st.trailer, name("Root")) matches Some(catalog) && catalog != root
        && !subtree(st.objects, root, 255)->Some_0.0.contains(catalog)
}

/// References to the same objects, with `p` and `q` trading places.
proof fn lemma_references_traded(items: Seq<PdfValue>, kids: Seq<ObjectId>, p: ObjectId, q: ObjectId)
    requires
        items.len() == kids.len(),
        forall|i: int| 0 <= i < items.len() ==> #[trigger] items[i] == PdfValue::Reference(kids[i]),
    ensures
        items == references(kids),
        references(swap_ids(kids, p, q)) == Seq::new(items.len(), |i: int| PdfValue::Reference(swap_id(kids[i], p, q))),
{
    assert(items =~= references(kids));
    assert(references(swap_ids(kids, p, q)) =~= Seq::new(items.len(), |i: int| PdfValue::Reference(swap_id(kids[i], p, q))));
}

/// The kids of a node that holds neither page are the same with the two
/// pages trading places.
proof fn lemma_swap_ids_absent(s: Seq<ObjectId>, p: ObjectId, q: ObjectId)
    requires
        !s.contains(p),
        !s.contains(q),
    ensures
        swap_ids(s, p, q) == s,
{
    assert forall|i: int| 0 <= i < s.len() implies swap_ids(s, p, q)[i] == s[i] by {
        if s[i] == p || s[i] == q {
            assert(s.contains(s[i]));
        }
    }
    assert(swap_ids(s, p, q) =~= s);
}

/// Swapping two pages of a page tree of any depth (up to 255 levels below
/// its root), where every page and every kid names as its parent the node
/// that holds it, no node holds a kid twice and the catalog stands outside
/// the tree, succeeds, and the pages trade places: the tree keeps that form,
/// with the two pages exchanged in its page list, and where every `Count`
/// was the number of pages below its node, it still is.
#[verifier::rlimit(100)]
pub proof fn law_swapped_nested(st: DocState, a: u32, b: u32, root: ObjectId, pages: Seq<ObjectId>)
    requires
        swappable_tree(st, root, pages),
        1 <= a <= pages.len(),
        1 <= b <= pages.len(),
    ensures
        ({
            let exchanged = pages.update(a - 1, pages[b - 1]).update(b - 1, pages[a - 1]);
            let after = swapped(st, a, b).0;
            &&& swapped(st, a, b).1 is Ok
            &&& after.trailer == st.trailer
            &&& nested_page_tree(after.objects, after.trailer, root, exchanged)
            &&& forall|i: int| 0 <= i < exchanged.len() ==> #[trigger] parent_holds(after.objects, root, exchanged[i])
            &&& parents_right(after.objects, root)
            &&& !subtree(after.objects, root, 255)->Some_0.0.contains(reference_under(st.trailer, name("Root"))->Some_0)
            &&& counted(st.objects, root, 255) ==> counted(after.objects, root, 255)
        }),
{
    lemma_name_bytes();
    let exchanged = pages.update(a - 1, pages[b - 1]).update(b - 1, pages[a - 1]);
    if a == b {
        assert(exchanged =~= pages);
        return;
    }
    let o1 = st.objects;
    let catalog = reference_under(st.trailer, name("Root"))->Some_0;
    let (members, _) = subtree(o1, root, 255)->Some_0;
    lemma_subtree_facts(o1, root, 255);
    lemma_numbered_lookup(pages, a);
    lemma_numbered_lookup(pages, b);
    let p = pages[a - 1];
    let q = pages[b - 1];
    assert(pages.contains(p) && pages.contains(q));
    assert(distinct(pages));
    assert(p != q);
    assert(is_page_leaf(o1, p) && is_page_leaf(o1, q));
    assert(parent_holds(o1, root, p));
    assert(parent_holds(o1, root, q));
    lemma_stored_resolves(o1, p);
    lemma_stored_resolves(o1, q);
    let n1 = reference_under(stored_dictionary(o1, p)->Some_0, name("Parent"))->Some_0;
    let n2 = reference_under(stored_dictionary(o1, q)->Some_0, name("Parent"))->Some_0;
    let k1 = node_kids(o1, n1)->Some_0;
    let k2 = node_kids(o1, n2)->Some_0;
    assert(k1.contains(p) && k2.contains(q));
    assert(distinct(k1) && distinct(k2));
    let d1 = stored_dictionary(o1, n1)->Some_0;
    let d2 = stored_dictionary(o1, n2)->Some_0;
    lemma_stored_resolves(o1, n1);
    lemma_stored_resolves(o1, n2);
    let items1 = d1[name("Kids")]->Array_0;
    let items2 = d2[name("Kids")]->Array_0;
    assert(forall|i: int| 0 <= i < items1.len() ==> #[trigger] items1[i] == PdfValue::Reference(k1[i]));
    assert(forall|i: int| 0 <= i < items2.len() ==> #[trigger] items2[i] == PdfValue::Reference(k2[i]));
    lemma_references_traded(items1, k1, p, q);
    lemma_references_traded(items2, k2, p, q);
    let i1 = index_in(k1, p);
    let j2 = index_in(k2, q);
    lemma_index_in(k1, p);
    lemma_index_in(k2, q);
    assert(p != n1 && p != n2 && q != n1 && q != n2);
    let after = swapped(st, a, b).0;
    let o2 = after.objects;
    // Which objects change: the parents' kids, and in the second case the
    // pages' parents.
    if n1 == n2 {
        let j1 = index_in(k1, q);
        lemma_index_in(k1, q);
        lemma_last_position_distinct(k1, i1);
        lemma_last_position_distinct(k1, j1);
        let sw = items1.update(i1, items1[j1]).update(j1, items1[i1]);
        assert(sw =~= references(swap_ids(k1, p, q))) by {
            assert forall|i: int| 0 <= i < k1.len() implies #[trigger] swap_ids(k1, p, q)[i] ==
                (if i == i1 { q } else if i == j1 { p } else { k1[i] }) by {
                if k1[i] == p && i != i1 {
                    assert(k1[i1] == p);
                } else if k1[i] == q && i != j1 {
                    assert(k1[j1] == q);
                }
            }
        }
        assert(o2 == o1.insert(n1, PdfValue::Dictionary(d1.insert(name("Kids"), PdfValue::Array(sw)))));
        let nd = d1.insert(name("Kids"), PdfValue::Array(sw));
        assert(stored_dictionary(o2, n1) == Some(nd));
        assert(Seq::new(sw.len(), |i: int| sw[i]->Reference_0) =~= swap_ids(k1, p, q));
        assert(node_kids(o2, n1) == Some(swap_ids(k1, p, q)));
        assert(stored_dictionary(o2, p) == stored_dictionary(o1, p));
        assert(stored_dictionary(o2, q) == stored_dictionary(o1, q));
    } else {
        assert(!k1.contains(q)) by {
            if k1.contains(q) {
                assert(node_kids(o1, n1)->Some_0.contains(q));
            }
        }
        assert(!k2.contains(p)) by {
            if k2.contains(p) {
                assert(node_kids(o1, n2)->Some_0.contains(p));
            }
        }
        lemma_first_position_distinct(k1, i1);
        lemma_first_position_distinct(k2, j2);
        let r1 = items1.update(i1, PdfValue::Reference(q));
        let r2 = items2.update(j2, PdfValue::Reference(p));
        assert(r1 =~= references(swap_ids(k1, p, q))) by {
            assert forall|i: int| 0 <= i < k1.len() implies #[trigger] swap_ids(k1, p, q)[i] == (if i == i1 { q } else { k1[i] }) by {
                if k1[i] == p && i != i1 {
                    assert(k1[i1] == p);
                }
                if k1[i] == q {
                    assert(k1.contains(q));
                }
            }
        }
        assert(r2 =~= references(swap_ids(k2, p, q))) by {
            assert forall|i: int| 0 <= i < k2.len() implies #[trigger] swap_ids(k2, p, q)[i] == (if i == j2 { p } else { k2[i] }) by {
                if k2[i] == q && i != j2 {
                    assert(k2[j2] == q);
                }
                if k2[i] == p {
                    assert(k2.contains(p));
                }
            }
        }
        let s1 = DocState { objects: o1.insert(n1, PdfValue::Dictionary(d1.insert(name("Kids"), PdfValue::Array(r1)))), ..st };
        assert(stored_dictionary(s1.objects, n2) == Some(d2));
        lemma_stored_resolves(s1.objects, n2);
        let s2 = DocState { objects: s1.objects.insert(n2, PdfValue::Dictionary(d2.insert(name("Kids"), PdfValue::Array(r2)))), ..s1 };
        let dp = stored_dictionary(o1, p)->Some_0;
        let dq = stored_dictionary(o1, q)->Some_0;
        assert(stored_dictionary(s2.objects, p) == Some(dp));
        lemma_stored_resolves(s2.objects, p);
        let s3 = DocState { objects: s2.objects.insert(p, PdfValue::Dictionary(dp.insert(name("Parent"), PdfValue::Reference(n2)))), ..s2 };
        assert(stored_dictionary(s3.objects, q) == Some(dq));
        lemma_stored_resolves(s3.objects, q);
        assert(o2 == s3.objects.insert(q, PdfValue::Dictionary(dq.insert(name("Parent"), PdfValue::Reference(n1)))));
        let nd1 = d1.insert(name("Kids"), PdfValue::Array(r1));
        let nd2 = d2.insert(name("Kids"), PdfValue::Array(r2));
        assert(stored_dictionary(o2, n1) == Some(nd1));
        assert(stored_dictionary(o2, n2) == Some(nd2));
        assert(Seq::new(r1.len(), |i: int| r1[i]->Reference_0) =~= swap_ids(k1, p, q));
        assert(Seq::new(r2.len(), |i: int| r2[i]->Reference_0) =~= swap_ids(k2, p, q));
        assert(node_kids(o2, n1) == Some(swap_ids(k1, p, q)));
        assert(node_kids(o2, n2) == Some(swap_ids(k2, p, q)));
        assert(stored_dictionary(o2, p) == Some(dp.insert(name("Parent"), PdfValue::Reference(n2))));
        assert(stored_dictionary(o2, q) == Some(dq.insert(name("Parent"), PdfValue::Reference(n1))));
    }
    // What holds in both cases.
    assert(o2.dom() =~= o1.dom());
    assert(forall|k: ObjectId| k != n1 && k != n2 && k != p && k != q ==> #[trigger] o2[k] == o1[k]);
    assert(is_page_leaf(o2, p) && is_page_leaf(o2, q));
    assert(node_kids(o2, n1) == Some(swap_ids(k1, p, q)));
    assert(node_kids(o2, n2) == Some(swap_ids(k2, p, q)));
    assert(reference_under(stored_dictionary(o2, p)->Some_0, name("Parent")) == Some(n2));
    assert(reference_under(stored_dictionary(o2, q)->Some_0, name("Parent")) == Some(n1));
    assert(n1 == root || members.contains(n1));
    assert(n2 == root || members.contains(n2));
    // Every object of the tree is traded.
    assert forall|k: ObjectId| k == root || members.contains(k) implies #[trigger] traded(o1, o2, k, p, q) by {
        if k == n1 || k == n2 {
        } else if k == p || k == q {
            assert(node_kids(o1, k) is None);
        } else {
            assert(o2[k] == o1[k]);
            assert(stored_dictionary(o2, k) == stored_dictionary(o1, k));
            if let Some(ks) = node_kids(o1, k) {
                assert(!ks.contains(p)) by {
                    if ks.contains(p) {
                        assert(node_kids(o1, k)->Some_0.contains(p));
                    }
                }
                assert(!ks.contains(q)) by {
                    if ks.contains(q) {
                        assert(node_kids(o1, k)->Some_0.contains(q));
                    }
                }
                lemma_swap_ids_absent(ks, p, q);
            }
        }
    }
    assert(traded(o1, o2, root, p, q));
    lemma_subtree_traded(o1, o2, root, 255, p, q);
    let new_members = swap_ids(members, p, q);
    assert(swap_ids(pages, p, q) =~= exchanged) by {
        assert forall|i: int| 0 <= i < pages.len() implies swap_ids(pages, p, q)[i] == exchanged[i] by {
            if pages[i] == p && i != a - 1 {
                assert(pages[a - 1] == p);
            }
            if pages[i] == q && i != b - 1 {
                assert(pages[b - 1] == q);
            }
        }
    }
    assert(subtree(o2, root, 255) == Some((new_members, exchanged)));
    assert forall|k: ObjectId| #[trigger] new_members.contains(k) <==> members.contains(swap_id(k, p, q)) by {
        if new_members.contains(k) {
            let i = choose|i: int| 0 <= i < new_members.len() && new_members[i] == k;
            assert(members[i] == swap_id(k, p, q));
        }
        if members.contains(swap_id(k, p, q)) {
            let i = choose|i: int| 0 <= i < members.len() && members[i] == swap_id(k, p, q);
            assert(new_members[i] == k);
        }
    }
    assert(distinct(new_members)) by {
        assert forall|i: int, j: int| 0 <= i < j < new_members.len() implies new_members[i] != new_members[j] by {
            assert(members[i] != members[j]);
        }
    }
    lemma_subtree_pages(o1, root, 255);
    assert(members.contains(p) && members.contains(q));
    assert(!new_members.contains(root));
    assert(!new_members.contains(catalog));
    assert(stored_dictionary(o2, catalog) == stored_dictionary(o1, catalog));
    assert(nested_page_tree(o2, after.trailer, root, exchanged));
    // Every kid still names the node that holds it.
    assert forall|y: ObjectId, k: ObjectId|
        (y == root || subtree(o2, root, 255)->Some_0.0.contains(y)) && node_kids(o2, y) is Some
            && #[trigger] node_kids(o2, y)->Some_0.contains(k)
        implies distinct(node_kids(o2, y)->Some_0) && stored_dictionary(o2, k) is Some
            && reference_under(stored_dictionary(o2, k)->Some_0, name("Parent")) == Some(y) by {
        assert(y != p && y != q);
        assert(y == root || members.contains(y));
        assert(traded(o1, o2, y, p, q));
        let ky = node_kids(o1, y)->Some_0;
        assert(node_kids(o2, y) == Some(swap_ids(ky, p, q)));
        let i = choose|i: int| 0 <= i < ky.len() && swap_ids(ky, p, q)[i] == k;
        let k0 = ky[i];
        assert(ky.contains(k0));
        assert(node_kids(o1, y)->Some_0.contains(k0));
        assert(distinct(ky));
        assert(distinct(swap_ids(ky, p, q))) by {
            assert forall|u: int, v: int| 0 <= u < v < ky.len() implies swap_ids(ky, p, q)[u] != swap_ids(ky, p, q)[v] by {
                assert(ky[u] != ky[v]);
            }
        }
        if k0 == p {
            assert(y == n1);
        } else if k0 == q {
            assert(y == n2);
        } else {
            assert(k == k0);
            if k == n1 || k == n2 {
                assert(stored_dictionary(o2, k)->Some_0[name("Parent")] == stored_dictionary(o1, k)->Some_0[name("Parent")]);
                assert(stored_dictionary(o2, k)->Some_0.contains_key(name("Parent")) == stored_dictionary(o1, k)->Some_0.contains_key(name("Parent")));
            } else {
                assert(o2[k] == o1[k]);
            }
        }
    }
    // The `Count`s.
    assert forall|k: ObjectId| (k == root || members.contains(k)) && node_kids(o1, k) is Some implies
        #[trigger] count_of(o2, k) == count_of(o1, k) by {
        assert(k != p && k != q);
        if k != n1 && k != n2 {
            assert(o2[k] == o1[k]);
        }
    }
    if counted(o1, root, 255) {
        lemma_counted_traded(o1, o2, root, 255, p, q);
    }
    // Every page names a node that holds it.
    assert forall|i: int| 0 <= i < exchanged.len() implies #[trigger] parent_holds(o2, root, exchanged[i]) by {
        let k = exchanged[i];
        let k0 = pages[i];
        assert(k == swap_id(k0, p, q));
        assert(parent_holds(o1, root, k0));
        let y0 = reference_under(stored_dictionary(o1, k0)->Some_0, name("Parent"))->Some_0;
        assert(node_kids(o1, y0)->Some_0.contains(k0));
        assert(y0 == root || members.contains(y0));
        let y = if k0 == p { n1 } else if k0 == q { n2 } else { y0 };
        assert(y == root || members.contains(y));
        assert(y == root || new_members.contains(y)) by {
            if y != root {
                assert(swap_id(y, p, q) == y);
            }
        }
        assert(traded(o1, o2, y, p, q));
        let ky = node_kids(o1, y)->Some_0;
        if k0 == p {
            assert(swap_ids(k1, p, q)[i1] == q);
        } else if k0 == q {
            assert(swap_ids(k2, p, q)[j2] == p);
        } else {
            let t = choose|t: int| 0 <= t < ky.len() && ky[t] == k0;
            assert(swap_ids(ky, p, q)[t] == k);
            assert(pages.contains(k0));
            assert(is_page_leaf(o1, k0));
            assert(k != n1 && k != n2);
            assert(o2[k] == o1[k]);
        }
        assert(node_kids(o2, y)->Some_0.contains(k));
    }

}

/// Swapping the same two pages twice gives back the page list of a page tree
/// of any depth that `swappable_tree` describes.
pub proof fn law_swap_twice_nested(st: DocState, a: u32, b: u32, root: ObjectId, pages: Seq<ObjectId>)
    requires
        swappable_tree(st, root, pages),
        1 <= a <= pages.len(),
        1 <= b <= pages.len(),
        pages_follow_tree(swapped(st, a, b).0.objects, swapped(st, a, b).0.trailer),
    ensures
        swapped(swapped(st, a, b).0, a, b).1 is Ok,
        nested_page_tree(swapped(swapped(st, a, b).0, a, b).0.objects, swapped(swapped(st, a, b).0, a, b).0.trailer, root, pages),
{
    law_swapped_nested(st, a, b, root, pages);
    let once = swapped(st, a, b).0;
    let exchanged = pages.update(a - 1, pages[b - 1]).update(b - 1, pages[a - 1]);
    assert(pdf_pages(once.objects, once.trailer) == numbered(exchanged));
    assert(swappable_tree(once, root, exchanged));
    law_swapped_nested(once, a, b, root, exchanged);
    assert(exchanged.update(a - 1, exchanged[b - 1]).update(b - 1, exchanged[a - 1]) =~= pages);
}

/// The order of the two page numbers of a swap does not matter to the page
/// list of a page tree of any depth that `swappable_tree` describes.
pub proof fn law_swap_order_nested(st: DocState, a: u32, b: u32, root: ObjectId, pages: Seq<ObjectId>)
    requires
        swappable_tree(st, root, pages),
        1 <= a <= pages.len(),
        1 <= b <= pages.len(),
    ensures
        swapped(st, a, b).1 is Ok && swapped(st, b, a).1 is Ok,
        nested_page_tree(swapped(st, b, a).0.objects, swapped(st, b, a).0.trailer, root,
            pages.update(a - 1, pages[b - 1]).update(b - 1, pages[a - 1])),
{
    law_swapped_nested(st, a, b, root, pages);
    law_swapped_nested(st, b, a, root, pages);
    assert(pages.update(b - 1, pages[a - 1]).update(a - 1, pages[b - 1]) =~= pages.update(a - 1, pages[b - 1]).update(b - 1, pages[a - 1]));
}

/// The page made for an image spans the image's rectangle, whatever its
/// orientation: its `MediaBox` is `[0 0 width height]`, the rectangle to which
/// its content stream scales the image, and the orientation only adds a
/// `Rotate` of 180, 90 or 270 degrees for orientations 3, 6 and 8. The page
/// files its image under one name in its resources, refers to its content
/// stream and names its parent.
pub proof fn law_page_of_image(parent: ObjectId, contents: ObjectId, image: ObjectId, width: u32, height: u32, orientation: u16)
    ensures
        ({
            let d = page_value(parent, contents, image, width, height, orientation)->Dictionary_0;
            &&& page_value(parent, contents, image, width, height, orientation) is Dictionary
            &&& d[name("MediaBox")] == PdfValue::Array(seq![
                PdfValue::Integer(0), PdfValue::Integer(0),
                PdfValue::Integer(width as i64), PdfValue::Integer(height as i64)])
            &&& d[name("Contents")] == PdfValue::Reference(contents)
            &&& d[name("Parent")] == PdfValue::Reference(parent)
            &&& d[name("Resources")] is Dictionary
            &&& d[name("Resources")]->Dictionary_0[name("XObject")]
                == PdfValue::Dictionary(DictMap::empty().insert(name("Im") + decimal(image.0 as nat), PdfValue::Reference(image)))
            &&& (orientation == 3 ==> d[name("Rotate")] == PdfValue::Integer(180))
            &&& (orientation == 6 ==> d[name("Rotate")] == PdfValue::Integer(90))
            &&& (orientation == 8 ==> d[name("Rotate")] == PdfValue::Integer(270))
            &&& (d.contains_key(name("Rotate")) <==> (orientation == 3 || orientation == 6 || orientation == 8))
        }),
        forall|other: u16| #[trigger] page_value(parent, contents, image, width, height, other)->Dictionary_0[name("MediaBox")]
            == page_value(parent, contents, image, width, height, orientation)->Dictionary_0[name("MediaBox")],
{
    reveal(page_value);
    lemma_name_bytes();
}

/// The content stream of a page draws its image by the name under which the
/// page files it: it saves the state, scales the unit square to
/// `width` by `height`, draws `key`, and restores the state.
pub proof fn law_content_draws_filed_image(width: u32, height: u32, key: Seq<u8>)
    ensures
        ({
            let bytes = content_text(seq![
                (name("q"), Seq::<PdfValue>::empty()),
                (name("cm"), seq![
                    PdfValue::Integer(width as i64), PdfValue::Integer(0), PdfValue::Integer(0),
                    PdfValue::Integer(height as i64), PdfValue::Integer(0), PdfValue::Integer(0)]),
                (name("Do"), seq![PdfValue::Name(key)]),
                (name("Q"), Seq::<PdfValue>::empty()),
            ]);
            content_value(width, height, key)
                == PdfValue::Stream(DictMap::empty().insert(name("Length"), PdfValue::Integer(bytes.len() as i64)), bytes)
        }),
{
}

/// Each page that adding an image makes draws that image: the image object
/// is filed in the page's resources under a name, `Im` and its number, and
/// the page's content stream draws exactly that name, over the page's
/// `MediaBox`.
pub proof fn law_added_page_draws_its_image(st: DocState, img: ImageData, parent: ObjectId)
    requires
        add_page(st, img, parent) is Some,
        st.max_id + 3 <= u32::MAX,
    ensures
        ({
            let (after, page) = add_page(st, img, parent)->Some_0;
            let image = ((page.0 - 2) as u32, 0u16);
            let contents = ((page.0 - 1) as u32, 0u16);
            let key = name("Im") + decimal(image.0 as nat);
            let d = after.objects[page]->Dictionary_0;
            &&& after.objects[image] == xobject_of(img.data@)
            &&& d[name("Contents")] == PdfValue::Reference(contents)
            &&& d[name("Resources")]->Dictionary_0[name("XObject")]
                == PdfValue::Dictionary(DictMap::empty().insert(key, PdfValue::Reference(image)))
            &&& after.objects[contents] == content_value(img.width, img.height, key)
            &&& d[name("MediaBox")] == PdfValue::Array(seq![
                PdfValue::Integer(0), PdfValue::Integer(0),
                PdfValue::Integer(img.width as i64), PdfValue::Integer(img.height as i64)])
        }),
{
    reveal(add_page);
    let image = id_above(st.max_id, 1);
    let contents = id_above(st.max_id, 2);
    let page = id_above(st.max_id, 3);
    assert(page.0 - 2 == image.0 && page.0 - 1 == contents.0);
    law_page_of_image(parent, contents, image, img.width, img.height, img.orientation);
    reveal(page_value);
    assert(image_name(image) == name("Im") + decimal(image.0 as nat));
}

/// `ids` is a chain of `Parent` references with no object twice: each a
/// dictionary stored under its identifier with an integer `Count`, each
/// naming the next as its `Parent`, and the last naming none.
pub open spec fn parent_chain(objects: ObjectMap, ids: Seq<ObjectId>) -> bool {
    &&& distinct(ids)
    &&& forall|i: int| 0 <= i < ids.len() ==> #[trigger] count_of(objects, ids[i]) is Some
    &&& forall|i: int| 0 <= i < ids.len() - 1 ==>
        reference_under(stored_dictionary(objects, #[trigger] ids[i])->Some_0, name("Parent")) == Some(ids[i + 1])
    &&& ids.len() > 0 ==> reference_under(stored_dictionary(objects, ids.last())->Some_0, name("Parent")) is None
}

pub open spec fn chain_start(ids: Seq<ObjectId>) -> Option<ObjectId> {
    if ids.len() == 0 { None } else { Some(ids[0]) }
}

/// Raising the `Count`s up a chain of `Parent` references raises each of them
/// by exactly `m`, where none passes `i64::MAX`, and changes no other object.
pub proof fn law_raised_chain(st: DocState, ids: Seq<ObjectId>, m: int, fuel: nat)
    requires
        parent_chain(st.objects, ids),
        fuel >= ids.len(),
        m >= 0,
        forall|i: int| 0 <= i < ids.len() ==> #[trigger] count_of(st.objects, ids[i])->Some_0 + m <= i64::MAX,
    ensures
        ({
            let after = raised_above(st, chain_start(ids), m, fuel);
            &&& after.objects.dom() == st.objects.dom()
            &&& after.trailer == st.trailer && after.max_id == st.max_id && after.version == st.version
            &&& forall|i: int| 0 <= i < ids.len() ==>
                #[trigger] count_of(after.objects, ids[i]) == Some((count_of(st.objects, ids[i])->Some_0 + m) as i64)
            &&& forall|k: ObjectId| !ids.contains(k) && st.objects.contains_key(k) ==> #[trigger] after.objects[k] == st.objects[k]
        }),
    decreases ids.len(),
{
    lemma_name_bytes();
    if ids.len() > 0 {
        let id = ids[0];
        let d = stored_dictionary(st.objects, id)->Some_0;
        assert(count_of(st.objects, ids[0]) is Some);
        let c = count_of(st.objects, id)->Some_0;
        assert(c + m <= i64::MAX);
        let d2 = d.insert(name("Count"), PdfValue::Integer((c + m) as i64));
        let raised = DocState { objects: st.objects.insert(id, PdfValue::Dictionary(d2)), ..st };
        let rest = ids.drop_first();
        assert(raised_above(st, Some(id), m, fuel) == raised_above(raised, chain_start(rest), m, (fuel - 1) as nat)) by {
            if ids.len() > 1 {
                assert(reference_under(stored_dictionary(st.objects, ids[0])->Some_0, name("Parent")) == Some(ids[1]));
            }
        }
        assert forall|i: int| 0 <= i < rest.len() implies rest[i] != id by {
            assert(ids[i + 1] != ids[0]);
        }
        assert(parent_chain(raised.objects, rest)) by {
            assert forall|i: int| 0 <= i < rest.len() implies #[trigger] count_of(raised.objects, rest[i]) == count_of(st.objects, rest[i]) by {
                assert(rest[i] == ids[i + 1]);
            }
            assert forall|i: int| 0 <= i < rest.len() - 1 implies
                reference_under(stored_dictionary(raised.objects, #[trigger] rest[i])->Some_0, name("Parent")) == Some(rest[i + 1]) by {
                assert(rest[i] == ids[i + 1] && rest[i + 1] == ids[i + 2]);
                assert(stored_dictionary(raised.objects, rest[i]) == stored_dictionary(st.objects, rest[i]));
            }
            if rest.len() > 0 {
                assert(rest.last() == ids.last());
                assert(stored_dictionary(raised.objects, rest.last()) == stored_dictionary(st.objects, rest.last()));
            }
            assert forall|i: int, j: int| 0 <= i < j < rest.len() implies rest[i] != rest[j] by {
                assert(ids[i + 1] != ids[j + 1]);
            }
        }
        assert forall|i: int| 0 <= i < rest.len() implies #[trigger] count_of(raised.objects, rest[i])->Some_0 + m <= i64::MAX by {
            assert(rest[i] == ids[i + 1]);
            assert(count_of(st.objects, ids[i + 1])->Some_0 + m <= i64::MAX);
        }
        law_raised_chain(raised, rest, m, (fuel - 1) as nat);
        let after = raised_above(raised, chain_start(rest), m, (fuel - 1) as nat);
        assert(raised.objects.dom() =~= st.objects.dom());
        assert(!rest.contains(id));
        assert(count_of(raised.objects, id) == Some((c + m) as i64));
        assert forall|i: int| 0 <= i < ids.len() implies
            #[trigger] count_of(after.objects, ids[i]) == Some((count_of(st.objects, ids[i])->Some_0 + m) as i64) by {
            if i > 0 {
                assert(ids[i] == rest[i - 1]);
            } else {
                assert(after.objects[id] == raised.objects[id]);
            }
        }
        assert forall|k: ObjectId| !ids.contains(k) && st.objects.contains_key(k) implies #[trigger] after.objects[k] == st.objects[k] by {
            assert(k != id) by {
                if k == id {
                    assert(ids.contains(ids[0]));
                }
            }
            assert(!rest.contains(k)) by {
                if rest.contains(k) {
                    let i = choose|i: int| 0 <= i < rest.len() && rest[i] == k;
                    assert(ids[i + 1] == k);
                }
            }
        }
    }
}

/// Inserting images grows by exactly the number of images the `Count` of the
/// node that takes them and the `Count` of every node up its chain of
/// `Parent` references, whatever the start page, where these are
/// dictionaries stored under their own identifiers, the chain ends and does
/// not come back to the node, and every object is numbered at most `max_id`.
pub proof fn law_insert_raises_counts(st: DocState, images: Seq<ImageData>, start: u32, ancestors: Seq<ObjectId>)
    requires
        images.len() > 0,
        st.objects.dom().finite(),
        numbered_below(st.objects, st.max_id),
        insertion_fits(st, images, start),
        inserted(st, images, start).1 is Ok,
        page_tree_root(st) matches Ok(root)
            && stored_dictionary(st.objects, insertion_place(st, root, start).0) matches Some(d)
            && reference_under(d, name("Parent")) == chain_start(ancestors)
            && !ancestors.contains(insertion_place(st, root, start).0),
        parent_chain(st.objects, ancestors),
        forall|i: int| 0 <= i < ancestors.len() ==> #[trigger] count_of(st.objects, ancestors[i])->Some_0 + images.len() <= i64::MAX,
    ensures
        ({
            let root = page_tree_root(st)->Ok_0;
            let node = insertion_place(st, root, start).0;
            let after = inserted(st, images, start).0;
            &&& count_entry(after.objects, node) == count_entry(st.objects, node) + images.len()
            &&& forall|i: int| 0 <= i < ancestors.len() ==> #[trigger] count_of(after.objects, ancestors[i])
                == Some((count_of(st.objects, ancestors[i])->Some_0 + images.len()) as i64)
        }),
{
    let root = page_tree_root(st)->Ok_0;
    let (node, before) = insertion_place(st, root, start);
    let d = stored_dictionary(st.objects, node)->Some_0;
    assert(st.objects.contains_key(node));
    assert(add_pages(st, images, node).2);
    lemma_add_pages_fresh(st, images, node);
    let (added, new, _) = add_pages(st, images, node);
    assert(stored_dictionary(added.objects, node) == Some(d));
    lemma_stored_resolves(added.objects, node);
    lemma_stored_resolves(st.objects, node);
    lemma_name_bytes();
    let count = count_entry(added.objects, node);
    let d1 = with_array(d, name("Kids"), |it: Seq<PdfValue>| spliced(it, kid_slot(it, before), references(new)));
    let d2 = d1.insert(name("Count"), PdfValue::Integer((count + images.len()) as i64));
    let linked = DocState { objects: added.objects.insert(node, PdfValue::Dictionary(d2)), ..added };
    let m = images.len() as int;
    assert(inserted(st, images, start).0 == raised_above(linked, chain_start(ancestors), m, linked.objects.dom().len()));
    // The ancestors are old objects, untouched before the walk.
    assert forall|i: int| 0 <= i < ancestors.len() implies
        #[trigger] linked.objects[ancestors[i]] == st.objects[ancestors[i]] && st.objects.contains_key(ancestors[i]) by {
        assert(count_of(st.objects, ancestors[i]) is Some);
        assert(ancestors[i] != node) by {
            if ancestors[i] == node {
                assert(ancestors.contains(node));
            }
        }
    }
    assert(parent_chain(linked.objects, ancestors)) by {
        assert forall|i: int| 0 <= i < ancestors.len() implies #[trigger] count_of(linked.objects, ancestors[i]) == count_of(st.objects, ancestors[i]) by {
            assert(linked.objects[ancestors[i]] == st.objects[ancestors[i]]);
        }
        assert forall|i: int| 0 <= i < ancestors.len() - 1 implies
            reference_under(stored_dictionary(linked.objects, #[trigger] ancestors[i])->Some_0, name("Parent")) == Some(ancestors[i + 1]) by {
            assert(linked.objects[ancestors[i]] == st.objects[ancestors[i]]);
        }
        if ancestors.len() > 0 {
            assert(linked.objects[ancestors[ancestors.len() - 1]] == st.objects[ancestors[ancestors.len() - 1]]);
        }
    }
    assert forall|i: int| 0 <= i < ancestors.len() implies #[trigger] count_of(linked.objects, ancestors[i])->Some_0 + m <= i64::MAX by {
        assert(linked.objects[ancestors[i]] == st.objects[ancestors[i]]);
        assert(count_of(st.objects, ancestors[i])->Some_0 + images.len() <= i64::MAX);
    }
    // The chain has no more objects than the document.
    assert(ancestors.len() <= linked.objects.dom().len()) by {
        ancestors.unique_seq_to_set();
        assert(ancestors.to_set().subset_of(linked.objects.dom())) by {
            assert forall|k: ObjectId| ancestors.to_set().contains(k) implies linked.objects.dom().contains(k) by {
                let i = choose|i: int| 0 <= i < ancestors.len() && ancestors[i] == k;
                assert(linked.objects[ancestors[i]] == st.objects[ancestors[i]]);
            }
        }
        assert(linked.objects.dom() =~= added.objects.dom().insert(node));
        vstd::set_lib::lemma_len_subset(ancestors.to_set(), linked.objects.dom());
    }
    law_raised_chain(linked, ancestors, m, linked.objects.dom().len());
    let after = inserted(st, images, start).0;
    assert(!ancestors.contains(node));
    assert(after.objects[node] == linked.objects[node]);
    assert(stored_dictionary(after.objects, node) == Some(d2));
    lemma_stored_resolves(after.objects, node);
    assert forall|i: int| 0 <= i < ancestors.len() implies #[trigger] count_of(after.objects, ancestors[i])
        == Some((count_of(st.objects, ancestors[i])->Some_0 + images.len()) as i64) by {
        assert(count_of(linked.objects, ancestors[i]) == count_of(st.objects, ancestors[i]));
    }
}

} // verus!
