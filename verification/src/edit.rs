//! Removing a page from a document, and swapping two of its pages.

use vstd::prelude::*;
use crate::document::{
    DocState, kept_or_follows, numbered, nested_page_tree, nestedly_deletable, plainly_deletable, plainly_deleted, stored_dictionary, Entry, delete_page, deletion_returns, dictionary_entry, object_count, page_deletion,
    page_entries, page_lookup, parent_walk_returns, pdf_pages, reference_in, reference_under,
    resolved_dictionary, set_array_entry, set_dictionary_entry, state_of, stored_dictionary_entry,
    swap_array_entries, document_objects, document_trailer,
};
use crate::error::PdfError;
use crate::model::{DictMap, ObjectId, ObjectMap, PdfObject, PdfValue};
use crate::names::name;

verus! {

/// The document after removing page `number`, and the result: the page must
/// exist, and must not be the only one.
pub open spec fn removed(st: DocState, number: u32) -> (DocState, Result<(), PdfError>) {
    let pages = pdf_pages(st.objects, st.trailer);
    if page_lookup(pages, number) is None {
        (st, Err(PdfError::NoSuchPage(number)))
    } else if pages.len() <= 1 {
        (st, Err(PdfError::LastPage(number)))
    } else {
        let (objects, trailer) = page_deletion(st.objects, st.trailer, number);
        (DocState { objects, trailer, ..st }, Ok(()))
    }
}

pub proof fn lemma_page_lookup(pages: Seq<(u32, ObjectId)>, number: u32, i: int)
    requires
        0 <= i <= pages.len(),
        forall|j: int| 0 <= j < i ==> pages[j].0 != number,
    ensures
        i < pages.len() && pages[i].0 == number ==> page_lookup(pages, number) == Some(pages[i].1),
        i == pages.len() ==> page_lookup(pages, number) is None,
    decreases i,
{
    if i > 0 {
        lemma_page_lookup(pages.drop_first(), number, i - 1);
    }
}

/// In a list of pages numbered from 1, page `n` is the `n`-th.
pub proof fn lemma_numbered_lookup(kids: Seq<ObjectId>, n: u32)
    requires
        1 <= n <= kids.len(),
        kids.len() < u32::MAX,
    ensures
        page_lookup(numbered(kids), n) == Some(kids[n - 1]),
{
    lemma_page_lookup(numbered(kids), n, n - 1);
}

/// The object that page `number` is, in a list of pages.
pub(crate) fn find_page(pages: &Vec<(u32, ObjectId)>, number: u32) -> (r: Option<ObjectId>)
    ensures
        r == page_lookup(pages@, number),
{
    let mut i: usize = 0;
    while i < pages.len()
        invariant
            i <= pages.len(),
            forall|j: int| 0 <= j < i ==> pages@[j].0 != number,
        decreases pages.len() - i,
    {
        if pages[i].0 == number {
            proof {
                lemma_page_lookup(pages@, number, i as int);
            }
            return Some(pages[i].1);
        }
        i = i + 1;
    }
    proof {
        lemma_page_lookup(pages@, number, i as int);
    }
    None
}

/// Removes page `number` (counted from 1) from the document, with
/// `Document::delete_pages`. A page that does not exist cannot be removed, nor
/// the only page of a document.
pub fn remove_page(doc: &mut lopdf::Document, page_number: u32) -> (r: Result<(), PdfError>)
    requires
        pdf_pages(document_objects(*old(doc)), document_trailer(*old(doc))).len() > 1 ==>
            exists|fuel: int| deletion_returns(document_objects(*old(doc)), document_trailer(*old(doc)), page_number, fuel),
    ensures
        removed(state_of(*old(doc)), page_number) == (state_of(*final(doc)), r),
        forall|root: ObjectId, kids: Seq<ObjectId>|
            #[trigger] plainly_deletable(document_objects(*old(doc)), document_trailer(*old(doc)), root, kids, page_number)
                && kids.len() >= 2 ==> r is Ok
                && plainly_deleted(document_objects(*old(doc)), document_objects(*final(doc)), document_trailer(*final(doc)), root, kids, page_number),
        forall|root: ObjectId, pages: Seq<ObjectId>|
            #[trigger] nestedly_deletable(document_objects(*old(doc)), document_trailer(*old(doc)), root, pages, page_number)
                && pages.len() >= 2 ==> r is Ok
                && nested_page_tree(document_objects(*final(doc)), document_trailer(*final(doc)), root, pages.remove(page_number - 1))
                && !document_objects(*final(doc)).contains_key(pages[page_number - 1]),
        kept_or_follows(*old(doc), *final(doc)),
{
    let pages = page_entries(doc);
    proof {
        assert forall|root: ObjectId, ps: Seq<ObjectId>|
            #[trigger] nestedly_deletable(document_objects(*doc), document_trailer(*doc), root, ps, page_number)
            implies page_lookup(pages@, page_number) == Some(ps[page_number - 1]) && pages@.len() == ps.len() by {
            lemma_numbered_lookup(ps, page_number);
        }
        assert forall|root: ObjectId, kids: Seq<ObjectId>|
            #[trigger] plainly_deletable(document_objects(*doc), document_trailer(*doc), root, kids, page_number)
            implies page_lookup(pages@, page_number) == Some(kids[page_number - 1]) && pages@.len() == kids.len() by {
            lemma_numbered_lookup(kids, page_number);
        }
    }
    if find_page(&pages, page_number).is_none() {
        return Err(PdfError::NoSuchPage(page_number));
    }
    if pages.len() <= 1 {
        return Err(PdfError::LastPage(page_number));
    }
    delete_page(doc, page_number);
    Ok(())
}

/// Whether two identifiers are the same.
fn same_object(a: ObjectId, b: ObjectId) -> (r: bool)
    ensures
        r == (a == b),
{
    a.0 == b.0 && a.1 == b.1
}

/// The reference in a shallow copy, if it is one.
fn entry_reference(e: Option<Entry>) -> (r: Option<ObjectId>)
    ensures
        r == match e {
            Some(Entry::Reference(id)) => Some(id),
            _ => None::<ObjectId>,
        },
{
    match e {
        Some(Entry::Reference(id)) => Some(id),
        _ => None,
    }
}

/// Removes page `number` where `Document::delete_pages` can be shown to
/// return: where the page does not exist or is the only one (nothing is
/// deleted then), or where the walk up from the page's parent returns within
/// as many steps as the document has objects, meeting no `Count` of
/// `i64::MIN`. Otherwise gives `None` and leaves the document as it is.
pub fn try_remove_page(doc: &mut lopdf::Document, page_number: u32) -> (r: Option<Result<(), PdfError>>)
    ensures
        r is None <==> (pdf_pages(document_objects(*old(doc)), document_trailer(*old(doc))).len() > 1
            && !deletion_returns(document_objects(*old(doc)), document_trailer(*old(doc)), page_number,
            document_objects(*old(doc)).dom().len() as int)),
        r is None ==> state_of(*final(doc)) == state_of(*old(doc)),
        r matches Some(result) ==> removed(state_of(*old(doc)), page_number) == (state_of(*final(doc)), result),
        forall|root: ObjectId, kids: Seq<ObjectId>|
            #[trigger] plainly_deletable(document_objects(*old(doc)), document_trailer(*old(doc)), root, kids, page_number)
                && kids.len() >= 2 ==> r == Some(Ok::<(), PdfError>(()))
                && plainly_deleted(document_objects(*old(doc)), document_objects(*final(doc)), document_trailer(*final(doc)), root, kids, page_number),
        forall|root: ObjectId, pages: Seq<ObjectId>|
            #[trigger] nestedly_deletable(document_objects(*old(doc)), document_trailer(*old(doc)), root, pages, page_number)
                && pages.len() >= 2 && r is Some ==> r == Some(Ok::<(), PdfError>(()))
                && nested_page_tree(document_objects(*final(doc)), document_trailer(*final(doc)), root, pages.remove(page_number - 1))
                && !document_objects(*final(doc)).contains_key(pages[page_number - 1]),
        kept_or_follows(*old(doc), *final(doc)),
{
    let ghost objects = document_objects(*doc);
    let ghost trailer = document_trailer(*doc);
    let limit = object_count(doc);
    let pages = page_entries(doc);
    proof {
        reveal_with_fuel(parent_walk_returns, 2);
        assert forall|root: ObjectId, kids: Seq<ObjectId>|
            #[trigger] plainly_deletable(objects, trailer, root, kids, page_number) && kids.len() >= 2
            implies deletion_returns(objects, trailer, page_number, limit as int) by {
            lemma_numbered_lookup(kids, page_number);
            let page = kids[page_number - 1];
            assert(stored_dictionary(objects, page) is Some);
            assert(reference_under(stored_dictionary(objects, kids[page_number - 1])->Some_0, name("Parent")) == Some(root));
            assert(page != root) by {
                if page == root {
                    assert(kids.contains(root));
                }
            }
            let rest = objects.remove(page);
            assert(rest.contains_key(root) && rest[root] == objects[root]);
            assert(parent_walk_returns(rest, Some(root), limit as int));
        }
    }
    let page = match find_page(&pages, page_number) {
        None => {
            assert(deletion_returns(objects, trailer, page_number, 0));
            return Some(remove_page(doc, page_number));
        },
        Some(p) => p,
    };
    if pages.len() <= 1 {
        return Some(remove_page(doc, page_number));
    }
    let start = match stored_dictionary_entry(doc, page, "Parent") {
        None => {
            assert(deletion_returns(objects, trailer, page_number, 0));
            return Some(remove_page(doc, page_number));
        },
        Some(e) => entry_reference(e),
    };
    let ghost rest = objects.remove(page);
    assert(start == reference_under(objects[page]->Dictionary_0, name("Parent")));
    let mut next = start;
    let mut steps: usize = 0;
    loop
        invariant
            steps <= limit,
            limit == objects.dom().len(),
            objects == document_objects(*doc),
            trailer == document_trailer(*doc),
            state_of(*doc) == state_of(*old(doc)),
            objects == document_objects(*old(doc)),
            trailer == document_trailer(*old(doc)),
            rest == objects.remove(page),
            page_lookup(pdf_pages(objects, trailer), page_number) == Some(page),
            pdf_pages(objects, trailer).len() > 1,
            forall|root: ObjectId, kids: Seq<ObjectId>|
                #[trigger] plainly_deletable(objects, trailer, root, kids, page_number) && kids.len() >= 2
                ==> deletion_returns(objects, trailer, page_number, limit as int),
            objects.contains_key(page) && objects[page] is Dictionary,
            start == reference_under(objects[page]->Dictionary_0, name("Parent")),
            forall|f: int| f >= 0 ==> #[trigger] parent_walk_returns(rest, start, f + steps) == parent_walk_returns(rest, next, f),
        ensures
            parent_walk_returns(rest, next, 0),
            steps <= limit,
            forall|f: int| f >= 0 ==> #[trigger] parent_walk_returns(rest, start, f + steps) == parent_walk_returns(rest, next, f),
        decreases limit - steps,
    {
        let id = match next {
            None => break,
            Some(id) => id,
        };
        if same_object(id, page) {
            break;
        }
        let count = match stored_dictionary_entry(doc, id, "Count") {
            None => break,
            Some(c) => c,
        };
        let ghost d = objects[id]->Dictionary_0;
        let minimal = match count {
            Some(Entry::Integer(c)) => c == i64::MIN,
            _ => false,
        };
        if minimal || steps == limit {
            proof {
                assert(rest.contains_key(id) && rest[id] == objects[id]);
                assert(!parent_walk_returns(rest, next, (limit - steps) as int));
                assert(parent_walk_returns(rest, start, (limit - steps) as int + steps) == parent_walk_returns(rest, next, (limit - steps) as int));
            }
            return None;
        }
        let parent = match stored_dictionary_entry(doc, id, "Parent") {
            Some(e) => entry_reference(e),
            None => None,
        };
        proof {
            assert(rest.contains_key(id) && rest[id] == objects[id]);
            assert(parent == reference_under(d, name("Parent")));
            assert forall|f: int| f >= 0 implies #[trigger] parent_walk_returns(rest, start, f + (steps + 1)) == parent_walk_returns(rest, parent, f) by {
                assert(parent_walk_returns(rest, start, (f + 1) + steps) == parent_walk_returns(rest, next, f + 1));
                assert(f + (steps + 1) == (f + 1) + steps);
            }
        }
        next = parent;
        steps = steps + 1;
    }
    proof {
        assert(parent_walk_returns(rest, start, (limit - steps) as int + steps) == parent_walk_returns(rest, next, (limit - steps) as int));
        assert((limit - steps) as int + steps == limit);
        assert(parent_walk_returns(rest, next, (limit - steps) as int));
        assert(deletion_returns(objects, trailer, page_number, limit as int));
    }
    Some(remove_page(doc, page_number))
}

/// The last position that holds a reference to `id`.
pub open spec fn last_position(refs: Seq<Option<ObjectId>>, id: ObjectId) -> Option<int>
    decreases refs.len(),
{
    if refs.len() == 0 {
        None
    } else if refs.last() == Some(id) {
        Some(refs.len() - 1)
    } else {
        last_position(refs.drop_last(), id)
    }
}

/// The first position that holds a reference to `id`.
pub open spec fn first_position(refs: Seq<Option<ObjectId>>, id: ObjectId) -> Option<int>
    decreases refs.len(),
{
    if refs.len() == 0 {
        None
    } else {
        match first_position(refs.drop_last(), id) {
            Some(i) => Some(i),
            None => if refs.last() == Some(id) {
                Some(refs.len() - 1)
            } else {
                None
            },
        }
    }
}

/// The array under `Kids`, if there is one.
pub open spec fn kids_of(d: DictMap) -> Option<Seq<PdfValue>> {
    if d.contains_key(name("Kids")) {
        match d[name("Kids")] {
            PdfValue::Array(items) => Some(items),
            _ => None,
        }
    } else {
        None
    }
}

/// The parent of a page, or why it cannot be had.
pub open spec fn page_parent(objects: ObjectMap, page: ObjectId, unreadable: PdfError, orphan: PdfError) -> Result<ObjectId, PdfError> {
    match resolved_dictionary(objects, page) {
        None => Err(unreadable),
        Some((_, d)) => match reference_under(d, name("Parent")) {
            None => Err(orphan),
            Some(parent) => Ok(parent),
        },
    }
}

/// Swapping, in the kids of `parent`, the last reference to `a` with the last
/// reference to `b`, where both are there.
pub open spec fn swap_in_parent(st: DocState, parent: ObjectId, a: ObjectId, b: ObjectId) -> (DocState, Result<(), PdfError>) {
    match resolved_dictionary(st.objects, parent) {
        None => (st, Err(PdfError::UnreadableObject(parent.0, parent.1))),
        Some((target, d)) => match kids_of(d) {
            Some(items) => match (last_position(crate::document::references_in(items), a),
                                  last_position(crate::document::references_in(items), b)) {
                (Some(i), Some(j)) => (DocState {
                    objects: st.objects.insert(target, PdfValue::Dictionary(d.insert(name("Kids"),
                        PdfValue::Array(items.update(i, items[j]).update(j, items[i]))))),
                    ..st
                }, Ok(())),
                _ => (st, Ok(())),
            },
            None => (st, Ok(())),
        },
    }
}

/// Replacing, in the kids of `parent`, the first reference to `old` by one to `new`.
pub open spec fn replace_in_parent(st: DocState, parent: ObjectId, old: ObjectId, new: ObjectId) -> (DocState, Result<(), PdfError>) {
    match resolved_dictionary(st.objects, parent) {
        None => (st, Err(PdfError::UnreadableObject(parent.0, parent.1))),
        Some((target, d)) => match kids_of(d) {
            Some(items) => match first_position(crate::document::references_in(items), old) {
                Some(i) => (DocState {
                    objects: st.objects.insert(target, PdfValue::Dictionary(d.insert(name("Kids"),
                        PdfValue::Array(items.update(i, PdfValue::Reference(new)))))),
                    ..st
                }, Ok(())),
                None => (st, Ok(())),
            },
            None => (st, Ok(())),
        },
    }
}

/// Setting the `Parent` of a page, where it resolves to a dictionary.
pub open spec fn with_parent(st: DocState, page: ObjectId, parent: ObjectId) -> DocState {
    match resolved_dictionary(st.objects, page) {
        Some((target, d)) => DocState {
            objects: st.objects.insert(target, PdfValue::Dictionary(d.insert(name("Parent"), PdfValue::Reference(parent)))),
            ..st
        },
        None => st,
    }
}

/// The document after swapping pages `first` and `second`, and the result.
/// Under one parent, the two references swap places among its kids. Under
/// two parents, each parent's reference to its page is replaced by one to the
/// other page, and each page takes the other's parent.
pub open spec fn swapped(st: DocState, first: u32, second: u32) -> (DocState, Result<(), PdfError>) {
    if first == second {
        (st, Ok(()))
    } else {
        let pages = pdf_pages(st.objects, st.trailer);
        match (page_lookup(pages, first), page_lookup(pages, second)) {
            (None, _) => (st, Err(PdfError::InvalidPageNumber(first))),
            (Some(_), None) => (st, Err(PdfError::InvalidPageNumber(second))),
            (Some(a), Some(b)) => match (
                page_parent(st.objects, a, PdfError::FirstPageUnreadable, PdfError::FirstPageWithoutParent),
                page_parent(st.objects, b, PdfError::SecondPageUnreadable, PdfError::SecondPageWithoutParent),
            ) {
                (Err(e), _) => (st, Err(e)),
                (Ok(_), Err(e)) => (st, Err(e)),
                (Ok(pa), Ok(pb)) => if pa == pb {
                    swap_in_parent(st, pa, a, b)
                } else {
                    let (s1, r1) = replace_in_parent(st, pa, a, b);
                    if r1 is Err {
                        (s1, r1)
                    } else {
                        let (s2, r2) = replace_in_parent(s1, pb, b, a);
                        if r2 is Err {
                            (s2, r2)
                        } else {
                            (with_parent(with_parent(s2, a, pb), b, pa), Ok(()))
                        }
                    }
                },
            },
        }
    }
}

proof fn lemma_take_step<A>(s: Seq<A>, i: int)
    requires
        0 <= i < s.len(),
    ensures
        s.take(i + 1).drop_last() == s.take(i),
        s.take(i + 1).last() == s[i],
{
    assert(s.take(i + 1).drop_last() =~= s.take(i));
}

/// The last position of a reference to `id`.
fn find_last(refs: &Vec<Option<ObjectId>>, id: ObjectId) -> (r: Option<usize>)
    ensures
        r matches Some(i) ==> last_position(refs@, id) == Some(i as int) && i < refs.len(),
        r is None ==> last_position(refs@, id) is None,
{
    let mut found: Option<usize> = None;
    let mut i: usize = 0;
    proof {
        assert(refs@.take(0) =~= Seq::<Option<ObjectId>>::empty());
    }
    while i < refs.len()
        invariant
            i <= refs.len(),
            found matches Some(k) ==> last_position(refs@.take(i as int), id) == Some(k as int) && k < i,
            found is None ==> last_position(refs@.take(i as int), id) is None,
        decreases refs.len() - i,
    {
        proof {
            lemma_take_step(refs@, i as int);
        }
        if let Some(r) = refs[i] {
            if same_object(r, id) {
                found = Some(i);
            }
        }
        i = i + 1;
    }
    proof {
        assert(refs@.take(refs.len() as int) =~= refs@);
    }
    found
}

/// The first position of a reference to `id`.
pub(crate) fn find_first(refs: &Vec<Option<ObjectId>>, id: ObjectId) -> (r: Option<usize>)
    ensures
        r matches Some(i) ==> first_position(refs@, id) == Some(i as int) && i < refs.len(),
        r is None ==> first_position(refs@, id) is None,
{
    let mut found: Option<usize> = None;
    let mut i: usize = 0;
    proof {
        assert(refs@.take(0) =~= Seq::<Option<ObjectId>>::empty());
    }
    while i < refs.len()
        invariant
            i <= refs.len(),
            found matches Some(k) ==> first_position(refs@.take(i as int), id) == Some(k as int) && k < i,
            found is None ==> first_position(refs@.take(i as int), id) is None,
        decreases refs.len() - i,
    {
        proof {
            lemma_take_step(refs@, i as int);
        }
        if found.is_none() {
            if let Some(r) = refs[i] {
                if same_object(r, id) {
                    found = Some(i);
                }
            }
        }
        i = i + 1;
    }
    proof {
        assert(refs@.take(refs.len() as int) =~= refs@);
    }
    found
}

/// In the kids of `parent`, replaces the first reference to `old_kid` by one to `new_kid`.
fn replace_kid(doc: &mut lopdf::Document, parent: ObjectId, old_kid: ObjectId, new_kid: ObjectId) -> (r: Result<(), PdfError>)
    ensures
        replace_in_parent(state_of(*old(doc)), parent, old_kid, new_kid) == (state_of(*final(doc)), r),
        kept_or_follows(*old(doc), *final(doc)),
{
    let kids = match dictionary_entry(doc, parent, "Kids") {
        Err(_) => return Err(PdfError::UnreadableObject(parent.0, parent.1)),
        Ok(e) => e,
    };
    if let Some(Entry::Array(refs)) = kids {
        if let Some(i) = find_first(&refs, old_kid) {
            let _ = set_array_entry(doc, parent, "Kids", i, PdfObject::Reference(new_kid));
        }
    }
    Ok(())
}

/// Swaps pages `page1` and `page2` (counted from 1). Where both have the same
/// parent, their references swap places among its kids; otherwise each
/// parent's reference to its page now leads to the other page, and the two
/// pages exchange their parents.
pub fn swap_pages(doc: &mut lopdf::Document, page1: u32, page2: u32) -> (r: Result<(), PdfError>)
    ensures
        swapped(state_of(*old(doc)), page1, page2) == (state_of(*final(doc)), r),
        kept_or_follows(*old(doc), *final(doc)),
{
    if page1 == page2 {
        return Ok(());
    }
    let pages = page_entries(doc);
    let pid1 = match find_page(&pages, page1) {
        Some(id) => id,
        None => return Err(PdfError::InvalidPageNumber(page1)),
    };
    let pid2 = match find_page(&pages, page2) {
        Some(id) => id,
        None => return Err(PdfError::InvalidPageNumber(page2)),
    };
    let parent1 = match dictionary_entry(doc, pid1, "Parent") {
        Ok(Some(Entry::Reference(p))) => p,
        Ok(_) => return Err(PdfError::FirstPageWithoutParent),
        Err(_) => return Err(PdfError::FirstPageUnreadable),
    };
    let parent2 = match dictionary_entry(doc, pid2, "Parent") {
        Ok(Some(Entry::Reference(p))) => p,
        Ok(_) => return Err(PdfError::SecondPageWithoutParent),
        Err(_) => return Err(PdfError::SecondPageUnreadable),
    };
    if same_object(parent1, parent2) {
        let kids = match dictionary_entry(doc, parent1, "Kids") {
            Err(_) => return Err(PdfError::UnreadableObject(parent1.0, parent1.1)),
            Ok(e) => e,
        };
        if let Some(Entry::Array(refs)) = kids {
            let idx1 = find_last(&refs, pid1);
            let idx2 = find_last(&refs, pid2);
            if let (Some(i1), Some(i2)) = (idx1, idx2) {
                let _ = swap_array_entries(doc, parent1, "Kids", i1, i2);
            }
        }
    } else {
        replace_kid(doc, parent1, pid1, pid2)?;
        replace_kid(doc, parent2, pid2, pid1)?;
        let _ = set_dictionary_entry(doc, pid1, "Parent", PdfObject::Reference(parent2));
        let _ = set_dictionary_entry(doc, pid2, "Parent", PdfObject::Reference(parent1));
    }
    Ok(())
}

} // verus!
