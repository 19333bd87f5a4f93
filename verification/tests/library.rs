use base64::engine::general_purpose::STANDARD;
use base64::Engine;
use img_to_pdf::{
    create_pdf, image_from_jpeg, image_from_other, image_orientation, insert_pages, is_jpeg,
    remove_page, swap_pages, try_insert_pages, try_remove_page, ImageData, ImageError, PdfError,
};
use lopdf::{Dictionary, Document, Object, ObjectId};

const PNG_1X1: &str = "iVBORw0KGgoAAAANSUhEUgAAAAEAAAABCAQAAAC1HAwCAAAAC0lEQVR42mNkYAAAAAYAAjCB0C8AAAAASUVORK5CYII=";

fn png_image(width: u32, height: u32, orientation: u16) -> ImageData {
    ImageData {
        data: STANDARD.decode(PNG_1X1).unwrap(),
        width,
        height,
        orientation,
    }
}

/// A document whose page tree root holds `n` pages directly.
fn flat_document(n: usize) -> (Document, ObjectId, Vec<ObjectId>) {
    let mut doc = Document::with_version("1.5");
    let pages_id = doc.new_object_id();
    let catalog_id = doc.add_object(Dictionary::from_iter(vec![
        ("Type", Object::Name(b"Catalog".to_vec())),
        ("Pages", Object::Reference(pages_id)),
    ]));
    doc.trailer.set("Root", catalog_id);
    let mut ids = vec![];
    for _ in 0..n {
        ids.push(doc.add_object(Dictionary::from_iter(vec![
            ("Type", Object::Name(b"Page".to_vec())),
            ("Parent", Object::Reference(pages_id)),
        ])));
    }
    let kids: Vec<Object> = ids.iter().map(|id| Object::Reference(*id)).collect();
    doc.objects.insert(
        pages_id,
        Dictionary::from_iter(vec![
            ("Type", Object::Name(b"Pages".to_vec())),
            ("Kids", Object::Array(kids)),
            ("Count", (n as i64).into()),
        ])
        .into(),
    );
    (doc, pages_id, ids)
}

fn page_list(doc: &Document) -> Vec<ObjectId> {
    doc.get_pages().into_values().collect()
}

fn dictionary(doc: &Document, id: ObjectId) -> &Dictionary {
    doc.get_object(id).unwrap().as_dict().unwrap()
}

fn count_of(doc: &Document, id: ObjectId) -> i64 {
    dictionary(doc, id).get(b"Count").unwrap().as_i64().unwrap()
}

#[test]
fn created_document_lists_pages_in_image_order() {
    let doc = create_pdf(&[png_image(10, 20, 1), png_image(30, 40, 1)]).unwrap();
    // The page tree root is object 1, the catalog 2; each image takes three objects.
    assert_eq!(page_list(&doc), vec![(5, 0), (8, 0)]);
    assert_eq!(doc.trailer.get(b"Root").unwrap().as_reference().unwrap(), (2, 0));
    assert_eq!(count_of(&doc, (1, 0)), 2);
    assert_eq!(doc.max_id, 8);
    let first = dictionary(&doc, (5, 0));
    assert_eq!(first.get(b"Parent").unwrap().as_reference().unwrap(), (1, 0));
    assert_eq!(first.get(b"Contents").unwrap().as_reference().unwrap(), (4, 0));
    let media_box: Vec<i64> = first.get(b"MediaBox").unwrap().as_array().unwrap().iter().map(|o| o.as_i64().unwrap()).collect();
    assert_eq!(media_box, vec![0, 0, 10, 20]);
    let resources = first.get(b"Resources").unwrap().as_dict().unwrap();
    let xobjects = resources.get(b"XObject").unwrap().as_dict().unwrap();
    assert_eq!(xobjects.get(b"Im3").unwrap().as_reference().unwrap(), (3, 0));
    assert!(first.get(b"Rotate").is_err());
    let second = dictionary(&doc, (8, 0));
    let xobjects = second.get(b"Resources").unwrap().as_dict().unwrap().get(b"XObject").unwrap().as_dict().unwrap();
    assert_eq!(xobjects.get(b"Im6").unwrap().as_reference().unwrap(), (6, 0));
}

#[test]
fn created_page_draws_its_image_over_the_page() {
    let doc = create_pdf(&[png_image(10, 20, 1)]).unwrap();
    let content = doc.get_object((4, 0)).unwrap().as_stream().unwrap();
    assert_eq!(content.content, b"q\n10 0 0 20 0 0 cm\n/Im3 Do\nQ".to_vec());
    assert_eq!(content.dict.get(b"Length").unwrap().as_i64().unwrap(), content.content.len() as i64);
    let image = doc.get_object((3, 0)).unwrap().as_stream().unwrap();
    assert_eq!(image.dict.get(b"Subtype").unwrap().as_name().unwrap(), b"Image");
}

#[test]
fn created_page_turns_by_exif_orientation() {
    let doc = create_pdf(&[png_image(1, 1, 6), png_image(1, 1, 3), png_image(1, 1, 8), png_image(1, 1, 2)]).unwrap();
    let rotations: Vec<Option<i64>> = page_list(&doc)
        .iter()
        .map(|id| dictionary(&doc, *id).get(b"Rotate").ok().map(|o| o.as_i64().unwrap()))
        .collect();
    assert_eq!(rotations, vec![Some(90), Some(180), Some(270), None]);
}

#[test]
fn create_refuses_an_image_it_cannot_embed() {
    let bad = ImageData { data: b"not an image".to_vec(), width: 1, height: 1, orientation: 1 };
    assert_eq!(create_pdf(&[png_image(1, 1, 1), bad]).err(), Some(PdfError::ImageNotEmbeddable));
}

#[test]
fn create_of_no_images_has_an_empty_page_tree() {
    let doc = create_pdf(&[]).unwrap();
    assert!(page_list(&doc).is_empty());
    assert_eq!(count_of(&doc, (1, 0)), 0);
}

#[test]
fn insert_places_pages_before_the_given_page() {
    let (mut doc, root, ids) = flat_document(3);
    insert_pages(&mut doc, &[png_image(1, 1, 1), png_image(1, 1, 1)], 2).unwrap();
    // Objects 1 to 5 were there; the new pages are 8 and 11.
    assert_eq!(page_list(&doc), vec![ids[0], (8, 0), (11, 0), ids[1], ids[2]]);
    assert_eq!(count_of(&doc, root), 5);
}

#[test]
fn insert_clamps_the_start_to_the_pages() {
    let (mut doc, _, ids) = flat_document(2);
    insert_pages(&mut doc, &[png_image(1, 1, 1)], 0).unwrap();
    assert_eq!(page_list(&doc), vec![(7, 0), ids[0], ids[1]]);
    insert_pages(&mut doc, &[png_image(1, 1, 1)], 99).unwrap();
    assert_eq!(page_list(&doc), vec![(7, 0), ids[0], ids[1], (10, 0)]);
}

#[test]
fn insert_of_no_images_changes_nothing() {
    let (mut doc, _, ids) = flat_document(2);
    insert_pages(&mut doc, &[], 1).unwrap();
    assert_eq!(page_list(&doc), ids);
    assert_eq!(doc.max_id, 4);
}

#[test]
fn insert_without_catalog_is_refused() {
    let mut doc = Document::with_version("1.5");
    assert_eq!(insert_pages(&mut doc, &[png_image(1, 1, 1)], 1), Err(PdfError::MissingCatalog));
    assert_eq!(doc.max_id, 0);
}

#[test]
fn insert_with_unreadable_catalog_is_refused() {
    let mut doc = Document::with_version("1.5");
    doc.trailer.set("Root", Object::Reference((7, 0)));
    assert_eq!(insert_pages(&mut doc, &[png_image(1, 1, 1)], 1), Err(PdfError::UnreadableObject(7, 0)));
}

#[test]
fn insert_without_page_tree_is_refused() {
    let mut doc = Document::with_version("1.5");
    let catalog = doc.add_object(Dictionary::from_iter(vec![("Type", Object::Name(b"Catalog".to_vec()))]));
    doc.trailer.set("Root", catalog);
    assert_eq!(insert_pages(&mut doc, &[png_image(1, 1, 1)], 1), Err(PdfError::MissingPageTree));
}

#[test]
fn insert_with_an_image_it_cannot_embed_is_refused() {
    let (mut doc, _, ids) = flat_document(1);
    let bad = ImageData { data: vec![1, 2, 3], width: 1, height: 1, orientation: 1 };
    assert_eq!(insert_pages(&mut doc, &[bad], 1), Err(PdfError::ImageNotEmbeddable));
    assert_eq!(page_list(&doc), ids);
}

#[test]
fn try_insert_inserts_where_it_fits() {
    let (mut doc, _, ids) = flat_document(1);
    assert_eq!(try_insert_pages(&mut doc, &[png_image(1, 1, 1)], 2), Some(Ok(())));
    assert_eq!(page_list(&doc), vec![ids[0], (6, 0)]);
}

#[test]
fn try_insert_refuses_what_would_overflow_the_object_numbers() {
    let (mut doc, _, ids) = flat_document(1);
    doc.max_id = u32::MAX - 2;
    assert_eq!(try_insert_pages(&mut doc, &[png_image(1, 1, 1)], 1), None);
    assert_eq!(page_list(&doc), ids);
}

#[test]
fn try_insert_refuses_what_would_overflow_the_count() {
    let (mut doc, root, _) = flat_document(1);
    doc.get_object_mut(root).unwrap().as_dict_mut().unwrap().set("Count", i64::MAX);
    assert_eq!(try_insert_pages(&mut doc, &[png_image(1, 1, 1)], 1), None);
}

#[test]
fn remove_takes_the_page_out() {
    let (mut doc, root, ids) = flat_document(3);
    remove_page(&mut doc, 2).unwrap();
    assert_eq!(page_list(&doc), vec![ids[0], ids[2]]);
    assert_eq!(count_of(&doc, root), 2);
    assert!(doc.get_object(ids[1]).is_err());
}

#[test]
fn remove_refuses_a_page_that_does_not_exist() {
    let (mut doc, _, ids) = flat_document(2);
    assert_eq!(remove_page(&mut doc, 3), Err(PdfError::NoSuchPage(3)));
    assert_eq!(remove_page(&mut doc, 0), Err(PdfError::NoSuchPage(0)));
    assert_eq!(page_list(&doc), ids);
}

#[test]
fn remove_refuses_the_only_page() {
    let (mut doc, _, ids) = flat_document(1);
    assert_eq!(remove_page(&mut doc, 1), Err(PdfError::LastPage(1)));
    assert_eq!(page_list(&doc), ids);
}

#[test]
fn try_remove_removes_where_the_walk_returns() {
    let (mut doc, _, ids) = flat_document(2);
    assert_eq!(try_remove_page(&mut doc, 1), Some(Ok(())));
    assert_eq!(page_list(&doc), vec![ids[1]]);
}

#[test]
fn try_remove_refuses_a_parent_cycle() {
    let (mut doc, root, ids) = flat_document(2);
    doc.get_object_mut(root).unwrap().as_dict_mut().unwrap().set("Parent", Object::Reference(root));
    assert_eq!(try_remove_page(&mut doc, 1), None);
    assert_eq!(page_list(&doc), ids);
}

#[test]
fn try_remove_refuses_a_count_at_its_minimum() {
    let (mut doc, root, _) = flat_document(2);
    doc.get_object_mut(root).unwrap().as_dict_mut().unwrap().set("Count", i64::MIN);
    assert_eq!(try_remove_page(&mut doc, 1), None);
}

#[test]
fn swap_exchanges_pages_under_one_parent() {
    let (mut doc, _, ids) = flat_document(3);
    swap_pages(&mut doc, 1, 3).unwrap();
    assert_eq!(page_list(&doc), vec![ids[2], ids[1], ids[0]]);
}

#[test]
fn swap_twice_restores_the_order() {
    let (mut doc, _, ids) = flat_document(4);
    swap_pages(&mut doc, 2, 4).unwrap();
    swap_pages(&mut doc, 2, 4).unwrap();
    assert_eq!(page_list(&doc), ids);
}

#[test]
fn swap_of_a_page_with_itself_changes_nothing() {
    let (mut doc, _, ids) = flat_document(2);
    swap_pages(&mut doc, 2, 2).unwrap();
    swap_pages(&mut doc, 9, 9).unwrap();
    assert_eq!(page_list(&doc), ids);
}

#[test]
fn swap_refuses_pages_that_do_not_exist() {
    let (mut doc, _, _) = flat_document(2);
    assert_eq!(swap_pages(&mut doc, 3, 1), Err(PdfError::InvalidPageNumber(3)));
    assert_eq!(swap_pages(&mut doc, 1, 3), Err(PdfError::InvalidPageNumber(3)));
}

#[test]
fn swap_refuses_pages_without_parent() {
    let (mut doc, _, ids) = flat_document(2);
    doc.get_object_mut(ids[0]).unwrap().as_dict_mut().unwrap().remove(b"Parent");
    assert_eq!(swap_pages(&mut doc, 1, 2), Err(PdfError::FirstPageWithoutParent));
    assert_eq!(swap_pages(&mut doc, 2, 1), Err(PdfError::SecondPageWithoutParent));
}

#[test]
fn swap_refuses_unreadable_pages() {
    let (mut doc, root, ids) = flat_document(2);
    doc.objects.remove(&ids[1]);
    // The page iterator keeps a kid that cannot be loaded as a page.
    assert_eq!(page_list(&doc), ids);
    assert_eq!(swap_pages(&mut doc, 2, 1), Err(PdfError::FirstPageUnreadable));
    assert_eq!(swap_pages(&mut doc, 1, 2), Err(PdfError::SecondPageUnreadable));
    let _ = root;
}

#[test]
fn swap_across_parents_exchanges_kids_and_parents() {
    // Root -> [A, B]; A -> [p1]; B -> [p2].
    let mut doc = Document::with_version("1.5");
    let root = doc.new_object_id();
    let a = doc.new_object_id();
    let b = doc.new_object_id();
    let catalog = doc.add_object(Dictionary::from_iter(vec![
        ("Type", Object::Name(b"Catalog".to_vec())),
        ("Pages", Object::Reference(root)),
    ]));
    doc.trailer.set("Root", catalog);
    let p1 = doc.add_object(Dictionary::from_iter(vec![
        ("Type", Object::Name(b"Page".to_vec())),
        ("Parent", Object::Reference(a)),
    ]));
    let p2 = doc.add_object(Dictionary::from_iter(vec![
        ("Type", Object::Name(b"Page".to_vec())),
        ("Parent", Object::Reference(b)),
    ]));
    for (node, kid) in [(a, p1), (b, p2)] {
        doc.objects.insert(node, Dictionary::from_iter(vec![
            ("Type", Object::Name(b"Pages".to_vec())),
            ("Parent", Object::Reference(root)),
            ("Kids", Object::Array(vec![Object::Reference(kid)])),
            ("Count", 1.into()),
        ]).into());
    }
    doc.objects.insert(root, Dictionary::from_iter(vec![
        ("Type", Object::Name(b"Pages".to_vec())),
        ("Kids", Object::Array(vec![Object::Reference(a), Object::Reference(b)])),
        ("Count", 2.into()),
    ]).into());
    assert_eq!(page_list(&doc), vec![p1, p2]);
    swap_pages(&mut doc, 1, 2).unwrap();
    assert_eq!(page_list(&doc), vec![p2, p1]);
    assert_eq!(dictionary(&doc, p1).get(b"Parent").unwrap().as_reference().unwrap(), b);
    assert_eq!(dictionary(&doc, p2).get(b"Parent").unwrap().as_reference().unwrap(), a);
}

/// A JPEG whose EXIF data holds only an `Orientation` of `value`.
fn jpeg_with_orientation(value: u8) -> Vec<u8> {
    let mut bytes = vec![0xFF, 0xD8, 0xFF, 0xE1, 0x00, 0x22];
    bytes.extend_from_slice(b"Exif\0\0");
    bytes.extend_from_slice(&[b'I', b'I', 0x2A, 0x00, 0x08, 0x00, 0x00, 0x00]);
    bytes.extend_from_slice(&[0x01, 0x00, 0x12, 0x01, 0x03, 0x00, 0x01, 0x00, 0x00, 0x00, value, 0x00, 0x00, 0x00]);
    bytes.extend_from_slice(&[0x00, 0x00, 0x00, 0x00]);
    bytes.extend_from_slice(&[0xFF, 0xD9]);
    bytes
}

#[test]
fn orientation_is_read_from_exif() {
    assert_eq!(image_orientation(&jpeg_with_orientation(6)), 6);
    assert_eq!(image_orientation(&jpeg_with_orientation(3)), 3);
}

#[test]
fn orientation_defaults_to_upright() {
    assert_eq!(image_orientation(&STANDARD.decode(PNG_1X1).unwrap()), 1);
    assert_eq!(image_orientation(&b"no image here".to_vec()), 1);
}

#[test]
fn jpeg_is_told_by_its_first_bytes() {
    assert!(is_jpeg(&[0xFF, 0xD8, 0xFF]));
    assert!(!is_jpeg(&[0xFF]));
    assert!(!is_jpeg(&STANDARD.decode(PNG_1X1).unwrap()));
}

#[test]
fn jpeg_keeps_its_bytes() {
    let data = jpeg_with_orientation(8);
    let img = image_from_jpeg(data.clone(), 640, 480);
    assert_eq!(img.data, data);
    assert_eq!((img.width, img.height, img.orientation), (640, 480, 8));
}

#[test]
fn other_formats_become_jpeg() {
    let png = STANDARD.decode(PNG_1X1).unwrap();
    let img = image_from_other(png.clone()).unwrap();
    assert_ne!(img.data, png);
    assert!(is_jpeg(&img.data));
    assert_eq!((img.width, img.height, img.orientation), (1, 1, 1));
}

#[test]
fn undecodable_bytes_are_refused() {
    assert_eq!(image_from_other(b"garbage".to_vec()).err(), Some(ImageError::Undecodable));
}

#[test]
fn try_remove_answers_last_page_without_walking() {
    let (mut doc, root, ids) = flat_document(1);
    doc.get_object_mut(root).unwrap().as_dict_mut().unwrap().set("Parent", Object::Reference(root));
    assert_eq!(try_remove_page(&mut doc, 1), Some(Err(PdfError::LastPage(1))));
    assert_eq!(page_list(&doc), ids);
}

#[test]
fn removal_keeps_parents_and_count_right() {
    let (mut doc, root, ids) = flat_document(3);
    remove_page(&mut doc, 1).unwrap();
    assert_eq!(page_list(&doc), vec![ids[1], ids[2]]);
    assert_eq!(count_of(&doc, root), 2);
    for id in &ids[1..] {
        assert_eq!(dictionary(&doc, *id).get(b"Parent").unwrap().as_reference().unwrap(), root);
    }
    assert!(dictionary(&doc, root).get(b"Parent").is_err());
}

#[test]
fn swapping_twice_restores_the_order() {
    let (mut doc, _, ids) = flat_document(4);
    swap_pages(&mut doc, 1, 4).unwrap();
    swap_pages(&mut doc, 1, 4).unwrap();
    assert_eq!(page_list(&doc), ids);
}

#[test]
fn swap_order_of_page_numbers_does_not_matter() {
    let (mut first, _, _) = flat_document(4);
    let (mut second, _, _) = flat_document(4);
    swap_pages(&mut first, 2, 4).unwrap();
    swap_pages(&mut second, 4, 2).unwrap();
    assert_eq!(page_list(&first), page_list(&second));
}

#[test]
fn insertion_at_zero_goes_first_and_past_the_end_goes_last() {
    let (mut doc, _, ids) = flat_document(2);
    insert_pages(&mut doc, &[png_image(1, 1, 1)], 0).unwrap();
    assert_eq!(page_list(&doc), vec![(7, 0), ids[0], ids[1]]);
    insert_pages(&mut doc, &[png_image(1, 1, 1)], 99).unwrap();
    assert_eq!(page_list(&doc), vec![(7, 0), ids[0], ids[1], (10, 0)]);
}

#[test]
fn removing_an_inserted_page_restores_the_order() {
    let (mut doc, root, ids) = flat_document(3);
    insert_pages(&mut doc, &[png_image(1, 1, 1)], 2).unwrap();
    assert_eq!(page_list(&doc).len(), 4);
    remove_page(&mut doc, 2).unwrap();
    assert_eq!(page_list(&doc), ids);
    assert_eq!(count_of(&doc, root), 3);
}

#[test]
fn created_document_declares_version_one_point_five() {
    let doc = create_pdf(&[png_image(1, 1, 1)]).unwrap();
    assert_eq!(doc.version, "1.5");
}

#[test]
fn content_stream_scales_and_draws_the_image() {
    let doc = create_pdf(&[png_image(10, 20, 1)]).unwrap();
    let stream = doc.get_object((4, 0)).unwrap().as_stream().unwrap();
    assert_eq!(stream.content, b"q\n10 0 0 20 0 0 cm\n/Im3 Do\nQ".to_vec());
}

/// A page tree of two levels: the root's kids are two nodes, the first with
/// pages A and B, the second with page C.
fn nested_document() -> (Document, ObjectId, ObjectId, ObjectId, Vec<ObjectId>) {
    let mut doc = Document::with_version("1.5");
    let root = doc.new_object_id();
    let first = doc.new_object_id();
    let second = doc.new_object_id();
    let catalog = doc.add_object(Dictionary::from_iter(vec![
        ("Type", Object::Name(b"Catalog".to_vec())),
        ("Pages", Object::Reference(root)),
    ]));
    doc.trailer.set("Root", catalog);
    let page = |doc: &mut Document, parent: ObjectId| {
        doc.add_object(Dictionary::from_iter(vec![
            ("Type", Object::Name(b"Page".to_vec())),
            ("Parent", Object::Reference(parent)),
        ]))
    };
    let a = page(&mut doc, first);
    let b = page(&mut doc, first);
    let c = page(&mut doc, second);
    let node = |kids: Vec<ObjectId>, parent: ObjectId| -> Object {
        let count = kids.len() as i64;
        Dictionary::from_iter(vec![
            ("Type", Object::Name(b"Pages".to_vec())),
            ("Kids", Object::Array(kids.into_iter().map(Object::Reference).collect())),
            ("Count", count.into()),
            ("Parent", Object::Reference(parent)),
        ])
        .into()
    };
    doc.objects.insert(first, node(vec![a, b], root));
    doc.objects.insert(second, node(vec![c], root));
    doc.objects.insert(
        root,
        Dictionary::from_iter(vec![
            ("Type", Object::Name(b"Pages".to_vec())),
            ("Kids", Object::Array(vec![Object::Reference(first), Object::Reference(second)])),
            ("Count", 3.into()),
        ])
        .into(),
    );
    (doc, root, first, second, vec![a, b, c])
}

#[test]
fn insertion_into_a_nested_tree_lands_at_the_page_number() {
    let (mut doc, root, first, second, pages) = nested_document();
    assert_eq!(page_list(&doc), pages);
    insert_pages(&mut doc, &[png_image(1, 1, 1)], 2).unwrap();
    let new_page = (doc.max_id, 0);
    assert_eq!(page_list(&doc), vec![pages[0], new_page, pages[1], pages[2]]);
    assert_eq!(dictionary(&doc, new_page).get(b"Parent").unwrap().as_reference().unwrap(), first);
    assert_eq!(count_of(&doc, first), 3);
    assert_eq!(count_of(&doc, second), 1);
    assert_eq!(count_of(&doc, root), 4);
}

#[test]
fn insertion_into_a_nested_tree_before_a_later_node_page() {
    let (mut doc, root, _, second, pages) = nested_document();
    insert_pages(&mut doc, &[png_image(1, 1, 1), png_image(1, 1, 1)], 3).unwrap();
    let list = page_list(&doc);
    assert_eq!(list.len(), 5);
    assert_eq!(list[0], pages[0]);
    assert_eq!(list[1], pages[1]);
    assert_eq!(list[4], pages[2]);
    assert_eq!(count_of(&doc, second), 3);
    assert_eq!(count_of(&doc, root), 5);
}

#[test]
fn insertion_past_the_end_of_a_nested_tree_appends() {
    let (mut doc, root, _, _, pages) = nested_document();
    insert_pages(&mut doc, &[png_image(1, 1, 1)], 9).unwrap();
    let new_page = (doc.max_id, 0);
    assert_eq!(page_list(&doc), vec![pages[0], pages[1], pages[2], new_page]);
    assert_eq!(dictionary(&doc, new_page).get(b"Parent").unwrap().as_reference().unwrap(), root);
    assert_eq!(count_of(&doc, root), 4);
}

#[test]
fn removal_from_a_nested_tree_keeps_the_other_pages_and_counts() {
    let (mut doc, root, first, second, pages) = nested_document();
    remove_page(&mut doc, 2).unwrap();
    assert_eq!(page_list(&doc), vec![pages[0], pages[2]]);
    assert_eq!(count_of(&doc, first), 1);
    assert_eq!(count_of(&doc, second), 1);
    assert_eq!(count_of(&doc, root), 2);
}

#[test]
fn removing_an_inserted_page_of_a_nested_tree_restores_its_pages() {
    let (mut doc, root, _, _, pages) = nested_document();
    insert_pages(&mut doc, &[png_image(1, 1, 1)], 3).unwrap();
    assert_eq!(page_list(&doc).len(), 4);
    remove_page(&mut doc, 3).unwrap();
    assert_eq!(page_list(&doc), pages);
    assert_eq!(count_of(&doc, root), 3);
}

#[test]
fn start_zero_and_one_insert_alike_in_a_nested_tree() {
    let (mut zero, _, _, _, _) = nested_document();
    let (mut one, _, _, _, _) = nested_document();
    insert_pages(&mut zero, &[png_image(1, 1, 1)], 0).unwrap();
    insert_pages(&mut one, &[png_image(1, 1, 1)], 1).unwrap();
    assert_eq!(page_list(&zero), page_list(&one));
}

#[test]
fn swap_across_nodes_of_a_nested_tree() {
    let (mut doc, _, first, second, pages) = nested_document();
    swap_pages(&mut doc, 1, 3).unwrap();
    assert_eq!(page_list(&doc), vec![pages[2], pages[1], pages[0]]);
    assert_eq!(dictionary(&doc, pages[0]).get(b"Parent").unwrap().as_reference().unwrap(), second);
    assert_eq!(dictionary(&doc, pages[2]).get(b"Parent").unwrap().as_reference().unwrap(), first);
    swap_pages(&mut doc, 1, 3).unwrap();
    assert_eq!(page_list(&doc), pages);
}

#[test]
fn swap_order_does_not_matter_in_a_nested_tree() {
    let (mut one, _, _, _, _) = nested_document();
    let (mut other, _, _, _, _) = nested_document();
    swap_pages(&mut one, 2, 3).unwrap();
    swap_pages(&mut other, 3, 2).unwrap();
    assert_eq!(page_list(&one), page_list(&other));
}
