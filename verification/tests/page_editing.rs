use base64::engine::general_purpose::STANDARD;
use base64::Engine;
use img_to_pdf::{create_pdf, insert_pages, remove_page, swap_pages, ImageData};
use lopdf::{Dictionary, Document, Object};

fn create_dummy_image() -> ImageData {
    let b64 = "iVBORw0KGgoAAAANSUhEUgAAAAEAAAABCAQAAAC1HAwCAAAAC0lEQVR42mNkYAAAAAYAAjCB0C8AAAAASUVORK5CYII=";
    ImageData {
        data: STANDARD.decode(b64).unwrap(),
        width: 1,
        height: 1,
        orientation: 1,
    }
}

#[test]
fn test_swap_pages() {
    let mut doc = Document::with_version("1.5");
    let pages_id = doc.new_object_id();
    let catalog_id = doc.add_object(Dictionary::from_iter(vec![
        ("Type", Object::Name(b"Catalog".to_vec())),
        ("Pages", Object::Reference(pages_id)),
    ]));
    doc.trailer.set("Root", catalog_id);

    let mut page_ids = vec![];
    for _ in 0..3 {
        let page_dict = Dictionary::from_iter(vec![
            ("Type", Object::Name(b"Page".to_vec())),
            ("Parent", Object::Reference(pages_id)),
        ]);
        page_ids.push(Object::Reference(doc.add_object(page_dict)));
    }

    doc.objects.insert(
        pages_id,
        Dictionary::from_iter(vec![
            ("Type", Object::Name(b"Pages".to_vec())),
            ("Kids", Object::Array(page_ids.clone())),
            ("Count", 3.into()),
        ])
        .into(),
    );

    // Ensure get_pages works
    assert_eq!(doc.get_pages().len(), 3);

    // Remove page 2
    remove_page(&mut doc, 2).unwrap();
    assert_eq!(doc.get_pages().len(), 2);

    // Swap page 1 and 2
    swap_pages(&mut doc, 1, 2).unwrap();
    assert_eq!(doc.get_pages().len(), 2);
}

#[test]
fn test_cli_sequence() {
    let dummy_img = create_dummy_image();

    // 1. Create
    let mut doc = create_pdf(&[dummy_img]).unwrap();
    let mut out = Vec::new();
    doc.save_to(&mut out).unwrap();

    // 2. Insert at index 1
    let dummy2 = create_dummy_image();
    let mut doc = Document::load_mem(&out).unwrap();
    insert_pages(&mut doc, &[dummy2], 1).unwrap();
    let mut out2 = Vec::new();
    doc.save_to(&mut out2).unwrap();

    // 3. Insert at index 2
    let dummy3 = create_dummy_image();
    let mut doc = Document::load_mem(&out2).unwrap();
    insert_pages(&mut doc, &[dummy3], 2).unwrap();
    let mut out3 = Vec::new();
    doc.save_to(&mut out3).unwrap();

    // 4. Remove page 2
    let mut doc = Document::load_mem(&out3).unwrap();
    remove_page(&mut doc, 2).unwrap();
    let mut out4 = Vec::new();
    doc.save_to(&mut out4).unwrap();

    // 5. Swap
    let mut doc = Document::load_mem(&out4).unwrap();
    swap_pages(&mut doc, 1, 2).unwrap();
}
