use pdf_pages::document::Document;
use pdf_pages::error::{ErrorKind, PdfError};
use pdf_pages::extractor::extract_pdf_page;
use pdf_pages::merger::{append_pages, merge_pdfs, MergeInput};
use pdf_pages::object::{Dictionary, Object, ObjectId, Stream};
use pdf_pages::page_tree::{assemble, find_page_tree, listed_pages};
use pdf_pages::remover::delete_pages;
use pdf_pages::rotator::{rotate_pdf, turn};
use pdf_pages::splitter::split_pdf;

fn name(text: &str) -> Object {
    Object::Name(text.as_bytes().to_vec())
}

fn dict(entries: Vec<(&str, Object)>) -> Dictionary {
    let mut dict = Dictionary::new();
    for (key, value) in entries {
        dict.set(key.as_bytes().to_vec(), value);
    }
    dict
}

/// A document with a shared font and resources and `num_pages` pages of
/// text, and the identifiers of its pages in their order.
fn create_minimal_pdf(num_pages: u32, text_prefix: &str) -> (Document, Vec<ObjectId>) {
    let mut doc = Document::with_version("1.5");
    let pages_id = doc.new_object_id().unwrap();
    let font_id = doc
        .add_object(Object::Dictionary(dict(vec![
            ("Type", name("Font")),
            ("Subtype", name("Type1")),
            ("BaseFont", name("Helvetica")),
        ])))
        .unwrap();
    let resources_id = doc
        .add_object(Object::Dictionary(dict(vec![
            (
                "Font",
                Object::Dictionary(dict(vec![("F1", Object::Reference(font_id))])),
            ),
            ("ProcSet", Object::Array(vec![name("PDF"), name("Text")])),
        ])))
        .unwrap();
    let mut kids = Vec::new();
    let mut pages = Vec::new();
    for i in 1..=num_pages {
        let content = format!("BT /F1 12 Tf 100 700 Td ({}-Page {}) Tj ET", text_prefix, i);
        let content_id = doc
            .add_object(Object::Stream(Stream::new(Dictionary::new(), content.into_bytes())))
            .unwrap();
        let page = dict(vec![
            ("Type", name("Page")),
            ("Parent", Object::Reference(pages_id)),
            (
                "MediaBox",
                Object::Array(vec![
                    Object::Integer(0),
                    Object::Integer(0),
                    Object::Integer(612),
                    Object::Integer(792),
                ]),
            ),
            ("Contents", Object::Reference(content_id)),
            ("Resources", Object::Reference(resources_id)),
        ]);
        let page_id = doc.add_object(Object::Dictionary(page)).unwrap();
        kids.push(Object::Reference(page_id));
        pages.push(page_id);
    }
    doc.insert_object(
        pages_id,
        Object::Dictionary(dict(vec![
            ("Type", name("Pages")),
            ("Kids", Object::Array(kids)),
            ("Count", Object::Integer(num_pages as i64)),
        ])),
    );
    let catalog_id = doc
        .add_object(Object::Dictionary(dict(vec![
            ("Type", name("Catalog")),
            ("Pages", Object::Reference(pages_id)),
        ])))
        .unwrap();
    doc.set_trailer(b"Root".to_vec(), Object::Reference(catalog_id));
    (doc, pages)
}

fn page_dict(doc: &Document, id: ObjectId) -> &Dictionary {
    doc.get_object(id).unwrap().as_dict().unwrap()
}

fn count_of(doc: &Document) -> i64 {
    let tree = find_page_tree(doc).unwrap();
    page_dict(doc, tree).get(b"Count").unwrap().as_i64().unwrap()
}

fn rotation_of(doc: &Document, id: ObjectId) -> Option<i64> {
    page_dict(doc, id).get(b"Rotate").and_then(|o| o.as_i64())
}

fn references_in(object: &Object, found: &mut Vec<ObjectId>) {
    match object {
        Object::Reference(id) => found.push(*id),
        Object::Array(items) => {
            for item in items {
                references_in(item, found);
            }
        }
        Object::Dictionary(dict) => {
            for i in 0..dict.len() {
                references_in(dict.value_at(i), found);
            }
        }
        Object::Stream(stream) => {
            for i in 0..stream.dict.len() {
                references_in(stream.dict.value_at(i), found);
            }
        }
        _ => {}
    }
}

#[test]
fn test_extract_pdf_page_success() {
    let (doc, pages) = create_minimal_pdf(3, "Sample");
    let page_to_extract = 1;

    let result = extract_pdf_page(&doc, &pages, page_to_extract);

    assert!(result.is_ok(), "extract_pdf_page failed: {:?}", result.err());
    let output_doc = result.unwrap();
    assert_eq!(
        listed_pages(&output_doc).unwrap().len(),
        1,
        "Output PDF does not have exactly one page."
    );
}

#[test]
fn test_extract_pdf_page_not_found() {
    let (doc, pages) = create_minimal_pdf(3, "Sample");
    let page_to_extract = 5;

    let result = extract_pdf_page(&doc, &pages, page_to_extract);

    assert!(result.is_err());
    if let Err(e) = result {
        println!("Expected error: {}", e.message());
        assert!(
            e.message().contains(&format!("Page number {} not found", page_to_extract)),
            "Error message mismatch"
        );
        assert_eq!(e.kind(), ErrorKind::NotFound);
    }
}

#[test]
fn test_extract_page_zero() {
    let (doc, pages) = create_minimal_pdf(3, "Sample");
    let page_to_extract = 0;

    let result = extract_pdf_page(&doc, &pages, page_to_extract);

    assert!(result.is_err());
    if let Err(e) = result {
        println!("Expected error: {}", e.message());
        assert!(e.message().contains("Page number must be 1-based"), "Error message mismatch");
        assert_eq!(e.kind(), ErrorKind::InvalidArgument);
    }
}

#[test]
fn extracted_page_keeps_what_it_refers_to() {
    let (doc, pages) = create_minimal_pdf(3, "Sample");
    let out = extract_pdf_page(&doc, &pages, 2).unwrap();
    let listed = listed_pages(&out).unwrap();
    assert_eq!(listed.len(), 1);
    let tree = find_page_tree(&out).unwrap();
    let page = page_dict(&out, listed[0]);
    assert_eq!(page.get(b"Parent").unwrap().as_reference(), Some(tree));
    assert_eq!(count_of(&out), 1);
    let contents = page.get(b"Contents").unwrap().as_reference().unwrap();
    match out.get_object(contents).unwrap() {
        Object::Stream(stream) => {
            assert_eq!(stream.content, b"BT /F1 12 Tf 100 700 Td (Sample-Page 2) Tj ET".to_vec())
        }
        other => panic!("contents is no stream: {:?}", other),
    }
    let resources = page.get(b"Resources").unwrap().as_reference().unwrap();
    let fonts = page_dict(&out, resources).get(b"Font").unwrap().as_dict().unwrap();
    let font = fonts.get(b"F1").unwrap().as_reference().unwrap();
    assert_eq!(
        page_dict(&out, font).get(b"BaseFont"),
        Some(&Object::Name(b"Helvetica".to_vec()))
    );
    for id in out.object_ids() {
        let mut found = Vec::new();
        references_in(out.get_object(id).unwrap(), &mut found);
        for target in found {
            assert!(out.has_object(target), "{:?} refers to {:?}, which is missing", id, target);
        }
    }
}

#[test]
fn extracted_document_numbers_copies_then_tree_then_catalog() {
    let (doc, pages) = create_minimal_pdf(3, "Sample");
    // A page reaches its parent and through it every page: all 9 objects.
    let out = extract_pdf_page(&doc, &pages, 1).unwrap();
    assert_eq!(out.len(), 11);
    assert_eq!(out.max_id(), 11);
    assert_eq!(find_page_tree(&out), Some((10, 0)));
    assert_eq!(out.trailer().get(b"Root").unwrap().as_reference(), Some((11, 0)));
    assert_eq!(out.version(), "1.5");
}

#[test]
fn test_split_pdf_success() {
    let (doc, pages) = create_minimal_pdf(3, "Sample");
    let pages_to_extract = vec![1, 3];

    let result = split_pdf(&doc, &pages, &pages_to_extract);

    assert!(result.is_ok(), "split_pdf failed: {:?}", result.err());
    let output_doc = result.unwrap();
    let output_pages = listed_pages(&output_doc).unwrap();
    assert_eq!(output_pages.len(), pages_to_extract.len(), "Output PDF page count mismatch.");
    assert!(output_doc.has_object(output_pages[0]), "Page 1 missing in output");
    assert!(output_doc.has_object(output_pages[1]), "Page 2 (original 3) missing in output");
}

#[test]
fn test_split_pdf_invalid_page() {
    let (doc, pages) = create_minimal_pdf(3, "Sample");
    let pages_to_extract = vec![1, 5];

    let result = split_pdf(&doc, &pages, &pages_to_extract);

    assert!(result.is_err(), "Function should fail for out-of-bounds page");
    if let Err(e) = result {
        println!("Expected error: {}", e.message());
        assert!(e.message().contains("Page number 5 not found"), "Error message mismatch");
    }
}

#[test]
fn test_split_pdf_empty_pages() {
    let (doc, pages) = create_minimal_pdf(3, "Sample");
    let pages_to_extract = vec![];

    let result = split_pdf(&doc, &pages, &pages_to_extract);

    assert!(result.is_err(), "Function should fail for empty pages list");
    if let Err(e) = result {
        println!("Expected error: {}", e.message());
        assert!(e.message().contains("cannot be empty"), "Error message mismatch");
    }
}

#[test]
fn test_split_pdf_zero_page() {
    let (doc, pages) = create_minimal_pdf(3, "Sample");
    let pages_to_extract = vec![0, 1];

    let result = split_pdf(&doc, &pages, &pages_to_extract);

    assert!(result.is_err(), "Function should fail for page zero");
    if let Err(e) = result {
        println!("Expected error: {}", e.message());
        assert!(
            e.message().contains("Page numbers must be 1-based")
                || e.message().contains("Invalid page number: 0"),
            "Error message mismatch"
        );
    }
}

#[test]
fn split_lists_pages_in_the_order_asked_for() {
    let (doc, pages) = create_minimal_pdf(3, "Sample");
    let out = split_pdf(&doc, &pages, &vec![3, 1, 3]).unwrap();
    let listed = listed_pages(&out).unwrap();
    assert_eq!(listed.len(), 3);
    assert_eq!(count_of(&out), 3);
    assert_eq!(listed[0], listed[2]);
    assert_ne!(listed[0], listed[1]);
    let text = |id: ObjectId| {
        let contents = page_dict(&out, id).get(b"Contents").unwrap().as_reference().unwrap();
        match out.get_object(contents).unwrap() {
            Object::Stream(stream) => stream.content.clone(),
            _ => panic!("contents is no stream"),
        }
    };
    assert_eq!(text(listed[0]), b"BT /F1 12 Tf 100 700 Td (Sample-Page 3) Tj ET".to_vec());
    assert_eq!(text(listed[1]), b"BT /F1 12 Tf 100 700 Td (Sample-Page 1) Tj ET".to_vec());
}

#[test]
fn split_refuses_a_page_that_is_no_dictionary() {
    let (mut doc, pages) = create_minimal_pdf(2, "Sample");
    doc.insert_object(pages[1], Object::Integer(7));
    let result = split_pdf(&doc, &pages, &vec![1, 2]);
    assert_eq!(
        result.err(),
        Some(PdfError::NotADictionary { number: pages[1].0, generation: pages[1].1 })
    );
    let mut listed = pages.clone();
    listed.push((99, 0));
    let result = split_pdf(&doc, &listed, &vec![3]);
    assert_eq!(result.err(), Some(PdfError::PageNotMapped { number: 99, generation: 0 }));
}

#[test]
fn test_merge_two_pdfs_success() {
    let (doc1, pages1) = create_minimal_pdf(2, "Doc1");
    let (doc2, pages2) = create_minimal_pdf(1, "Doc2");

    let inputs = vec![
        MergeInput { document: doc1, pages: pages1 },
        MergeInput { document: doc2, pages: pages2 },
    ];
    let result = merge_pdfs(&inputs);

    assert!(result.is_ok(), "merge_pdfs failed: {:?}", result.err());
    let merged_doc = result.unwrap();
    assert_eq!(listed_pages(&merged_doc).unwrap().len(), 3, "Merged PDF should have 3 pages");
    let catalog = merged_doc.trailer().get(b"Root").unwrap().as_reference().unwrap();
    let pages_ref = page_dict(&merged_doc, catalog)
        .get(b"Pages")
        .expect("Pages entry")
        .as_reference()
        .expect("Pages ref");
    let count = page_dict(&merged_doc, pages_ref)
        .get(b"Count")
        .and_then(|o| o.as_i64())
        .expect("Count");
    assert_eq!(count, 3, "Pages Count field mismatch");
}

#[test]
fn test_merge_three_pdfs_success() {
    let (doc1, pages1) = create_minimal_pdf(1, "D1");
    let (doc2, pages2) = create_minimal_pdf(2, "D2");
    let (doc3, pages3) = create_minimal_pdf(3, "D3");

    let inputs = vec![
        MergeInput { document: doc1, pages: pages1 },
        MergeInput { document: doc2, pages: pages2 },
        MergeInput { document: doc3, pages: pages3 },
    ];
    let result = merge_pdfs(&inputs);

    assert!(result.is_ok(), "merge_pdfs failed: {:?}", result.err());
    let merged_doc = result.unwrap();
    assert_eq!(listed_pages(&merged_doc).unwrap().len(), 6);
    assert_eq!(count_of(&merged_doc), 6);
}

#[test]
fn merged_pages_keep_their_order_and_name_the_first_tree() {
    let (doc1, pages1) = create_minimal_pdf(2, "Doc1");
    let (doc2, pages2) = create_minimal_pdf(2, "Doc2");
    let offset = doc1.max_id();
    let first_pages = pages1.clone();
    let second_pages = pages2.clone();
    let inputs = vec![
        MergeInput { document: doc1, pages: pages1 },
        MergeInput { document: doc2, pages: pages2 },
    ];
    let merged = merge_pdfs(&inputs).unwrap();
    let tree = find_page_tree(&merged).unwrap();
    assert_eq!(Some(tree), find_page_tree(&inputs[0].document));
    let listed = listed_pages(&merged).unwrap();
    let expected: Vec<ObjectId> = first_pages
        .iter()
        .copied()
        .chain(second_pages.iter().map(|id| (id.0 + offset, id.1)))
        .collect();
    assert_eq!(listed, expected);
    for id in &listed {
        assert_eq!(page_dict(&merged, *id).get(b"Parent").unwrap().as_reference(), Some(tree));
    }
    // The copy of a page names the copy of its contents, not the original.
    let copy = page_dict(&merged, listed[2]);
    let original = page_dict(&inputs[1].document, second_pages[0]);
    let original_contents = original.get(b"Contents").unwrap().as_reference().unwrap();
    assert_eq!(
        copy.get(b"Contents").unwrap().as_reference(),
        Some((original_contents.0 + offset, original_contents.1))
    );
    // Everything of the second document but its catalog is reached from its
    // pages; the highest number among that is 7.
    assert_eq!(merged.max_id(), offset + 7);
    assert!(!merged.has_object((offset + 8, 0)));
}

#[test]
fn merging_onto_a_nested_tree_lists_the_new_pages_behind_its_kids() {
    let mut first = Document::with_version("1.7");
    let root = first.new_object_id().unwrap();
    let branch = first.new_object_id().unwrap();
    let leaf = |parent: ObjectId| {
        Object::Dictionary(dict(vec![("Type", name("Page")), ("Parent", Object::Reference(parent))]))
    };
    let a = first.add_object(leaf(branch)).unwrap();
    let b = first.add_object(leaf(branch)).unwrap();
    let c = first.add_object(leaf(root)).unwrap();
    first.insert_object(
        branch,
        Object::Dictionary(dict(vec![
            ("Type", name("Pages")),
            ("Parent", Object::Reference(root)),
            ("Kids", Object::Array(vec![Object::Reference(a), Object::Reference(b)])),
            ("Count", Object::Integer(2)),
        ])),
    );
    first.insert_object(
        root,
        Object::Dictionary(dict(vec![
            ("Type", name("Pages")),
            ("Kids", Object::Array(vec![Object::Reference(branch), Object::Reference(c)])),
            ("Count", Object::Integer(3)),
        ])),
    );
    let catalog = first
        .add_object(Object::Dictionary(dict(vec![
            ("Type", name("Catalog")),
            ("Pages", Object::Reference(root)),
        ])))
        .unwrap();
    first.set_trailer(b"Root".to_vec(), Object::Reference(catalog));
    let offset = first.max_id();
    let (second, second_pages) = create_minimal_pdf(1, "Second");
    let copy = (second_pages[0].0 + offset, second_pages[0].1);
    let inputs = vec![
        MergeInput { document: first, pages: vec![a, b, c] },
        MergeInput { document: second, pages: second_pages },
    ];
    let merged = merge_pdfs(&inputs).unwrap();
    // The branch with its two pages, the third page, and the new page.
    assert_eq!(listed_pages(&merged), Some(vec![branch, c, copy]));
    assert_eq!(page_dict(&merged, copy).get(b"Parent").unwrap().as_reference(), Some(root));
    assert_eq!(page_dict(&merged, copy).get(b"Type"), Some(&name("Page")));
    assert_eq!(merged.get_object(branch), inputs[0].document.get_object(branch));
    assert_eq!(merged.get_object(a), inputs[0].document.get_object(a));
    // The count is the number of kids that the root lists.
    assert_eq!(count_of(&merged), 3);
}

#[test]
fn merging_one_document_returns_it_unchanged() {
    let (doc, pages) = create_minimal_pdf(2, "Only");
    let inputs = vec![MergeInput { document: doc, pages }];
    let merged = merge_pdfs(&inputs).unwrap();
    let original = &inputs[0].document;
    assert_eq!(merged.len(), original.len());
    assert_eq!(merged.max_id(), original.max_id());
    assert_eq!(merged.version(), original.version());
    assert_eq!(merged.trailer(), original.trailer());
    for id in original.object_ids() {
        assert_eq!(merged.get_object(id), original.get_object(id));
    }
}

#[test]
fn merging_nothing_fails() {
    let inputs: Vec<MergeInput> = Vec::new();
    let result = merge_pdfs(&inputs);
    assert_eq!(result.err(), Some(PdfError::NoInput));
    assert_eq!(PdfError::NoInput.message(), "No PDF files provided for merging.");
}

#[test]
fn merging_into_a_document_without_page_tree_fails() {
    let (doc2, pages2) = create_minimal_pdf(1, "Doc2");
    let inputs = vec![
        MergeInput { document: Document::with_version("1.5"), pages: Vec::new() },
        MergeInput { document: doc2, pages: pages2 },
    ];
    assert_eq!(merge_pdfs(&inputs).err(), Some(PdfError::NoPageTree));
}

#[test]
fn appending_refuses_identifiers_that_do_not_fit() {
    let (mut target, _) = create_minimal_pdf(1, "Target");
    let tree = find_page_tree(&target).unwrap();
    let (source, pages) = create_minimal_pdf(1, "Source");
    target.raise_max_id(u32::MAX - 2);
    let before = target.len();
    let result = append_pages(&mut target, tree, &source, &pages);
    assert_eq!(result, Err(PdfError::IdentifiersExhausted));
    assert_eq!(target.len(), before);
}

#[test]
fn appending_refuses_an_identifier_that_is_taken() {
    let (mut target, _) = create_minimal_pdf(1, "Target");
    let tree = find_page_tree(&target).unwrap();
    let offset = target.max_id();
    let mut source = Document::with_version("1.5");
    source.insert_object((0, 0), Object::Dictionary(dict(vec![("Type", name("Page"))])));
    let result = append_pages(&mut target, tree, &source, &vec![(0, 0)]);
    assert!(target.has_object((offset, 0)));
    assert_eq!(result, Err(PdfError::IdentifierCollision));
}

#[test]
fn test_delete_pages_success() {
    let (mut doc, pages) = create_minimal_pdf(5, "Sample");
    let pages_to_delete = vec![2, 4];

    let result = delete_pages(&mut doc, &pages, &pages_to_delete);

    assert!(result.is_ok(), "delete_pages failed: {:?}", result.err());
    let output_pages = listed_pages(&doc).unwrap();
    assert_eq!(output_pages.len(), 3, "Output PDF page count mismatch.");
    assert_eq!(output_pages, vec![pages[0], pages[2], pages[4]]);
    assert_eq!(count_of(&doc), 3);
}

#[test]
fn test_delete_pages_invalid_page() {
    let (mut doc, pages) = create_minimal_pdf(5, "Sample");
    let pages_to_delete = vec![1, 6];

    let result = delete_pages(&mut doc, &pages, &pages_to_delete);

    assert!(result.is_err(), "Function should fail for out-of-bounds page");
    if let Err(e) = result {
        assert!(e.message().contains("Invalid page number: 6"), "Error message mismatch");
        assert_eq!(
            e.message(),
            "Invalid page number: 6. Page numbers must be between 1 and 5."
        );
    }
    assert_eq!(listed_pages(&doc).unwrap().len(), 5);
    assert_eq!(count_of(&doc), 5);
}

#[test]
fn test_delete_pages_empty_list() {
    let (mut doc, pages) = create_minimal_pdf(5, "Sample");
    let pages_to_delete = vec![];

    let result = delete_pages(&mut doc, &pages, &pages_to_delete);

    assert!(result.is_err(), "Function should fail for empty pages list");
    if let Err(e) = result {
        assert!(
            e.message().contains("The list of pages to delete cannot be empty."),
            "Error message mismatch"
        );
    }
    assert_eq!(listed_pages(&doc).unwrap().len(), 5);
}

#[test]
fn deleting_a_page_twice_counts_once() {
    let (mut doc, pages) = create_minimal_pdf(4, "Sample");
    delete_pages(&mut doc, &pages, &vec![3, 1, 3]).unwrap();
    assert_eq!(listed_pages(&doc).unwrap(), vec![pages[1], pages[3]]);
    assert_eq!(count_of(&doc), 2);
    assert!(doc.has_object(pages[0]));
}

#[test]
fn deleting_lowers_the_counts_of_all_nodes_above() {
    let mut doc = Document::with_version("1.7");
    let root = doc.new_object_id().unwrap();
    let branch = doc.new_object_id().unwrap();
    let leaf = |parent: ObjectId| {
        Object::Dictionary(dict(vec![("Type", name("Page")), ("Parent", Object::Reference(parent))]))
    };
    let a = doc.add_object(leaf(branch)).unwrap();
    let b = doc.add_object(leaf(branch)).unwrap();
    let c = doc.add_object(leaf(root)).unwrap();
    doc.insert_object(
        branch,
        Object::Dictionary(dict(vec![
            ("Type", name("Pages")),
            ("Parent", Object::Reference(root)),
            ("Kids", Object::Array(vec![Object::Reference(a), Object::Reference(b)])),
            ("Count", Object::Integer(2)),
        ])),
    );
    doc.insert_object(
        root,
        Object::Dictionary(dict(vec![
            ("Type", name("Pages")),
            ("Kids", Object::Array(vec![Object::Reference(branch), Object::Reference(c)])),
            ("Count", Object::Integer(3)),
        ])),
    );
    let pages = vec![a, b, c];
    delete_pages(&mut doc, &pages, &vec![2]).unwrap();
    let kids = |id: ObjectId| match page_dict(&doc, id).get(b"Kids").unwrap() {
        Object::Array(items) => items.clone(),
        _ => panic!("kids is no array"),
    };
    assert_eq!(kids(branch), vec![Object::Reference(a)]);
    assert_eq!(kids(root), vec![Object::Reference(branch), Object::Reference(c)]);
    assert_eq!(page_dict(&doc, branch).get(b"Count"), Some(&Object::Integer(1)));
    assert_eq!(page_dict(&doc, root).get(b"Count"), Some(&Object::Integer(2)));
}

#[test]
fn deleting_ends_on_a_cycle_of_parents() {
    let mut doc = Document::with_version("1.7");
    let node = doc.new_object_id().unwrap();
    let page = doc
        .add_object(Object::Dictionary(dict(vec![
            ("Type", name("Page")),
            ("Parent", Object::Reference(node)),
        ])))
        .unwrap();
    doc.insert_object(
        node,
        Object::Dictionary(dict(vec![
            ("Type", name("Pages")),
            ("Parent", Object::Reference(node)),
            ("Kids", Object::Array(vec![Object::Reference(page)])),
            ("Count", Object::Integer(1)),
        ])),
    );
    delete_pages(&mut doc, &vec![page], &vec![1]).unwrap();
    // One lowering for each of the two objects that the walk may visit.
    assert_eq!(page_dict(&doc, node).get(b"Count"), Some(&Object::Integer(-1)));
}

#[test]
fn test_rotate_pdf_success() {
    let (mut doc, pages) = create_minimal_pdf(3, "Sample");
    let pages_to_rotate = vec![1, 3];

    let result = rotate_pdf(&mut doc, &pages, &pages_to_rotate, 90);

    assert!(result.is_ok(), "rotate_pdf failed: {:?}", result.err());
    assert_eq!(rotation_of(&doc, pages[0]), Some(90));
    assert!(page_dict(&doc, pages[1]).get(b"Rotate").is_none());
    assert_eq!(rotation_of(&doc, pages[2]), Some(90));
}

#[test]
fn test_rotate_pdf_invalid_angle() {
    let (mut doc, pages) = create_minimal_pdf(3, "Sample");
    let pages_to_rotate = vec![1];

    let result = rotate_pdf(&mut doc, &pages, &pages_to_rotate, 45);

    assert!(result.is_err(), "Function should fail for invalid angle");
    if let Err(e) = result {
        assert!(e.message().contains("Invalid rotation angle"), "Error message mismatch");
        assert_eq!(e, PdfError::InvalidRotation { angle: 45 });
    }
    assert!(page_dict(&doc, pages[0]).get(b"Rotate").is_none());
}

#[test]
fn test_rotate_pdf_all_pages() {
    let (mut doc, pages) = create_minimal_pdf(3, "Sample");

    let result = rotate_pdf(&mut doc, &pages, &vec![], 180);

    assert!(result.is_ok(), "rotate_pdf failed: {:?}", result.err());
    for page_num in 1..=pages.len() {
        assert_eq!(rotation_of(&doc, pages[page_num - 1]), Some(180));
    }
}

#[test]
fn two_quarter_turns_are_a_half_turn() {
    let (mut twice, pages) = create_minimal_pdf(2, "Sample");
    let (mut once, _) = create_minimal_pdf(2, "Sample");
    rotate_pdf(&mut twice, &pages, &vec![1], 90).unwrap();
    rotate_pdf(&mut twice, &pages, &vec![1], 90).unwrap();
    rotate_pdf(&mut once, &pages, &vec![1], 180).unwrap();
    assert_eq!(rotation_of(&twice, pages[0]), Some(180));
    assert_eq!(rotation_of(&twice, pages[0]), rotation_of(&once, pages[0]));
}

#[test]
fn rotation_is_stored_modulo_a_full_turn() {
    assert_eq!(turn(0, 90), 90);
    assert_eq!(turn(270, 90), 0);
    assert_eq!(turn(270, 180), 90);
    assert_eq!(turn(0, -90), 270);
    assert_eq!(turn(0, -270), 90);
    assert_eq!(turn(-270, -180), 270);
    assert_eq!(turn(90, -270), 180);
    assert_eq!(turn(720, 0), 0);
    assert_eq!(turn(-720, 0), 0);
    assert_eq!(turn(-460, 180), 80);
    assert_eq!(turn(turn(-460, 90), 90), 80);
    assert_eq!(turn(-450, 180), 90);
    assert_eq!(turn(turn(-450, 90), 90), 90);
    assert_eq!(turn(2147483647, 90), 217);
    assert_eq!(turn(i64::MAX, 270), (i64::MAX as i128 + 270).rem_euclid(360) as i64);
    assert_eq!(turn(i64::MIN, -270), (i64::MIN as i128 - 270).rem_euclid(360) as i64);
    for current in [-1000i64, -361, -360, -359, -1, 0, 1, 359, 360, 361, 1000] {
        for angle in [0, 90, 180, 270, -90, -180, -270] {
            let stored = turn(current, angle);
            assert!((0..360).contains(&stored));
            assert_eq!((stored - current - angle as i64).rem_euclid(360), 0);
        }
    }
}

#[test]
fn a_turn_backwards_is_stored_as_the_turn_forwards_that_equals_it() {
    let (mut doc, pages) = create_minimal_pdf(2, "Sample");
    rotate_pdf(&mut doc, &pages, &vec![1], -90).unwrap();
    assert_eq!(rotation_of(&doc, pages[0]), Some(270));
    rotate_pdf(&mut doc, &pages, &vec![1], -270).unwrap();
    assert_eq!(rotation_of(&doc, pages[0]), Some(0));
}

#[test]
fn two_quarter_turns_are_a_half_turn_on_any_stored_rotation() {
    for stored in [-450i64, -460, -90, 0, 45, 350, 2147483647] {
        let (mut twice, pages) = create_minimal_pdf(1, "Sample");
        let mut page = page_dict(&twice, pages[0]).clone();
        page.set(b"Rotate".to_vec(), Object::Integer(stored));
        twice.insert_object(pages[0], Object::Dictionary(page));
        let mut once = twice.clone();
        rotate_pdf(&mut twice, &pages, &vec![1], 90).unwrap();
        rotate_pdf(&mut twice, &pages, &vec![1], 90).unwrap();
        rotate_pdf(&mut once, &pages, &vec![1], 180).unwrap();
        assert_eq!(rotation_of(&twice, pages[0]), rotation_of(&once, pages[0]));
        assert_eq!(rotation_of(&once, pages[0]), Some((stored + 180).rem_euclid(360)));
    }
}

#[test]
fn a_page_listed_twice_is_turned_twice() {
    let (mut doc, pages) = create_minimal_pdf(2, "Sample");
    rotate_pdf(&mut doc, &pages, &vec![2, 2, 2], 90).unwrap();
    assert_eq!(rotation_of(&doc, pages[1]), Some(270));
    assert!(page_dict(&doc, pages[0]).get(b"Rotate").is_none());
}

#[test]
fn rotating_an_unknown_page_changes_nothing() {
    let (mut doc, pages) = create_minimal_pdf(3, "Sample");
    let result = rotate_pdf(&mut doc, &pages, &vec![1, 4], 90);
    assert_eq!(result, Err(PdfError::PageNotFound { page: 4, page_count: 3 }));
    assert!(page_dict(&doc, pages[0]).get(b"Rotate").is_none());
    let result = rotate_pdf(&mut doc, &pages, &vec![0], 90);
    assert_eq!(result, Err(PdfError::PageNotFound { page: 0, page_count: 3 }));
}

#[test]
fn assembling_builds_tree_and_catalog() {
    let mut doc = Document::with_version("1.4");
    let a = doc.add_object(Object::Dictionary(dict(vec![("Type", name("Page"))]))).unwrap();
    let b = doc.add_object(Object::Dictionary(dict(vec![("Type", name("Page"))]))).unwrap();
    let (tree, catalog) = assemble(&mut doc, &vec![b, a, b]).unwrap();
    assert_eq!(tree, (3, 0));
    assert_eq!(catalog, (4, 0));
    assert_eq!(doc.max_id(), 4);
    assert_eq!(find_page_tree(&doc), Some(tree));
    assert_eq!(listed_pages(&doc), Some(vec![b, a, b]));
    assert_eq!(count_of(&doc), 3);
    assert_eq!(
        page_dict(&doc, tree).get(b"Type"),
        Some(&Object::Name(b"Pages".to_vec()))
    );
    assert_eq!(
        page_dict(&doc, catalog).get(b"Type"),
        Some(&Object::Name(b"Catalog".to_vec()))
    );
    // The pages themselves are left alone.
    assert!(page_dict(&doc, a).get(b"Parent").is_none());
}

#[test]
fn assembling_fails_when_no_identifier_is_left() {
    let mut doc = Document::with_version("1.4");
    doc.raise_max_id(u32::MAX - 1);
    assert_eq!(assemble(&mut doc, &vec![]), Err(PdfError::IdentifiersExhausted));
    assert_eq!(doc.len(), 0);
    assert_eq!(doc.max_id(), u32::MAX - 1);
}
