use pdf_pages::closure::collect_reachable;
use pdf_pages::deep_copy::manual_deep_copy;
use pdf_pages::document::Document;
use pdf_pages::error::{ErrorKind, PdfError};
use pdf_pages::object::{bytes_eq, copy_bytes, Dictionary, Object, ObjectId, Stream, StringFormat};
use pdf_pages::refs::{find_references_recursive, note_reference};
use pdf_pages::rewrite::{
    mapping_images, rewrite_references, rewritten, update_references_recursive, ParentPatch,
};
use pdf_pages::transplant::{present_in, transplant, Allocation};
use std::collections::{BTreeMap, BTreeSet, VecDeque};

fn name(text: &str) -> Object {
    Object::Name(text.as_bytes().to_vec())
}

fn dict(entries: Vec<(&str, Object)>) -> Dictionary {
    let mut dict = Dictionary::new();
    for (key, value) in entries {
        dict.set(key.as_bytes().to_vec(), value);
    }
    dict
}

fn node(entries: Vec<(&str, Object)>) -> Object {
    Object::Dictionary(dict(entries))
}

/// Two objects that refer to each other, and a third that nothing refers to.
fn cycle() -> (Document, ObjectId, ObjectId) {
    let mut doc = Document::with_version("1.7");
    let a = doc.new_object_id().unwrap();
    let b = doc.new_object_id().unwrap();
    doc.insert_object(a, node(vec![("Name", name("A")), ("Next", Object::Reference(b))]));
    doc.insert_object(b, node(vec![("Name", name("B")), ("Next", Object::Reference(a))]));
    doc.add_object(Object::Integer(3)).unwrap();
    (doc, a, b)
}

#[test]
fn a_cycle_is_copied_as_a_cycle() {
    let (source, a, b) = cycle();
    let mut target = Document::with_version("1.7");
    // Ten identifiers are in use already, so that copies and originals differ.
    target.raise_max_id(10);
    let map = manual_deep_copy(&source, &mut target, &vec![a]).unwrap();
    assert_eq!(map.len(), 2);
    let new_a = *map.get(&a).unwrap();
    let new_b = *map.get(&b).unwrap();
    assert_eq!(new_a, (11, 0));
    assert_eq!(new_b, (12, 0));
    assert_eq!(target.len(), 2);
    assert_eq!(target.max_id(), 12);
    let next = |id: ObjectId| {
        target.get_object(id).unwrap().as_dict().unwrap().get(b"Next").unwrap().as_reference()
    };
    assert_eq!(next(new_a), Some(new_b));
    assert_eq!(next(new_b), Some(new_a));
    assert_eq!(
        target.get_object(new_a).unwrap().as_dict().unwrap().get(b"Name"),
        Some(&name("A"))
    );
    // The source is as it was.
    assert_eq!(
        source.get_object(a).unwrap().as_dict().unwrap().get(b"Next").unwrap().as_reference(),
        Some(b)
    );
}

#[test]
fn deep_copy_passes_over_what_is_missing() {
    let mut source = Document::with_version("1.4");
    let root = source
        .add_object(Object::Array(vec![
            Object::Reference((40, 0)),
            Object::Reference((41, 2)),
            Object::Integer(5),
        ]))
        .unwrap();
    let mut target = Document::with_version("1.4");
    let map = manual_deep_copy(&source, &mut target, &vec![(77, 0), root, root]).unwrap();
    assert_eq!(map.len(), 1);
    let copy = *map.get(&root).unwrap();
    assert_eq!(copy, (1, 0));
    // References to what the source does not hold are copied as they are.
    assert_eq!(
        target.get_object(copy),
        Some(&Object::Array(vec![
            Object::Reference((40, 0)),
            Object::Reference((41, 2)),
            Object::Integer(5),
        ]))
    );
    assert_eq!(target.len(), 1);
}

#[test]
fn deep_copy_gives_up_beyond_its_limit() {
    // One object that refers to five others that are missing: six
    // identifiers to take up, with a limit of twice one object and one root.
    let mut source = Document::with_version("1.4");
    let root = source
        .add_object(Object::Array(
            (1..=5).map(|n| Object::Reference((100 + n, 0))).collect(),
        ))
        .unwrap();
    let mut target = Document::with_version("1.4");
    let result = manual_deep_copy(&source, &mut target, &vec![root]);
    assert_eq!(result.err(), Some(PdfError::LoopLimit { limit: 4 }));
    assert_eq!(PdfError::LoopLimit { limit: 4 }.message(), "Deep copy loop exceeded limit (4)");
    assert_eq!(PdfError::LoopLimit { limit: 4 }.kind(), ErrorKind::GraphIntegrity);
    assert_eq!(target.len(), 0);
    assert_eq!(target.max_id(), 0);
    // With three missing ones the work is four, which is within the limit.
    let mut source = Document::with_version("1.4");
    let root = source
        .add_object(Object::Array(
            (1..=3).map(|n| Object::Reference((100 + n, 0))).collect(),
        ))
        .unwrap();
    assert!(manual_deep_copy(&source, &mut target, &vec![root]).is_ok());
}

#[test]
fn deep_copy_fails_when_identifiers_run_out() {
    let (source, a, _) = cycle();
    let mut target = Document::with_version("1.7");
    target.raise_max_id(u32::MAX - 1);
    let result = manual_deep_copy(&source, &mut target, &vec![a]);
    assert_eq!(result.err(), Some(PdfError::IdentifiersExhausted));
    assert_eq!(target.len(), 0);
    assert_eq!(target.max_id(), u32::MAX - 1);
}

#[test]
fn reachable_objects_come_in_breadth_first_order() {
    let mut doc = Document::with_version("1.4");
    let root = doc.new_object_id().unwrap();
    let left = doc.new_object_id().unwrap();
    let right = doc.new_object_id().unwrap();
    let below = doc.new_object_id().unwrap();
    let apart = doc.new_object_id().unwrap();
    doc.insert_object(
        root,
        Object::Array(vec![Object::Reference(right), Object::Reference(left)]),
    );
    doc.insert_object(left, node(vec![("Down", Object::Reference(below))]));
    doc.insert_object(
        right,
        Object::Stream(Stream::new(
            dict(vec![("Up", Object::Reference(root)), ("Gone", Object::Reference((9, 9)))]),
            b"5 0 R".to_vec(),
        )),
    );
    doc.insert_object(below, Object::Null);
    doc.insert_object(apart, Object::Boolean(true));
    assert_eq!(collect_reachable(&doc, &vec![root]), Ok(vec![root, right, left, below]));
    assert_eq!(collect_reachable(&doc, &vec![below, below]), Ok(vec![below]));
    assert_eq!(collect_reachable(&doc, &vec![]), Ok(vec![]));
    assert_eq!(collect_reachable(&doc, &vec![(50, 0)]), Ok(vec![]));
}

#[test]
fn references_are_found_in_order_and_once() {
    let object = node(vec![
        ("First", Object::Reference((3, 0))),
        (
            "List",
            Object::Array(vec![
                Object::Reference((1, 0)),
                Object::Integer(4),
                Object::Reference((3, 0)),
                node(vec![("Deep", Object::Reference((2, 5)))]),
            ]),
        ),
        ("Text", Object::String(b"9 0 R".to_vec(), StringFormat::Literal)),
        ("Seen", Object::Reference((7, 0))),
    ]);
    let mut queue: VecDeque<ObjectId> = VecDeque::from(vec![(7, 0)]);
    let mut processed: BTreeSet<ObjectId> = BTreeSet::new();
    processed.insert((7, 0));
    let result = find_references_recursive(&object, &mut queue, &mut processed);
    assert_eq!(result, Ok(()));
    assert_eq!(queue, VecDeque::from(vec![(7, 0), (3, 0), (1, 0), (2, 5)]));
    assert_eq!(processed.len(), 4);
    assert!(processed.contains(&(2, 5)));
}

#[test]
fn a_stream_payload_is_not_searched() {
    let object = Object::Stream(Stream::new(
        dict(vec![("Length", Object::Reference((8, 0)))]),
        b"1 0 R 2 0 R".to_vec(),
    ));
    let mut queue = VecDeque::new();
    let mut processed = BTreeSet::new();
    find_references_recursive(&object, &mut queue, &mut processed).unwrap();
    assert_eq!(queue, VecDeque::from(vec![(8, 0)]));
}

#[test]
fn noting_a_reference_twice_queues_it_once() {
    let mut queue = VecDeque::new();
    let mut processed = BTreeSet::new();
    note_reference((4, 1), &mut queue, &mut processed);
    note_reference((4, 1), &mut queue, &mut processed);
    note_reference((4, 2), &mut queue, &mut processed);
    assert_eq!(queue, VecDeque::from(vec![(4, 1), (4, 2)]));
}

#[test]
fn references_are_redirected_along_the_mapping() {
    let mut map: BTreeMap<ObjectId, ObjectId> = BTreeMap::new();
    map.insert((1, 0), (10, 0));
    map.insert((2, 0), (1, 0));
    let mut object = node(vec![
        ("A", Object::Reference((1, 0))),
        ("B", Object::Array(vec![Object::Reference((2, 0)), Object::Reference((3, 0))])),
        ("C", Object::Real(0x3fc0_0000)),
    ]);
    let copy = rewritten(&object, &map);
    let result = update_references_recursive(&mut object, &map);
    assert_eq!(result, Ok(()));
    assert_eq!(copy, object);
    assert_eq!(
        object,
        node(vec![
            ("A", Object::Reference((10, 0))),
            // What (2, 0) leads to is not redirected a second time.
            ("B", Object::Array(vec![Object::Reference((1, 0)), Object::Reference((3, 0))])),
            ("C", Object::Real(0x3fc0_0000)),
        ])
    );
    let mut stream = Object::Stream(Stream {
        dict: dict(vec![("Ref", Object::Reference((1, 0)))]),
        content: b"1 0 R".to_vec(),
        allows_compression: false,
        start_position: Some(12),
    });
    update_references_recursive(&mut stream, &map).unwrap();
    assert_eq!(
        stream,
        Object::Stream(Stream {
            dict: dict(vec![("Ref", Object::Reference((10, 0)))]),
            content: b"1 0 R".to_vec(),
            allows_compression: false,
            start_position: Some(12),
        })
    );
}

#[test]
fn transplanting_shifts_identifiers_and_copies_exactly() {
    let (source, a, b) = cycle();
    let mut target = Document::with_version("1.7");
    target.insert_object((5, 0), Object::Null);
    let map =
        transplant(&source, &mut target, &vec![b, (60, 0), a, b], Allocation::Shift { offset: 5 })
            .unwrap();
    assert_eq!(map.get(&a), Some(&(6, 0)));
    assert_eq!(map.get(&b), Some(&(7, 0)));
    assert_eq!(map.len(), 2);
    assert_eq!(target.max_id(), 7);
    // The copies are exact: they still name the originals.
    assert_eq!(target.get_object((6, 0)), source.get_object(a));
    assert_eq!(target.get_object((7, 0)), source.get_object(b));
    assert_eq!(present_in(&source, &vec![b, (60, 0), a, b]), vec![b, a]);
}

#[test]
fn transplanting_under_fresh_identifiers_follows_the_list() {
    let (source, a, b) = cycle();
    let mut target = Document::with_version("1.7");
    target.insert_object((5, 0), Object::Null);
    let map = transplant(&source, &mut target, &vec![b, a], Allocation::Fresh).unwrap();
    assert_eq!(map.get(&b), Some(&(6, 0)));
    assert_eq!(map.get(&a), Some(&(7, 0)));
    assert_eq!(target.get_object((6, 0)), source.get_object(b));
}

#[test]
fn transplanting_refuses_a_taken_identifier() {
    let (source, a, _) = cycle();
    let mut target = Document::with_version("1.7");
    target.insert_object((5, 0), Object::Null);
    target.insert_object((3, 0), Object::Null);
    // (1, 0) raised by 2 is (3, 0), which is taken.
    let result = transplant(&source, &mut target, &vec![a], Allocation::Shift { offset: 2 });
    assert_eq!(result.err(), Some(PdfError::IdentifierCollision));
    assert_eq!(target.len(), 2);
    let result =
        transplant(&source, &mut target, &vec![a], Allocation::Shift { offset: u32::MAX });
    assert_eq!(result.err(), Some(PdfError::IdentifiersExhausted));
}

#[test]
fn rewriting_touches_the_copies_only() {
    let mut target = Document::with_version("1.4");
    let old = target.add_object(Object::Reference((1, 0))).unwrap();
    let copy = target
        .add_object(node(vec![("Self", Object::Reference((1, 0))), ("Parent", Object::Null)]))
        .unwrap();
    let mut map = BTreeMap::new();
    map.insert((1, 0), copy);
    let patch = ParentPatch { pages: vec![copy], parent: (9, 0) };
    rewrite_references(&mut target, &map, Some(&patch)).unwrap();
    assert_eq!(target.get_object(old), Some(&Object::Reference((1, 0))));
    assert_eq!(
        target.get_object(copy),
        Some(&node(vec![("Self", Object::Reference(copy)), ("Parent", Object::Reference((9, 0)))]))
    );
    assert_eq!(mapping_images(&map), vec![copy]);
}

#[test]
fn rewriting_fails_where_a_copy_is_missing() {
    let mut target = Document::with_version("1.4");
    let only = target.add_object(Object::Integer(1)).unwrap();
    let mut map = BTreeMap::new();
    map.insert((1, 0), (8, 0));
    assert_eq!(
        rewrite_references(&mut target, &map, None),
        Err(PdfError::MissingCopy { number: 8, generation: 0 })
    );
    let none: BTreeMap<ObjectId, ObjectId> = BTreeMap::new();
    let patch = ParentPatch { pages: vec![only], parent: (9, 0) };
    assert_eq!(
        rewrite_references(&mut target, &none, Some(&patch)),
        Err(PdfError::NotADictionary { number: only.0, generation: only.1 })
    );
    assert_eq!(target.get_object(only), Some(&Object::Integer(1)));
    assert_eq!(
        PdfError::MissingCopy { number: 8, generation: 0 }.message(),
        "Failed to retrieve copied object (8, 0) during reference update"
    );
}

#[test]
fn a_dictionary_keeps_names_unique_and_in_order() {
    let mut d = Dictionary::new();
    d.set(b"A".to_vec(), Object::Integer(1));
    d.set(b"B".to_vec(), Object::Integer(2));
    d.set(b"A".to_vec(), Object::Integer(3));
    assert_eq!(d.len(), 2);
    assert_eq!(d.key_at(0), &b"A".to_vec());
    assert_eq!(d.value_at(0), &Object::Integer(3));
    assert_eq!(d.position(b"B"), 1);
    assert_eq!(d.position(b"C"), 2);
    assert!(d.has(b"B"));
    assert!(!d.has(b"b"));
    assert_eq!(d.get(b"C"), None);
    assert_eq!(d.clone(), d);
    assert!(bytes_eq(b"Kids", b"Kids"));
    assert!(!bytes_eq(b"Kids", b"Kid"));
    assert!(!bytes_eq(b"Kids", b"Kits"));
    assert_eq!(copy_bytes(b"Count"), b"Count".to_vec());
}

#[test]
fn a_document_counts_its_identifiers() {
    let mut doc = Document::with_version("1.3");
    assert!(doc.check_counter());
    assert_eq!(doc.add_object(Object::Null), Some((1, 0)));
    doc.insert_object((7, 2), Object::Boolean(false));
    assert_eq!(doc.max_id(), 7);
    assert_eq!(doc.new_object_id(), Some((8, 0)));
    assert_eq!(doc.object_ids(), vec![(1, 0), (7, 2)]);
    assert!(doc.has_object((7, 2)));
    assert!(!doc.has_object((7, 0)));
    assert!(doc.check_counter());
    doc.raise_max_id(u32::MAX);
    assert_eq!(doc.new_object_id(), None);
    assert_eq!(doc.add_object(Object::Null), None);
    assert_eq!(doc.len(), 2);
    let copy = doc.clone();
    assert_eq!(copy.get_object((7, 2)), Some(&Object::Boolean(false)));
    assert_eq!(copy.max_id(), u32::MAX);
}
