use pdf_merge::document::Document;
use pdf_merge::merge::{can_merge, merged_pages};
use pdf_merge::object::{Dictionary, Object, ObjectId};
use pdf_merge::outline::{adjust_zero_pages, attach_outline, build_outline, Bookmark};

fn name(text: &str) -> Object {
    Object::Name(text.as_bytes().to_vec())
}

fn id(number: u32) -> ObjectId {
    ObjectId::new(number, 0)
}

fn reference(number: u32) -> Object {
    Object::Reference(id(number))
}

fn dict(entries: Vec<(&str, Object)>) -> Object {
    let mut d = Dictionary::new();
    for (key, value) in entries {
        d.set(key.as_bytes().to_vec(), value);
    }
    Object::Dictionary(d)
}

fn mark(title: &str, page: ObjectId) -> Bookmark {
    Bookmark::new(title.as_bytes().to_vec(), page)
}

fn fit(page: ObjectId) -> Object {
    Object::Array(vec![Object::Reference(page), name("Fit")])
}

#[test]
fn bookmarks_without_a_page_lead_to_the_first_page() {
    let pages = vec![id(3), id(7)];
    let marks = vec![
        mark("kept", id(7)),
        mark("lost", id(99)),
        mark("null", id(0)),
        mark("generation", ObjectId::new(7, 1)),
    ];
    let fixed = adjust_zero_pages(&marks, &pages);
    assert_eq!(
        fixed,
        vec![mark("kept", id(7)), mark("lost", id(3)), mark("null", id(3)), mark("generation", id(3))]
    );
    // Without any page there is nothing to lead to.
    assert_eq!(adjust_zero_pages(&marks, &Vec::new()), marks);
    assert_eq!(adjust_zero_pages(&Vec::new(), &pages), Vec::new());
}

#[test]
fn the_outline_is_a_chain_below_its_root() {
    let mut doc = Document::new();
    assert!(doc.insert(id(5), Object::Null));
    let marks = vec![mark("one", id(5)), mark("two", id(9)), mark("three", id(5))];
    assert_eq!(build_outline(&mut doc, &marks), Some(id(6)));
    assert_eq!(doc.len(), 5);
    assert_eq!(doc.max_id(), 9);
    assert_eq!(
        doc.get(id(6)),
        Some(&dict(vec![
            ("Type", name("Outlines")),
            ("First", reference(7)),
            ("Last", reference(9)),
            ("Count", Object::Integer(3)),
        ]))
    );
    assert_eq!(
        doc.get(id(7)),
        Some(&dict(vec![
            ("Title", Object::String(b"one".to_vec())),
            ("Parent", reference(6)),
            ("Dest", fit(id(5))),
            ("Next", reference(8)),
        ]))
    );
    assert_eq!(
        doc.get(id(8)),
        Some(&dict(vec![
            ("Title", Object::String(b"two".to_vec())),
            ("Parent", reference(6)),
            ("Dest", fit(id(9))),
            ("Prev", reference(7)),
            ("Next", reference(9)),
        ]))
    );
    assert_eq!(
        doc.get(id(9)),
        Some(&dict(vec![
            ("Title", Object::String(b"three".to_vec())),
            ("Parent", reference(6)),
            ("Dest", fit(id(5))),
            ("Prev", reference(8)),
        ]))
    );
}

#[test]
fn one_bookmark_has_no_neighbours() {
    let mut doc = Document::new();
    assert_eq!(build_outline(&mut doc, &vec![mark("only", id(1))]), Some(id(1)));
    assert_eq!(
        doc.get(id(1)),
        Some(&dict(vec![
            ("Type", name("Outlines")),
            ("First", reference(2)),
            ("Last", reference(2)),
            ("Count", Object::Integer(1)),
        ]))
    );
    assert_eq!(
        doc.get(id(2)),
        Some(&dict(vec![
            ("Title", Object::String(b"only".to_vec())),
            ("Parent", reference(1)),
            ("Dest", fit(id(1))),
        ]))
    );
}

#[test]
fn no_bookmarks_no_outline() {
    let mut doc = Document::new();
    assert!(doc.insert(id(5), Object::Null));
    let before = doc.clone();
    assert_eq!(build_outline(&mut doc, &Vec::new()), None);
    assert_eq!(doc, before);
}

#[test]
fn the_outline_is_hung_into_a_dictionary() {
    let mut doc = Document::new();
    assert!(doc.insert(id(1), dict(vec![("Type", name("Catalog")), ("Outlines", reference(2))])));
    assert!(doc.insert(id(2), Object::Integer(0)));
    attach_outline(&mut doc, id(1), id(8));
    assert_eq!(
        doc.get(id(1)),
        Some(&dict(vec![("Type", name("Catalog")), ("Outlines", reference(8))]))
    );
    let before = doc.clone();
    attach_outline(&mut doc, id(2), id(8));
    attach_outline(&mut doc, id(3), id(8));
    attach_outline(&mut doc, ObjectId::new(1, 1), id(8));
    assert_eq!(doc, before);
}

#[test]
fn the_object_numbers_have_to_suffice() {
    let mut large = Document::new();
    assert!(large.insert(id(u32::MAX - 1), Object::Null));
    let mut small = Document::new();
    assert!(small.insert(id(1), Object::Null));

    // One document that ends at MAX - 1: the next start is MAX.
    let docs = vec![large];
    assert!(can_merge(&docs, 0));
    // An outline of one bookmark takes two numbers more.
    assert!(!can_merge(&docs, 1));
    assert_eq!(merged_pages(&docs), Vec::new());

    let docs = vec![small.clone(), docs.into_iter().next().unwrap()];
    assert!(!can_merge(&docs, 0));

    let docs = vec![small.clone(), small];
    assert!(can_merge(&docs, 0));
    assert!(can_merge(&docs, 1000));
    assert!(can_merge(&docs, (u32::MAX - 4) as usize));
    assert!(!can_merge(&docs, (u32::MAX - 3) as usize));
    assert!(can_merge(&Vec::new(), 0));
}
