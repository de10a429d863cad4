use pdf_merge::document::Document;
use pdf_merge::merge::{can_merge, merge, merged_pages};
use pdf_merge::object::{Dictionary, Object, ObjectId, Role, Stream};
use pdf_merge::outline::Bookmark;
use pdf_merge::structure::{MergeError, SkippedPage};

fn name(text: &str) -> Object {
    Object::Name(text.as_bytes().to_vec())
}

fn reference(number: u32) -> Object {
    Object::Reference(ObjectId::new(number, 0))
}

fn dict(entries: Vec<(&str, Object)>) -> Dictionary {
    let mut d = Dictionary::new();
    for (key, value) in entries {
        d.set(key.as_bytes().to_vec(), value);
    }
    d
}

fn put(doc: &mut Document, number: u32, object: Object) {
    assert!(doc.insert(ObjectId::new(number, 0), object));
}

fn page(parent: u32, contents: u32) -> Object {
    Object::Dictionary(dict(vec![
        ("Type", name("Page")),
        ("Parent", reference(parent)),
        ("Contents", reference(contents)),
    ]))
}

fn content(text: &str) -> Object {
    Object::Stream(Stream::new(Dictionary::new(), text.as_bytes().to_vec()))
}

/// Catalog 1, page-tree root 2, then for each page a page object and its
/// content stream, from number 3 on.
fn document_with_pages(texts: &[&str]) -> Document {
    let mut doc = Document::new();
    put(
        &mut doc,
        1,
        Object::Dictionary(dict(vec![("Type", name("Catalog")), ("Pages", reference(2))])),
    );
    let mut kids = Vec::new();
    for (i, text) in texts.iter().enumerate() {
        let number = 3 + 2 * i as u32;
        kids.push(reference(number));
        put(&mut doc, number, page(2, number + 1));
        put(&mut doc, number + 1, content(text));
    }
    put(
        &mut doc,
        2,
        Object::Dictionary(dict(vec![
            ("Type", name("Pages")),
            ("Kids", Object::Array(kids)),
            ("Count", Object::Integer(texts.len() as i64)),
        ])),
    );
    doc.set_trailer(b"Root".to_vec(), reference(1));
    doc
}

fn get<'a>(doc: &'a Document, number: u32) -> &'a Dictionary {
    match doc.get(ObjectId::new(number, 0)) {
        Some(Object::Dictionary(d)) => d,
        other => panic!("object {} is no dictionary: {:?}", number, other),
    }
}

fn count_role(doc: &Document, role: Role) -> usize {
    (0..doc.len()).filter(|&i| doc.object_at(i).role() == role).count()
}

#[test]
fn two_documents_of_one_page_each() {
    let a = document_with_pages(&["a1"]);
    let b = document_with_pages(&["b1"]);
    let docs = vec![a, b];
    assert!(can_merge(&docs, 0));
    let merged = merge(docs, Vec::new()).expect("both roots are there");
    let out = &merged.document;
    assert!(merged.skipped.is_empty());

    // Of A: catalog 1, root 2, page 3, content 4. Of B, renumbered to 5..=8,
    // the catalog and the root go; page 7 and content 8 move down to 5 and 6.
    assert_eq!(out.len(), 6);
    assert_eq!(out.max_id(), 6);
    assert_eq!(out.root(), Some(ObjectId::new(1, 0)));
    assert_eq!(out.trailer().get(b"Root"), Some(&reference(1)));
    assert_eq!(out.trailer().len(), 1);

    let catalog = get(out, 1);
    assert_eq!(catalog.role(), Role::Catalog);
    assert_eq!(catalog.get(b"Pages"), Some(&reference(2)));
    assert_eq!(catalog.get(b"PageMode"), Some(&name("UseOutlines")));
    assert_eq!(catalog.get(b"Outlines"), None);

    let root = get(out, 2);
    assert_eq!(root.role(), Role::Pages);
    assert_eq!(root.get(b"Count"), Some(&Object::Integer(2)));
    assert_eq!(root.get(b"Kids"), Some(&Object::Array(vec![reference(3), reference(5)])));

    assert_eq!(get(out, 3).get(b"Parent"), Some(&reference(2)));
    assert_eq!(get(out, 3).get(b"Contents"), Some(&reference(4)));
    assert_eq!(get(out, 5).get(b"Parent"), Some(&reference(2)));
    assert_eq!(get(out, 5).get(b"Contents"), Some(&reference(6)));
    assert_eq!(out.get(ObjectId::new(4, 0)), Some(&content("a1")));
    assert_eq!(out.get(ObjectId::new(6, 0)), Some(&content("b1")));

    assert_eq!(count_role(out, Role::Catalog), 1);
    assert_eq!(count_role(out, Role::Pages), 1);
    assert_eq!(count_role(out, Role::Page), 2);
}

#[test]
fn single_document_keeps_its_page_tree() {
    let a = document_with_pages(&["first", "second"]);
    let before = a.clone();
    let merged = merge(vec![a], Vec::new()).expect("both roots are there");
    let out = &merged.document;

    // Numbers 1..=6 are dense already: compaction changes nothing.
    assert_eq!(out.len(), before.len());
    let root = get(out, 2);
    assert_eq!(root.get(b"Count"), Some(&Object::Integer(2)));
    assert_eq!(root.get(b"Kids"), get(&before, 2).get(b"Kids"));
    assert_eq!(root.get(b"Kids"), Some(&Object::Array(vec![reference(3), reference(5)])));
    assert_eq!(out.get(ObjectId::new(3, 0)), before.get(ObjectId::new(3, 0)));
    assert_eq!(out.get(ObjectId::new(5, 0)), before.get(ObjectId::new(5, 0)));
    assert_eq!(get(out, 3).get(b"Parent"), Some(&reference(2)));
    assert_eq!(get(out, 5).get(b"Parent"), Some(&reference(2)));

    let catalog = get(out, 1);
    assert!(!catalog.has(b"Outlines"));
    assert_eq!(count_role(out, Role::Outlines), 0);
}

#[test]
fn bookmark_to_an_unknown_page_leads_to_the_first_page() {
    let docs = vec![document_with_pages(&["a1"]), document_with_pages(&["b1"])];
    let pages = merged_pages(&docs);
    assert_eq!(pages, vec![ObjectId::new(3, 0), ObjectId::new(7, 0)]);

    let bookmarks = vec![
        Bookmark::new(b"Second".to_vec(), pages[1]),
        Bookmark::new(b"Lost".to_vec(), ObjectId::new(99, 0)),
        Bookmark::new(b"Null".to_vec(), ObjectId::new(0, 0)),
    ];
    assert!(can_merge(&docs, bookmarks.len()));
    let merged = merge(docs, bookmarks).expect("both roots are there");
    let out = &merged.document;

    // Six objects of the inputs stay; the outline root is 7, its items 8..=10.
    assert_eq!(out.len(), 10);
    assert_eq!(out.max_id(), 10);
    assert_eq!(get(out, 1).get(b"Outlines"), Some(&reference(7)));

    let root = get(out, 7);
    assert_eq!(root.role(), Role::Outlines);
    assert_eq!(root.get(b"First"), Some(&reference(8)));
    assert_eq!(root.get(b"Last"), Some(&reference(10)));
    assert_eq!(root.get(b"Count"), Some(&Object::Integer(3)));

    let fit = |number: u32| Object::Array(vec![reference(number), name("Fit")]);
    let second = get(out, 8);
    assert_eq!(second.get(b"Title"), Some(&Object::String(b"Second".to_vec())));
    assert_eq!(second.get(b"Parent"), Some(&reference(7)));
    assert_eq!(second.get(b"Dest"), Some(&fit(5)));
    assert_eq!(second.get(b"Prev"), None);
    assert_eq!(second.get(b"Next"), Some(&reference(9)));

    let lost = get(out, 9);
    assert_eq!(lost.get(b"Title"), Some(&Object::String(b"Lost".to_vec())));
    assert_eq!(lost.get(b"Dest"), Some(&fit(3)));
    assert_eq!(lost.get(b"Prev"), Some(&reference(8)));
    assert_eq!(lost.get(b"Next"), Some(&reference(10)));

    let null = get(out, 10);
    assert_eq!(null.get(b"Dest"), Some(&fit(3)));
    assert_eq!(null.get(b"Prev"), Some(&reference(9)));
    assert_eq!(null.get(b"Next"), None);
}

#[test]
fn no_page_tree_anywhere_is_missing_pages_root() {
    let mut a = Document::new();
    put(&mut a, 1, Object::Dictionary(dict(vec![("Type", name("Catalog"))])));
    let mut b = Document::new();
    put(&mut b, 1, Object::Integer(7));
    let failed = merge(vec![a, b], Vec::new()).err();
    assert_eq!(failed, Some(MergeError::MissingPagesRoot));
}

#[test]
fn neither_root_is_missing_pages_root() {
    let mut a = Document::new();
    put(&mut a, 1, Object::Null);
    assert_eq!(merge(vec![a], Vec::new()).err(), Some(MergeError::MissingPagesRoot));
    assert_eq!(merge(Vec::new(), Vec::new()).err(), Some(MergeError::MissingPagesRoot));
}

#[test]
fn page_tree_without_catalog_is_missing_catalog_root() {
    let mut a = Document::new();
    put(&mut a, 1, Object::Dictionary(dict(vec![("Type", name("Pages"))])));
    let failed = merge(vec![a], Vec::new()).err();
    assert_eq!(failed, Some(MergeError::MissingCatalogRoot));
    assert_eq!(MergeError::MissingCatalogRoot.message(), "Catalog root not found.");
    assert_eq!(MergeError::MissingPagesRoot.message(), "Pages root not found.");
}

#[test]
fn roots_of_one_input_serve_for_all() {
    // The second input has neither catalog nor page tree: its objects are
    // carried over, and the merge succeeds on the roots of the first.
    let a = document_with_pages(&["a1"]);
    let mut b = Document::new();
    put(&mut b, 1, Object::Integer(42));
    let merged = merge(vec![a, b], Vec::new()).expect("the first input has both roots");
    assert_eq!(merged.document.len(), 5);
    assert_eq!(merged.document.get(ObjectId::new(5, 0)), Some(&Object::Integer(42)));
}

#[test]
fn unreadable_page_entry_is_left_out_and_reported() {
    let mut a = document_with_pages(&["a1"]);
    // A second kid that leads nowhere, and a third that leads to a number.
    put(&mut a, 9, Object::Integer(1));
    put(
        &mut a,
        2,
        Object::Dictionary(dict(vec![
            ("Type", name("Pages")),
            ("Kids", Object::Array(vec![reference(3), reference(50), reference(9)])),
            ("Count", Object::Integer(3)),
        ])),
    );
    let b = document_with_pages(&["b1"]);
    let merged = merge(vec![a, b], Vec::new()).expect("both roots are there");
    assert_eq!(
        merged.skipped,
        vec![
            SkippedPage { document: 0, id: ObjectId::new(50, 0) },
            SkippedPage { document: 0, id: ObjectId::new(9, 0) },
        ]
    );
    let root = get(&merged.document, 2);
    assert_eq!(root.get(b"Count"), Some(&Object::Integer(2)));
    // A: 1, 2, 3, 4, 9; B from 10: page 12, content 13. Dense: 9 -> 5, 12 -> 6.
    assert_eq!(root.get(b"Kids"), Some(&Object::Array(vec![reference(3), reference(6)])));
}
