use pdf_merge::document::Document;
use pdf_merge::object::{Dictionary, Object, ObjectId};
use pdf_merge::pages::{page_list, PageList, PAGE_TREE_DEPTH};

fn name(text: &str) -> Object {
    Object::Name(text.as_bytes().to_vec())
}

fn id(number: u32) -> ObjectId {
    ObjectId::new(number, 0)
}

fn reference(number: u32) -> Object {
    Object::Reference(id(number))
}

fn dict(entries: Vec<(&str, Object)>) -> Object {
    let mut d = Dictionary::new();
    for (key, value) in entries {
        d.set(key.as_bytes().to_vec(), value);
    }
    Object::Dictionary(d)
}

fn put(doc: &mut Document, number: u32, object: Object) {
    assert!(doc.insert(id(number), object));
}

fn node(kids: Vec<Object>) -> Object {
    dict(vec![("Type", name("Pages")), ("Kids", Object::Array(kids))])
}

fn leaf() -> Object {
    dict(vec![("Type", name("Page"))])
}

/// A document whose catalog is object 1 and whose page-tree root is object 2.
fn document(root: Object) -> Document {
    let mut doc = Document::new();
    put(&mut doc, 1, dict(vec![("Type", name("Catalog")), ("Pages", reference(2))]));
    put(&mut doc, 2, root);
    doc.set_trailer(b"Root".to_vec(), reference(1));
    doc
}

fn pages(numbers: &[u32]) -> Vec<ObjectId> {
    numbers.iter().map(|n| id(*n)).collect()
}

#[test]
fn nested_nodes_are_flattened_in_reading_order() {
    let mut doc = document(node(vec![reference(3), reference(6)]));
    put(&mut doc, 3, node(vec![reference(5), reference(4)]));
    put(&mut doc, 4, leaf());
    put(&mut doc, 5, leaf());
    put(&mut doc, 6, leaf());
    let list = page_list(&doc);
    assert_eq!(list, PageList { pages: pages(&[5, 4, 6]), skipped: Vec::new() });
}

#[test]
fn kids_may_be_referred_to() {
    let mut doc = document(dict(vec![("Type", name("Pages")), ("Kids", reference(7))]));
    put(&mut doc, 4, leaf());
    put(&mut doc, 7, Object::Array(vec![reference(4)]));
    assert_eq!(page_list(&doc).pages, pages(&[4]));
}

#[test]
fn entries_that_are_no_pages() {
    let mut doc = document(node(vec![
        Object::Integer(3),
        reference(3),
        reference(4),
        reference(40),
        reference(5),
        reference(6),
    ]));
    put(&mut doc, 3, dict(vec![("Type", name("Font"))]));
    put(&mut doc, 4, leaf());
    put(&mut doc, 5, Object::Array(Vec::new()));
    put(&mut doc, 6, dict(Vec::new()));
    put(&mut doc, 7, leaf());
    let list = page_list(&doc);
    // A number and dictionaries of other roles add nothing. What leads to no
    // dictionary at all is noted. Page 7 hangs nowhere and is not found.
    assert_eq!(list.pages, pages(&[4]));
    assert_eq!(list.skipped, pages(&[40, 5]));
}

#[test]
fn a_broken_chain_gives_no_pages() {
    let empty = PageList { pages: Vec::new(), skipped: Vec::new() };

    let mut doc = Document::new();
    put(&mut doc, 4, leaf());
    assert_eq!(page_list(&doc), empty);

    let mut doc = document(node(vec![reference(4)]));
    put(&mut doc, 4, leaf());
    doc.set_trailer(b"Root".to_vec(), reference(9));
    assert_eq!(page_list(&doc), empty);

    doc.set_trailer(b"Root".to_vec(), reference(4));
    assert_eq!(page_list(&doc), empty);

    doc.set_trailer(b"Root".to_vec(), reference(1));
    assert_eq!(page_list(&doc).pages, pages(&[4]));
    put(&mut doc, 1, dict(vec![("Type", name("Catalog")), ("Pages", Object::Integer(2))]));
    assert_eq!(page_list(&doc), empty);
    put(&mut doc, 1, dict(vec![("Type", name("Catalog")), ("Pages", reference(2))]));
    put(&mut doc, 2, Object::Integer(0));
    assert_eq!(page_list(&doc), empty);
    put(&mut doc, 2, dict(vec![("Type", name("Pages"))]));
    assert_eq!(page_list(&doc), empty);
}

#[test]
fn a_cycle_ends_when_the_budget_is_spent() {
    // The root lists itself. Three objects allow three entries.
    let mut doc = document(node(vec![reference(2), reference(3)]));
    put(&mut doc, 3, leaf());
    assert_eq!(page_list(&doc), PageList { pages: Vec::new(), skipped: Vec::new() });

    let mut doc = document(node(vec![reference(3), reference(2)]));
    put(&mut doc, 3, leaf());
    assert_eq!(page_list(&doc).pages, pages(&[3, 3]));
}

/// A chain of `nodes` page-tree nodes below the root, a page below the last.
fn chain(nodes: u32) -> Document {
    let mut doc = document(node(vec![reference(3)]));
    for level in 1..=nodes {
        put(&mut doc, 2 + level, node(vec![reference(3 + level)]));
    }
    put(&mut doc, 3 + nodes, leaf());
    doc
}

#[test]
fn the_walk_descends_to_its_depth_and_no_further() {
    assert_eq!(PAGE_TREE_DEPTH, 256);
    assert_eq!(page_list(&chain(0)).pages, pages(&[3]));
    assert_eq!(page_list(&chain(PAGE_TREE_DEPTH)).pages, pages(&[3 + PAGE_TREE_DEPTH]));
    assert_eq!(page_list(&chain(PAGE_TREE_DEPTH + 1)).pages, Vec::new());
}
