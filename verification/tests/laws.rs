use pdf_merge::document::Document;
use pdf_merge::merge::{can_merge, merge, merged_pages};
use pdf_merge::object::{Dictionary, Object, ObjectId, Role};
use pdf_merge::outline::Bookmark;
use pdf_merge::pages::page_list;

/// A small generator of numbers: the same seed gives the same documents.
struct Numbers(u64);

impl Numbers {
    fn next(&mut self, bound: u32) -> u32 {
        self.0 = self.0.wrapping_mul(6364136223846793005).wrapping_add(1442695040888963407);
        ((self.0 >> 33) % bound as u64) as u32
    }
}

fn name(text: &str) -> Object {
    Object::Name(text.as_bytes().to_vec())
}

fn dict(entries: Vec<(&str, Object)>) -> Object {
    let mut d = Dictionary::new();
    for (key, value) in entries {
        d.set(key.as_bytes().to_vec(), value);
    }
    Object::Dictionary(d)
}

/// A document with gaps in its numbering, generations above zero, a page
/// tree of two levels, an outline of its own and some loose objects.
fn document(numbers: &mut Numbers) -> Document {
    let mut doc = Document::new();
    let mut next = 1 + numbers.next(4);
    let mut fresh = |numbers: &mut Numbers| {
        let id = ObjectId::new(next, numbers.next(3) as u16);
        next += 1 + numbers.next(3);
        id
    };
    let catalog = fresh(numbers);
    let root = fresh(numbers);
    let outline = fresh(numbers);
    let mut kids = Vec::new();
    for _ in 0..numbers.next(4) {
        if numbers.next(3) == 0 {
            let node = fresh(numbers);
            let mut below = Vec::new();
            for _ in 0..numbers.next(3) {
                let page = fresh(numbers);
                let content = fresh(numbers);
                doc.insert(content, Object::String(b"content".to_vec()));
                doc.insert(
                    page,
                    dict(vec![
                        ("Type", name("Page")),
                        ("Parent", Object::Reference(node)),
                        ("Contents", Object::Reference(content)),
                    ]),
                );
                below.push(Object::Reference(page));
            }
            doc.insert(
                node,
                dict(vec![
                    ("Type", name("Pages")),
                    ("Parent", Object::Reference(root)),
                    ("Kids", Object::Array(below)),
                ]),
            );
            kids.push(Object::Reference(node));
        } else {
            let page = fresh(numbers);
            doc.insert(page, dict(vec![("Type", name("Page")), ("Parent", Object::Reference(root))]));
            kids.push(Object::Reference(page));
        }
    }
    doc.insert(
        catalog,
        dict(vec![
            ("Type", name("Catalog")),
            ("Pages", Object::Reference(root)),
            ("Outlines", Object::Reference(outline)),
        ]),
    );
    doc.insert(
        root,
        dict(vec![("Type", name("Pages")), ("Kids", Object::Array(kids)), ("Count", Object::Integer(-1))]),
    );
    doc.insert(outline, dict(vec![("Type", name("Outlines"))]));
    doc.set_trailer(b"Root".to_vec(), Object::Reference(catalog));
    doc
}

fn dictionary_at(doc: &Document, id: ObjectId) -> &Dictionary {
    doc.get(id).and_then(|o| o.as_dict()).expect("a dictionary")
}

/// Every reference in `object`, however deep.
fn references(object: &Object, found: &mut Vec<ObjectId>) {
    match object {
        Object::Reference(id) => found.push(*id),
        Object::Array(items) => items.iter().for_each(|item| references(item, found)),
        Object::Dictionary(d) => (0..d.len()).for_each(|i| references(d.value_at(i), found)),
        Object::Stream(s) => (0..s.dict.len()).for_each(|i| references(s.dict.value_at(i), found)),
        _ => {}
    }
}

#[test]
fn what_holds_of_every_merge() {
    for seed in 0..200u64 {
        let mut numbers = Numbers(seed);
        let count = 1 + numbers.next(4) as usize;
        let docs: Vec<Document> = (0..count).map(|_| document(&mut numbers)).collect();
        let expected: usize = docs.iter().map(|d| page_list(d).pages.len()).sum();
        let leaves: usize = docs
            .iter()
            .map(|d| (0..d.len()).filter(|&i| d.object_at(i).role() == Role::Page).count())
            .sum();
        assert_eq!(expected, leaves);
        let pages = merged_pages(&docs);
        assert_eq!(pages.len(), expected);
        let mut bookmarks = Vec::new();
        for i in 0..numbers.next(3) {
            let page = if pages.is_empty() || numbers.next(2) == 0 {
                ObjectId::new(0, 0)
            } else {
                pages[numbers.next(pages.len() as u32) as usize]
            };
            bookmarks.push(Bookmark::new(vec![b'a' + i as u8], page));
        }
        let with_outline = !bookmarks.is_empty();
        assert!(can_merge(&docs, bookmarks.len()));
        let merged = merge(docs, bookmarks).ok().expect("every document has both roots");
        let out = &merged.document;
        assert!(merged.skipped.is_empty());

        // The identifiers are (1, 0) to (N, 0).
        for i in 0..out.len() {
            assert_eq!(out.id_at(i), ObjectId::new(i as u32 + 1, 0));
        }
        assert_eq!(out.max_id() as usize, out.len());

        // One catalog, one page-tree node, and the pages.
        let with_role = |role: Role| -> Vec<ObjectId> {
            (0..out.len()).filter(|&i| out.object_at(i).role() == role).map(|i| out.id_at(i)).collect()
        };
        let catalogs = with_role(Role::Catalog);
        let roots = with_role(Role::Pages);
        assert_eq!(catalogs.len(), 1);
        assert_eq!(roots.len(), 1);
        assert_eq!(with_role(Role::Page).len(), expected);
        assert_eq!(with_role(Role::Outline).len(), 0);
        assert_eq!(with_role(Role::Outlines).len(), if with_outline { 1 } else { 0 });

        // The trailer names the catalog, the catalog the root.
        assert_eq!(out.root(), Some(catalogs[0]));
        let catalog = dictionary_at(out, catalogs[0]);
        assert_eq!(catalog.get(b"Pages"), Some(&Object::Reference(roots[0])));
        assert_eq!(catalog.get(b"PageMode"), Some(&name("UseOutlines")));
        assert_eq!(catalog.has(b"Outlines"), with_outline);

        // The root counts and lists the pages, and every page hangs below it.
        let root = dictionary_at(out, roots[0]);
        assert_eq!(root.get(b"Count"), Some(&Object::Integer(expected as i64)));
        let kids = root.get(b"Kids").and_then(|o| o.as_array()).expect("an array of kids");
        assert_eq!(kids.len(), expected);
        let mut last = 0;
        for kid in kids {
            let id = kid.as_reference().expect("a reference");
            let page = dictionary_at(out, id);
            assert_eq!(page.role(), Role::Page);
            assert_eq!(page.get(b"Parent"), Some(&Object::Reference(roots[0])));
            // The pages come in the order of the inputs, and that is the order of their numbers here.
            assert!(id.number > last);
            last = id.number;
        }

        // No reference leads out of the document, with two exceptions: a
        // bookmark leads nowhere where there is no page at all, and the root
        // has the `Parent` of a nested node of some input, which went.
        let mut found = Vec::new();
        for i in 0..out.len() {
            if out.id_at(i) == roots[0] {
                for entry in 0..root.len() {
                    if root.key_at(entry).as_slice() != b"Parent" {
                        references(root.value_at(entry), &mut found);
                    }
                }
            } else {
                references(out.object_at(i), &mut found);
            }
        }
        for id in found {
            assert!(
                out.contains(id) || (expected == 0 && id == ObjectId::new(0, 0)),
                "seed {}: {:?}",
                seed,
                id
            );
        }
    }
}
