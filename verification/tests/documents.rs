use pdf_merge::document::{find_id, find_lower_bound, Document};
use pdf_merge::object::{Dictionary, Object, ObjectId, Stream};
use pdf_merge::renumber::{lookup, renumbered_objects, rewrite_object, shift_id};

fn reference(number: u32, generation: u16) -> Object {
    Object::Reference(ObjectId::new(number, generation))
}

fn dict(entries: Vec<(&str, Object)>) -> Dictionary {
    let mut d = Dictionary::new();
    for (key, value) in entries {
        d.set(key.as_bytes().to_vec(), value);
    }
    d
}

fn ids_of(doc: &Document) -> Vec<(u32, u16)> {
    doc.ids().iter().map(|id| (id.number, id.generation)).collect()
}

#[test]
fn objects_are_kept_in_the_order_of_their_numbers() {
    let mut doc = Document::new();
    assert_eq!(doc.len(), 0);
    assert_eq!(doc.max_id(), 0);
    assert_eq!(doc.highest_number(), 0);
    assert!(doc.insert(ObjectId::new(5, 0), Object::Integer(5)));
    assert!(doc.insert(ObjectId::new(2, 1), Object::Integer(2)));
    assert!(doc.insert(ObjectId::new(9, 0), Object::Integer(9)));
    assert_eq!(ids_of(&doc), vec![(2, 1), (5, 0), (9, 0)]);
    assert_eq!(doc.max_id(), 9);
    assert_eq!(doc.highest_number(), 9);
    assert_eq!(doc.id_at(1), ObjectId::new(5, 0));
    assert_eq!(doc.object_at(1), &Object::Integer(5));
    assert_eq!(doc.position(ObjectId::new(9, 0)), Some(2));
    assert_eq!(doc.get(ObjectId::new(2, 1)), Some(&Object::Integer(2)));
    // The generation belongs to the identifier.
    assert_eq!(doc.get(ObjectId::new(2, 0)), None);
    assert!(!doc.contains(ObjectId::new(3, 0)));
}

#[test]
fn a_number_names_one_object() {
    let mut doc = Document::new();
    assert!(doc.insert(ObjectId::new(4, 0), Object::Integer(1)));
    assert!(doc.insert(ObjectId::new(4, 2), Object::Integer(2)));
    assert_eq!(ids_of(&doc), vec![(4, 2)]);
    assert_eq!(doc.get(ObjectId::new(4, 2)), Some(&Object::Integer(2)));
    assert_eq!(doc.get(ObjectId::new(4, 0)), None);
}

#[test]
fn the_number_zero_is_refused() {
    let mut doc = Document::new();
    assert!(doc.insert(ObjectId::new(1, 0), Object::Null));
    let before = doc.clone();
    assert!(!doc.insert(ObjectId::new(0, 0), Object::Integer(1)));
    assert!(!doc.insert(ObjectId::new(0, 65535), Object::Integer(1)));
    assert_eq!(doc, before);
}

#[test]
fn fresh_identifiers_come_from_the_counter() {
    let mut doc = Document::new();
    assert!(doc.insert(ObjectId::new(7, 3), Object::Null));
    assert_eq!(doc.add_object(Object::Integer(1)), ObjectId::new(8, 0));
    assert_eq!(doc.add_object(Object::Integer(2)), ObjectId::new(9, 0));
    assert_eq!(doc.max_id(), 9);
    assert_eq!(ids_of(&doc), vec![(7, 3), (8, 0), (9, 0)]);
    doc.replace_at(1, Object::Boolean(true));
    assert_eq!(doc.get(ObjectId::new(8, 0)), Some(&Object::Boolean(true)));
    assert_eq!(ids_of(&doc), vec![(7, 3), (8, 0), (9, 0)]);
}

#[test]
fn trailer_and_root() {
    let mut doc = Document::new();
    assert_eq!(doc.root(), None);
    doc.set_trailer(b"Root".to_vec(), Object::Integer(1));
    assert_eq!(doc.root(), None);
    doc.set_trailer(b"Root".to_vec(), reference(3, 0));
    doc.set_trailer(b"Size".to_vec(), Object::Integer(4));
    assert_eq!(doc.root(), Some(ObjectId::new(3, 0)));
    assert_eq!(doc.trailer().len(), 2);
    assert_eq!(doc.duplicate(), doc);
}

#[test]
fn searches_in_sorted_identifiers() {
    let ids = vec![ObjectId::new(2, 0), ObjectId::new(5, 1), ObjectId::new(9, 0)];
    assert_eq!(find_lower_bound(&ids, 0), 0);
    assert_eq!(find_lower_bound(&ids, 2), 0);
    assert_eq!(find_lower_bound(&ids, 3), 1);
    assert_eq!(find_lower_bound(&ids, 5), 1);
    assert_eq!(find_lower_bound(&ids, 9), 2);
    assert_eq!(find_lower_bound(&ids, 10), 3);
    assert_eq!(find_id(&ids, ObjectId::new(5, 1)), Some(1));
    assert_eq!(find_id(&ids, ObjectId::new(5, 0)), None);
    assert_eq!(find_id(&ids, ObjectId::new(1, 0)), None);
    assert_eq!(find_id(&Vec::new(), ObjectId::new(1, 0)), None);
}

fn sample() -> Document {
    let mut doc = Document::new();
    assert!(doc.insert(ObjectId::new(2, 0), Object::Integer(7)));
    assert!(doc.insert(
        ObjectId::new(5, 3),
        Object::Dictionary(dict(vec![
            ("A", reference(2, 0)),
            ("B", Object::Array(vec![reference(5, 3), reference(9, 0), Object::Integer(2)])),
            ("C", reference(5, 0)),
            ("D", Object::Dictionary(dict(vec![("E", reference(2, 0))]))),
        ])),
    ));
    assert!(doc.insert(
        ObjectId::new(6, 0),
        Object::Stream(Stream::new(dict(vec![("F", reference(5, 3))]), b"body".to_vec())),
    ));
    doc.set_trailer(b"Root".to_vec(), reference(5, 3));
    doc
}

#[test]
fn renumbering_moves_numbers_up_and_resets_generations() {
    let mut doc = sample();
    // Number n becomes n - 1 + 10; the next start is 10 + 6.
    assert_eq!(doc.renumber(10), 16);
    assert_eq!(ids_of(&doc), vec![(11, 0), (14, 0), (15, 0)]);
    assert_eq!(doc.max_id(), 15);
    assert_eq!(doc.get(ObjectId::new(11, 0)), Some(&Object::Integer(7)));
    assert_eq!(
        doc.get(ObjectId::new(14, 0)),
        Some(&Object::Dictionary(dict(vec![
            ("A", reference(11, 0)),
            // A reference to an identifier that the document does not hold stays.
            ("B", Object::Array(vec![reference(14, 0), reference(9, 0), Object::Integer(2)])),
            ("C", reference(5, 0)),
            ("D", Object::Dictionary(dict(vec![("E", reference(11, 0))]))),
        ])))
    );
    assert_eq!(
        doc.get(ObjectId::new(15, 0)),
        Some(&Object::Stream(Stream::new(dict(vec![("F", reference(14, 0))]), b"body".to_vec())))
    );
    assert_eq!(doc.root(), Some(ObjectId::new(14, 0)));
}

#[test]
fn renumbering_from_one_keeps_the_numbers() {
    let mut doc = sample();
    assert_eq!(doc.renumber(1), 7);
    assert_eq!(ids_of(&doc), vec![(2, 0), (5, 0), (6, 0)]);
    assert_eq!(doc.max_id(), 6);
    assert_eq!(doc.root(), Some(ObjectId::new(5, 0)));
}

#[test]
fn renumbering_an_empty_document_gives_the_start_back() {
    let mut doc = Document::new();
    assert_eq!(doc.renumber(5), 5);
    assert_eq!(doc.len(), 0);
    assert_eq!(doc.max_id(), 4);
}

#[test]
fn two_copies_get_ranges_of_their_own() {
    let mut first = sample();
    let mut second = sample();
    let next = first.renumber(1);
    let end = second.renumber(next);
    assert_eq!((next, end), (7, 13));
    assert_eq!(ids_of(&first), vec![(2, 0), (5, 0), (6, 0)]);
    assert_eq!(ids_of(&second), vec![(8, 0), (11, 0), (12, 0)]);
    for id in first.ids() {
        assert!(!second.contains(*id));
    }
}

#[test]
fn a_cycle_of_references_is_rewritten_once() {
    let mut doc = Document::new();
    assert!(doc.insert(ObjectId::new(1, 0), Object::Dictionary(dict(vec![("Next", reference(2, 0))]))));
    assert!(doc.insert(ObjectId::new(2, 0), Object::Dictionary(dict(vec![("Next", reference(1, 0))]))));
    assert_eq!(doc.renumber(2), 4);
    // 1 -> 2 and 2 -> 3: a second pass over the result would send 2 on to 3.
    assert_eq!(
        doc.get(ObjectId::new(2, 0)),
        Some(&Object::Dictionary(dict(vec![("Next", reference(3, 0))])))
    );
    assert_eq!(
        doc.get(ObjectId::new(3, 0)),
        Some(&Object::Dictionary(dict(vec![("Next", reference(2, 0))])))
    );
}

#[test]
fn the_table_sends_known_identifiers_and_keeps_the_others() {
    let from = vec![ObjectId::new(2, 0), ObjectId::new(5, 1)];
    let to = vec![ObjectId::new(20, 0), ObjectId::new(50, 0)];
    assert_eq!(lookup(&from, &to, ObjectId::new(5, 1)), ObjectId::new(50, 0));
    assert_eq!(lookup(&from, &to, ObjectId::new(5, 0)), ObjectId::new(5, 0));
    assert_eq!(lookup(&from, &to, ObjectId::new(3, 0)), ObjectId::new(3, 0));
    let object = Object::Array(vec![reference(2, 0), reference(7, 0), Object::Null]);
    assert_eq!(
        rewrite_object(&object, &from, &to),
        Object::Array(vec![reference(20, 0), reference(7, 0), Object::Null])
    );
    assert_eq!(shift_id(ObjectId::new(3, 9), 100), ObjectId::new(102, 0));
    assert_eq!(shift_id(ObjectId::new(1, 0), 1), ObjectId::new(1, 0));
}

#[test]
fn renumbered_objects_leave_the_document_alone() {
    let doc = sample();
    let (ids, objects) = renumbered_objects(&doc, 3);
    assert_eq!(ids, vec![ObjectId::new(4, 0), ObjectId::new(7, 0), ObjectId::new(8, 0)]);
    assert_eq!(objects.len(), 3);
    assert_eq!(objects[0], Object::Integer(7));
    assert_eq!(doc, sample());
}

#[test]
fn compaction_gives_the_numbers_from_one() {
    let mut doc = Document::new();
    assert!(doc.insert(ObjectId::new(3, 0), Object::Array(vec![reference(20, 4), reference(8, 0)])));
    assert!(doc.insert(ObjectId::new(7, 1), Object::Integer(1)));
    assert!(doc.insert(ObjectId::new(20, 4), Object::Dictionary(dict(vec![("Up", reference(3, 0))]))));
    doc.set_trailer(b"Root".to_vec(), reference(20, 4));
    doc.compact();
    assert_eq!(ids_of(&doc), vec![(1, 0), (2, 0), (3, 0)]);
    assert_eq!(doc.max_id(), 3);
    assert_eq!(
        doc.get(ObjectId::new(1, 0)),
        Some(&Object::Array(vec![reference(3, 0), reference(8, 0)]))
    );
    // Nothing refers to the second object: it stays all the same.
    assert_eq!(doc.get(ObjectId::new(2, 0)), Some(&Object::Integer(1)));
    assert_eq!(
        doc.get(ObjectId::new(3, 0)),
        Some(&Object::Dictionary(dict(vec![("Up", reference(1, 0))])))
    );
    assert_eq!(doc.root(), Some(ObjectId::new(3, 0)));
    let once = doc.clone();
    doc.compact();
    assert_eq!(doc, once);
}
