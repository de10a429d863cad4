use pdf_merge::object::{bytes_copy, bytes_eq, role_from_name, Dictionary, Object, ObjectId, Role, Stream};

fn name(text: &str) -> Object {
    Object::Name(text.as_bytes().to_vec())
}

#[test]
fn dictionary_keeps_the_order_of_first_setting() {
    let mut d = Dictionary::new();
    assert_eq!(d.len(), 0);
    d.set(b"A".to_vec(), Object::Integer(1));
    d.set(b"B".to_vec(), Object::Integer(2));
    d.set(b"A".to_vec(), Object::Integer(3));
    assert_eq!(d.len(), 2);
    assert_eq!(d.key_at(0), &b"A".to_vec());
    assert_eq!(d.value_at(0), &Object::Integer(3));
    assert_eq!(d.key_at(1), &b"B".to_vec());
    assert_eq!(d.position(b"B"), Some(1));
    assert_eq!(d.position(b"C"), None);
    assert_eq!(d.get(b"A"), Some(&Object::Integer(3)));
    assert_eq!(d.get(b"C"), None);
    assert!(d.has(b"B"));
    assert!(!d.has(b"b"));
}

#[test]
fn dictionary_remove_closes_the_gap() {
    let mut d = Dictionary::new();
    d.set(b"A".to_vec(), Object::Integer(1));
    d.set(b"B".to_vec(), Object::Integer(2));
    d.set(b"C".to_vec(), Object::Integer(3));
    assert!(d.remove(b"B"));
    assert!(!d.remove(b"B"));
    assert_eq!(d.len(), 2);
    assert_eq!(d.key_at(0), &b"A".to_vec());
    assert_eq!(d.key_at(1), &b"C".to_vec());
    assert_eq!(d.get(b"B"), None);
    assert_eq!(d.get(b"C"), Some(&Object::Integer(3)));
}

#[test]
fn role_is_read_from_the_type_of_a_dictionary() {
    for (text, role) in [
        ("Catalog", Role::Catalog),
        ("Pages", Role::Pages),
        ("Page", Role::Page),
        ("Outlines", Role::Outlines),
        ("Outline", Role::Outline),
        ("Font", Role::Other),
        ("page", Role::Other),
        ("", Role::Other),
    ] {
        assert_eq!(role_from_name(text.as_bytes()), role);
        let mut d = Dictionary::new();
        d.set(b"Length".to_vec(), Object::Integer(0));
        d.set(b"Type".to_vec(), name(text));
        assert_eq!(d.role(), role);
        assert_eq!(Object::Dictionary(d.clone()).role(), role);
        // A stream is no dictionary, whatever its dictionary says.
        assert_eq!(Object::Stream(Stream::new(d, Vec::new())).role(), Role::Other);
    }
    let mut d = Dictionary::new();
    assert_eq!(d.role(), Role::Other);
    d.set(b"Type".to_vec(), Object::String(b"Pages".to_vec()));
    assert_eq!(d.role(), Role::Other);
    assert_eq!(Object::Null.role(), Role::Other);
    assert_eq!(name("Pages").role(), Role::Other);
}

#[test]
fn copies_are_equal_and_deep() {
    let mut inner = Dictionary::new();
    inner.set(b"K".to_vec(), Object::Array(vec![Object::Real(0x3f80_0000), Object::Null]));
    let object = Object::Array(vec![
        Object::Boolean(true),
        Object::Dictionary(inner.clone()),
        Object::Stream(Stream::new(inner, b"data".to_vec())),
        Object::Reference(ObjectId::new(4, 2)),
        Object::String(b"text".to_vec()),
    ]);
    assert_eq!(object.duplicate(), object);
    assert_eq!(object.clone(), object);
}

#[test]
fn accessors_tell_the_variants_apart() {
    let id = ObjectId::new(7, 1);
    assert_eq!(id.number, 7);
    assert_eq!(id.generation, 1);
    assert_eq!(Object::Reference(id).as_reference(), Some(id));
    assert_eq!(Object::Integer(7).as_reference(), None);
    assert_eq!(Object::Array(vec![Object::Null]).as_array(), Some(&vec![Object::Null]));
    assert_eq!(Object::Null.as_array(), None);
    let d = Dictionary::new();
    assert_eq!(Object::Dictionary(d.clone()).as_dict(), Some(&d));
    assert_eq!(Object::Stream(Stream::new(d, Vec::new())).as_dict(), None);
}

#[test]
fn byte_strings_compare_and_copy() {
    assert!(bytes_eq(b"Pages", b"Pages"));
    assert!(!bytes_eq(b"Pages", b"Page"));
    assert!(!bytes_eq(b"Pages", b"Pagez"));
    assert!(bytes_eq(b"", b""));
    assert_eq!(bytes_copy(b"Kids"), b"Kids".to_vec());
}
