use pdf_merge::compress::{compress_stream, compress_streams, pack_stream};
use pdf_merge::document::Document;
use pdf_merge::object::{Dictionary, Object, ObjectId, Stream};

fn name(text: &str) -> Object {
    Object::Name(text.as_bytes().to_vec())
}

fn dict(entries: Vec<(&str, Object)>) -> Dictionary {
    let mut d = Dictionary::new();
    for (key, value) in entries {
        d.set(key.as_bytes().to_vec(), value);
    }
    d
}

fn repetitive() -> Vec<u8> {
    b"0 0 m 10 10 l S\n".iter().cycle().take(1600).cloned().collect()
}

/// What a reader makes of a stream with this dictionary and content.
fn decoded(stream: &Stream) -> Vec<u8> {
    let mut d = lopdf::Dictionary::new();
    if let Some(Object::Name(filter)) = stream.dict.get(b"Filter") {
        d.set("Filter", lopdf::Object::Name(filter.clone()));
    }
    lopdf::Stream::new(d, stream.content.clone())
        .get_plain_content()
        .expect("the content can be decoded")
}

#[test]
fn a_long_stream_is_compressed() {
    let plain = Stream::new(dict(vec![("Length", Object::Integer(1600)), ("Kind", name("X"))]), repetitive());
    let packed = compress_stream(&plain);
    assert!(packed.content.len() + 19 < plain.content.len());
    assert_ne!(packed.content, plain.content);
    assert_eq!(
        packed.dict,
        dict(vec![
            ("Length", Object::Integer(packed.content.len() as i64)),
            ("Kind", name("X")),
            ("Filter", name("FlateDecode")),
        ])
    );
    assert_eq!(decoded(&packed), repetitive());
    // A stream that names an encoding is left alone.
    let again = compress_stream(&packed);
    assert_eq!(again, packed);
}

#[test]
fn a_short_stream_stays() {
    let plain = Stream::new(dict(vec![("Length", Object::Integer(4))]), b"q Q\n".to_vec());
    assert_eq!(compress_stream(&plain), plain);
    let empty = Stream::new(Dictionary::new(), Vec::new());
    assert_eq!(compress_stream(&empty), empty);
}

#[test]
fn a_stream_takes_what_the_encoder_found_worth_taking() {
    let plain = Stream::new(dict(vec![("Kind", name("X"))]), b"plain".to_vec());
    let taken = pack_stream(&plain, true, b"zz".to_vec());
    assert_eq!(
        taken,
        Stream::new(
            dict(vec![
                ("Kind", name("X")),
                ("Filter", name("FlateDecode")),
                ("Length", Object::Integer(2)),
            ]),
            b"zz".to_vec()
        )
    );
    assert_eq!(pack_stream(&plain, false, b"zz".to_vec()), plain);
    let encoded = Stream::new(dict(vec![("Filter", name("DCTDecode"))]), b"plain".to_vec());
    assert_eq!(pack_stream(&encoded, true, b"zz".to_vec()), encoded);
}

#[test]
fn only_the_streams_of_a_document_change() {
    let mut doc = Document::new();
    assert!(doc.insert(ObjectId::new(1, 0), Object::Dictionary(dict(vec![("Length", Object::Integer(1600))]))));
    assert!(doc.insert(ObjectId::new(4, 2), Object::Stream(Stream::new(Dictionary::new(), repetitive()))));
    assert!(doc.insert(ObjectId::new(6, 0), Object::String(repetitive())));
    doc.set_trailer(b"Size".to_vec(), Object::Integer(7));
    let before = doc.clone();
    compress_streams(&mut doc);
    assert_eq!(doc.ids(), before.ids());
    assert_eq!(doc.max_id(), before.max_id());
    assert_eq!(doc.trailer(), before.trailer());
    assert_eq!(doc.object_at(0), before.object_at(0));
    assert_eq!(doc.object_at(2), before.object_at(2));
    match doc.object_at(1) {
        Object::Stream(packed) => {
            assert_eq!(packed.dict.get(b"Filter"), Some(&name("FlateDecode")));
            assert_eq!(packed.dict.get(b"Length"), Some(&Object::Integer(packed.content.len() as i64)));
            assert_eq!(decoded(packed), repetitive());
        }
        other => panic!("the stream became {:?}", other),
    }
}
