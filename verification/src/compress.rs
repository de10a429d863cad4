//! Recompression of streams: a stream that names no encoding is compressed
//! with zlib, where that makes it smaller.
//!
//! The compression itself is the work of `lopdf`. What this module decides is
//! which streams are offered to it and what becomes of a stream once the
//! answer is there.

use crate::document::Document;
use crate::names::{
    bytes_filter, bytes_flate_decode, bytes_length, name_filter, name_flate_decode, name_length,
};
use crate::object::{bytes_copy, dict_has, dict_set, DictView, Object, ObjectView, Stream};
use vstd::prelude::*;

verus! {

/// The dictionary of a stream whose content has been replaced by `length`
/// compressed bytes.
pub open spec fn packed_dict(dict: DictView, length: int) -> DictView {
    dict_set(
        dict_set(dict, name_filter(), ObjectView::Name(name_flate_decode())),
        name_length(),
        ObjectView::Integer(length as i64),
    )
}

/// What becomes of a stream with the dictionary `dict` and the content
/// `content` once the encoder has answered: `packed` says whether it found
/// the compressed form worth taking, and `bytes` is that form. The stream
/// takes it if it named no encoding before; else it stays as it is.
pub open spec fn pack(dict: DictView, content: Seq<u8>, packed: bool, bytes: Seq<u8>) -> (
    DictView,
    Seq<u8>,
) {
    if packed && !dict_has(dict, name_filter()) && bytes.len() <= i64::MAX {
        (packed_dict(dict, bytes.len() as int), bytes)
    } else {
        (dict, content)
    }
}

/// What `lopdf` makes of a content that it is asked to compress: whether it
/// found the compressed form worth taking, and the content afterwards.
pub uninterp spec fn deflated(content: Seq<u8>) -> (bool, Seq<u8>);

/// What compression makes of a stream: one that names an encoding stays as it
/// is, any other takes what the encoder made of its content.
pub open spec fn compressed(dict: DictView, content: Seq<u8>) -> (DictView, Seq<u8>) {
    if dict_has(dict, name_filter()) {
        (dict, content)
    } else {
        pack(dict, content, deflated(content).0, deflated(content).1)
    }
}

/// What compression makes of an object: of a stream what [`compressed`] says,
/// of anything else the same object.
pub open spec fn compressed_object(o: ObjectView) -> ObjectView {
    match o {
        ObjectView::Stream(dict, content) => ObjectView::Stream(
            compressed(dict, content).0,
            compressed(dict, content).1,
        ),
        other => other,
    }
}

/// `after` is what compression may make of `before`: the same object, or, for
/// a stream that names no encoding, the stream with a content more than 19
/// bytes shorter, `Filter` set to `FlateDecode` and `Length` to the new
/// length.
pub open spec fn may_compress_to(before: ObjectView, after: ObjectView) -> bool {
    ||| after == before
    ||| {
        &&& before matches ObjectView::Stream(dict, content)
        &&& after matches ObjectView::Stream(packed, bytes)
        &&& !dict_has(dict, name_filter())
        &&& bytes.len() + 19 < content.len()
        &&& packed == packed_dict(dict, bytes.len() as int)
    }
}

/// `lopdf::Stream::compress`, called on a stream that `lopdf::Stream::new`
/// makes from an empty dictionary and a copy of `content`. Returns whether the
/// stream carries a `Filter` entry afterwards, and its content afterwards.
///
/// Believed of it, not proved: the answer depends on the content alone; where
/// no `Filter` entry was set the content is the one handed in; and where one
/// was set the content is more than 19 bytes shorter than the one handed in.
#[verifier::external_body]
fn deflate(content: &Vec<u8>) -> (packed: (bool, Vec<u8>))
    ensures
        (packed.0, packed.1@) == deflated(content@),
        !packed.0 ==> packed.1@ == content@,
        packed.0 ==> packed.1@.len() + 19 < content@.len(),
{
    let mut stream = lopdf::Stream::new(lopdf::Dictionary::new(), content.clone());
    let _ = stream.compress();
    (stream.dict.has(b"Filter"), stream.content)
}

/// The stream that `stream` becomes once the encoder has answered with
/// `packed` and `bytes`.
pub fn pack_stream(stream: &Stream, packed: bool, bytes: Vec<u8>) -> (result: Stream)
    ensures
        (result.dict@, result.content@) == pack(stream.dict@, stream.content@, packed, bytes@),
{
    let filter = bytes_filter();
    if packed && !stream.dict.has(filter.as_slice()) && (bytes.len() as u64)
        <= 0x7fff_ffff_ffff_ffffu64 {
        let mut dict = stream.dict.duplicate();
        dict.set(filter, Object::Name(bytes_flate_decode()));
        dict.set(bytes_length(), Object::Integer(bytes.len() as i64));
        Stream::new(dict, bytes)
    } else {
        Stream::new(stream.dict.duplicate(), bytes_copy(stream.content.as_slice()))
    }
}

/// Compresses a stream: one that names no encoding is offered to the encoder
/// and takes the compressed form if the encoder finds it worth taking. The
/// stream stays as it is, or it becomes more than 19 bytes shorter.
pub fn compress_stream(stream: &Stream) -> (result: Stream)
    ensures
        (result.dict@, result.content@) == compressed(stream.dict@, stream.content@),
        may_compress_to(
            ObjectView::Stream(stream.dict@, stream.content@),
            ObjectView::Stream(result.dict@, result.content@),
        ),
{
    let filter = bytes_filter();
    if stream.dict.has(filter.as_slice()) {
        Stream::new(stream.dict.duplicate(), bytes_copy(stream.content.as_slice()))
    } else {
        let (packed, bytes) = deflate(&stream.content);
        pack_stream(stream, packed, bytes)
    }
}

/// Compresses the streams of a document. Identifiers, order, trailer and
/// counter stay; an object that is no stream stays as it is.
pub fn compress_streams(doc: &mut Document)
    requires
        old(doc).wf(),
    ensures
        final(doc).wf(),
        final(doc)@.trailer == old(doc)@.trailer,
        final(doc)@.max_id == old(doc)@.max_id,
        final(doc)@.objects.len() == old(doc)@.objects.len(),
        forall|i: int|
            0 <= i < old(doc)@.objects.len() ==> (#[trigger] final(doc)@.objects[i]) == (
                old(doc)@.objects[i].0,
                compressed_object(old(doc)@.objects[i].1),
            ) && may_compress_to(old(doc)@.objects[i].1, final(doc)@.objects[i].1),
{
    let ghost before = doc@;
    let n = doc.len();
    let mut i: usize = 0;
    while i < n
        invariant
            i <= n,
            n == before.objects.len(),
            doc.wf(),
            doc@.trailer == before.trailer,
            doc@.max_id == before.max_id,
            doc@.objects.len() == before.objects.len(),
            forall|j: int|
                0 <= j < i ==> (#[trigger] doc@.objects[j]) == (
                    before.objects[j].0,
                    compressed_object(before.objects[j].1),
                ) && may_compress_to(before.objects[j].1, doc@.objects[j].1),
            forall|j: int| i <= j < n ==> #[trigger] doc@.objects[j] == before.objects[j],
        decreases n - i,
    {
        let packed: Option<Stream> = match doc.object_at(i) {
            Object::Stream(stream) => Some(compress_stream(stream)),
            _ => None,
        };
        match packed {
            Some(stream) => {
                doc.replace_at(i, Object::Stream(stream));
            },
            None => {},
        }
        i += 1;
    }
}

} // verus!
