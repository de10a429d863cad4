//! The PDF names that the merge engine reads and writes, as byte strings.
//!
//! Every name comes twice: a specification constant, and an executable
//! function that allocates the same bytes.

use vstd::prelude::*;

verus! {

/// `Type`: the entry that gives a dictionary its structural role.
pub open spec fn name_type() -> Seq<u8> {
    seq![84u8, 121u8, 112u8, 101u8]
}

/// The bytes of `Type`.
pub fn bytes_type() -> (bytes: Vec<u8>)
    ensures
        bytes@ == name_type(),
{
    let bytes = vec![84u8, 121u8, 112u8, 101u8];
    assert(bytes@ =~= name_type());
    bytes
}

/// `Catalog`: the role of the document's root dictionary.
pub open spec fn name_catalog() -> Seq<u8> {
    seq![67u8, 97u8, 116u8, 97u8, 108u8, 111u8, 103u8]
}

/// The bytes of `Catalog`.
pub fn bytes_catalog() -> (bytes: Vec<u8>)
    ensures
        bytes@ == name_catalog(),
{
    let bytes = vec![67u8, 97u8, 116u8, 97u8, 108u8, 111u8, 103u8];
    assert(bytes@ =~= name_catalog());
    bytes
}

/// `Pages`: the role of a page-tree node, and the catalog entry that points at the tree's root.
pub open spec fn name_pages() -> Seq<u8> {
    seq![80u8, 97u8, 103u8, 101u8, 115u8]
}

/// The bytes of `Pages`.
pub fn bytes_pages() -> (bytes: Vec<u8>)
    ensures
        bytes@ == name_pages(),
{
    let bytes = vec![80u8, 97u8, 103u8, 101u8, 115u8];
    assert(bytes@ =~= name_pages());
    bytes
}

/// `Page`: the role of a leaf page.
pub open spec fn name_page() -> Seq<u8> {
    seq![80u8, 97u8, 103u8, 101u8]
}

/// The bytes of `Page`.
pub fn bytes_page() -> (bytes: Vec<u8>)
    ensures
        bytes@ == name_page(),
{
    let bytes = vec![80u8, 97u8, 103u8, 101u8];
    assert(bytes@ =~= name_page());
    bytes
}

/// `Outlines`: the role of the bookmark panel's root, and the catalog entry that points at it.
pub open spec fn name_outlines() -> Seq<u8> {
    seq![79u8, 117u8, 116u8, 108u8, 105u8, 110u8, 101u8, 115u8]
}

/// The bytes of `Outlines`.
pub fn bytes_outlines() -> (bytes: Vec<u8>)
    ensures
        bytes@ == name_outlines(),
{
    let bytes = vec![79u8, 117u8, 116u8, 108u8, 105u8, 110u8, 101u8, 115u8];
    assert(bytes@ =~= name_outlines());
    bytes
}

/// `Outline`: the role of a single bookmark item.
pub open spec fn name_outline() -> Seq<u8> {
    seq![79u8, 117u8, 116u8, 108u8, 105u8, 110u8, 101u8]
}

/// The bytes of `Outline`.
pub fn bytes_outline() -> (bytes: Vec<u8>)
    ensures
        bytes@ == name_outline(),
{
    let bytes = vec![79u8, 117u8, 116u8, 108u8, 105u8, 110u8, 101u8];
    assert(bytes@ =~= name_outline());
    bytes
}

/// `Kids`: the ordered children of a page-tree node.
pub open spec fn name_kids() -> Seq<u8> {
    seq![75u8, 105u8, 100u8, 115u8]
}

/// The bytes of `Kids`.
pub fn bytes_kids() -> (bytes: Vec<u8>)
    ensures
        bytes@ == name_kids(),
{
    let bytes = vec![75u8, 105u8, 100u8, 115u8];
    assert(bytes@ =~= name_kids());
    bytes
}

/// `Count`: the number of leaf pages below a page-tree node, or of items below an outline node.
pub open spec fn name_count() -> Seq<u8> {
    seq![67u8, 111u8, 117u8, 110u8, 116u8]
}

/// The bytes of `Count`.
pub fn bytes_count() -> (bytes: Vec<u8>)
    ensures
        bytes@ == name_count(),
{
    let bytes = vec![67u8, 111u8, 117u8, 110u8, 116u8];
    assert(bytes@ =~= name_count());
    bytes
}

/// `Parent`: the back link from a node to the node that owns it.
pub open spec fn name_parent() -> Seq<u8> {
    seq![80u8, 97u8, 114u8, 101u8, 110u8, 116u8]
}

/// The bytes of `Parent`.
pub fn bytes_parent() -> (bytes: Vec<u8>)
    ensures
        bytes@ == name_parent(),
{
    let bytes = vec![80u8, 97u8, 114u8, 101u8, 110u8, 116u8];
    assert(bytes@ =~= name_parent());
    bytes
}

/// `PageMode`: the catalog entry that says which panel a viewer opens.
pub open spec fn name_page_mode() -> Seq<u8> {
    seq![80u8, 97u8, 103u8, 101u8, 77u8, 111u8, 100u8, 101u8]
}

/// The bytes of `PageMode`.
pub fn bytes_page_mode() -> (bytes: Vec<u8>)
    ensures
        bytes@ == name_page_mode(),
{
    let bytes = vec![80u8, 97u8, 103u8, 101u8, 77u8, 111u8, 100u8, 101u8];
    assert(bytes@ =~= name_page_mode());
    bytes
}

/// `UseOutlines`: the page mode that opens the bookmark panel.
pub open spec fn name_use_outlines() -> Seq<u8> {
    seq![85u8, 115u8, 101u8, 79u8, 117u8, 116u8, 108u8, 105u8, 110u8, 101u8, 115u8]
}

/// The bytes of `UseOutlines`.
pub fn bytes_use_outlines() -> (bytes: Vec<u8>)
    ensures
        bytes@ == name_use_outlines(),
{
    let bytes = vec![85u8, 115u8, 101u8, 79u8, 117u8, 116u8, 108u8, 105u8, 110u8, 101u8, 115u8];
    assert(bytes@ =~= name_use_outlines());
    bytes
}

/// `Root`: the trailer entry that points at the catalog.
pub open spec fn name_root() -> Seq<u8> {
    seq![82u8, 111u8, 111u8, 116u8]
}

/// The bytes of `Root`.
pub fn bytes_root() -> (bytes: Vec<u8>)
    ensures
        bytes@ == name_root(),
{
    let bytes = vec![82u8, 111u8, 111u8, 116u8];
    assert(bytes@ =~= name_root());
    bytes
}

/// `First`: the first child of an outline node.
pub open spec fn name_first() -> Seq<u8> {
    seq![70u8, 105u8, 114u8, 115u8, 116u8]
}

/// The bytes of `First`.
pub fn bytes_first() -> (bytes: Vec<u8>)
    ensures
        bytes@ == name_first(),
{
    let bytes = vec![70u8, 105u8, 114u8, 115u8, 116u8];
    assert(bytes@ =~= name_first());
    bytes
}

/// `Last`: the last child of an outline node.
pub open spec fn name_last() -> Seq<u8> {
    seq![76u8, 97u8, 115u8, 116u8]
}

/// The bytes of `Last`.
pub fn bytes_last() -> (bytes: Vec<u8>)
    ensures
        bytes@ == name_last(),
{
    let bytes = vec![76u8, 97u8, 115u8, 116u8];
    assert(bytes@ =~= name_last());
    bytes
}

/// `Next`: the following sibling of an outline item.
pub open spec fn name_next() -> Seq<u8> {
    seq![78u8, 101u8, 120u8, 116u8]
}

/// The bytes of `Next`.
pub fn bytes_next() -> (bytes: Vec<u8>)
    ensures
        bytes@ == name_next(),
{
    let bytes = vec![78u8, 101u8, 120u8, 116u8];
    assert(bytes@ =~= name_next());
    bytes
}

/// `Prev`: the preceding sibling of an outline item.
pub open spec fn name_prev() -> Seq<u8> {
    seq![80u8, 114u8, 101u8, 118u8]
}

/// The bytes of `Prev`.
pub fn bytes_prev() -> (bytes: Vec<u8>)
    ensures
        bytes@ == name_prev(),
{
    let bytes = vec![80u8, 114u8, 101u8, 118u8];
    assert(bytes@ =~= name_prev());
    bytes
}

/// `Title`: the text of an outline item.
pub open spec fn name_title() -> Seq<u8> {
    seq![84u8, 105u8, 116u8, 108u8, 101u8]
}

/// The bytes of `Title`.
pub fn bytes_title() -> (bytes: Vec<u8>)
    ensures
        bytes@ == name_title(),
{
    let bytes = vec![84u8, 105u8, 116u8, 108u8, 101u8];
    assert(bytes@ =~= name_title());
    bytes
}

/// `Dest`: the destination of an outline item.
pub open spec fn name_dest() -> Seq<u8> {
    seq![68u8, 101u8, 115u8, 116u8]
}

/// The bytes of `Dest`.
pub fn bytes_dest() -> (bytes: Vec<u8>)
    ensures
        bytes@ == name_dest(),
{
    let bytes = vec![68u8, 101u8, 115u8, 116u8];
    assert(bytes@ =~= name_dest());
    bytes
}

/// `Fit`: the destination view that fits the whole page in the window.
pub open spec fn name_fit() -> Seq<u8> {
    seq![70u8, 105u8, 116u8]
}

/// The bytes of `Fit`.
pub fn bytes_fit() -> (bytes: Vec<u8>)
    ensures
        bytes@ == name_fit(),
{
    let bytes = vec![70u8, 105u8, 116u8];
    assert(bytes@ =~= name_fit());
    bytes
}

/// `Filter`: the stream entry that names the encoding of the content.
pub open spec fn name_filter() -> Seq<u8> {
    seq![70u8, 105u8, 108u8, 116u8, 101u8, 114u8]
}

/// The bytes of `Filter`.
pub fn bytes_filter() -> (bytes: Vec<u8>)
    ensures
        bytes@ == name_filter(),
{
    let bytes = vec![70u8, 105u8, 108u8, 116u8, 101u8, 114u8];
    assert(bytes@ =~= name_filter());
    bytes
}

/// `FlateDecode`: the encoding that zlib compression produces.
pub open spec fn name_flate_decode() -> Seq<u8> {
    seq![70u8, 108u8, 97u8, 116u8, 101u8, 68u8, 101u8, 99u8, 111u8, 100u8, 101u8]
}

/// The bytes of `FlateDecode`.
pub fn bytes_flate_decode() -> (bytes: Vec<u8>)
    ensures
        bytes@ == name_flate_decode(),
{
    let bytes = vec![70u8, 108u8, 97u8, 116u8, 101u8, 68u8, 101u8, 99u8, 111u8, 100u8, 101u8];
    assert(bytes@ =~= name_flate_decode());
    bytes
}

/// `Length`: the stream entry that holds the number of bytes of the content.
pub open spec fn name_length() -> Seq<u8> {
    seq![76u8, 101u8, 110u8, 103u8, 116u8, 104u8]
}

/// The bytes of `Length`.
pub fn bytes_length() -> (bytes: Vec<u8>)
    ensures
        bytes@ == name_length(),
{
    let bytes = vec![76u8, 101u8, 110u8, 103u8, 116u8, 104u8];
    assert(bytes@ =~= name_length());
    bytes
}

/// The names are pairwise distinct as far as the merge tells them apart: the
/// roles from one another, and `Type` from every entry that the merge sets or
/// removes.
pub proof fn lemma_names_differ()
    ensures
        name_catalog() != name_pages(),
        name_catalog() != name_page(),
        name_catalog() != name_outlines(),
        name_catalog() != name_outline(),
        name_pages() != name_page(),
        name_pages() != name_outlines(),
        name_pages() != name_outline(),
        name_page() != name_outlines(),
        name_page() != name_outline(),
        name_outlines() != name_outline(),
        name_type() != name_pages(),
        name_type() != name_page_mode(),
        name_type() != name_outlines(),
        name_type() != name_parent(),
        name_type() != name_kids(),
        name_type() != name_count(),
        name_type() != name_first(),
        name_type() != name_last(),
        name_type() != name_next(),
        name_type() != name_prev(),
        name_type() != name_title(),
        name_type() != name_dest(),
        name_kids() != name_count(),
        name_parent() != name_kids(),
        name_parent() != name_count(),
        name_pages() != name_page_mode(),
        name_page_mode() != name_outlines(),
{
    assert(name_catalog().len() == 7);
    assert(name_pages().len() == 5);
    assert(name_page().len() == 4);
    assert(name_outlines().len() == 8);
    assert(name_outline().len() == 7);
    assert(name_type().len() == 4);
    assert(name_page_mode().len() == 8);
    assert(name_parent().len() == 6);
    assert(name_kids().len() == 4);
    assert(name_count().len() == 5);
    assert(name_first().len() == 5);
    assert(name_last().len() == 4);
    assert(name_next().len() == 4);
    assert(name_prev().len() == 4);
    assert(name_title().len() == 5);
    assert(name_dest().len() == 4);
    assert(name_catalog()[0] == 67u8 && name_outline()[0] == 79u8);
    assert(name_type()[0] == 84u8);
    assert(name_page()[0] == 80u8);
    assert(name_kids()[0] == 75u8);
    assert(name_last()[0] == 76u8);
    assert(name_next()[0] == 78u8);
    assert(name_prev()[0] == 80u8);
    assert(name_dest()[0] == 68u8);
    assert(name_page_mode()[0] == 80u8 && name_outlines()[0] == 79u8);
}

} // verus!
