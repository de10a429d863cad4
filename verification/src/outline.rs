//! The outline of the merged document: a fresh bookmark panel, built from the
//! bookmarks that the caller supplies.
//!
//! The outlines of the inputs are never reused. A bookmark names its page by
//! the identifier that the page has in the merged graph before compaction.

use crate::document::{index_of_id, Document, DocumentView, GraphView};
use crate::names::{
    bytes_count, bytes_dest, bytes_first, bytes_fit, bytes_last, bytes_next, bytes_outlines,
    bytes_parent, bytes_prev, bytes_title, bytes_type, name_count, name_dest, name_first,
    name_fit, name_last, name_next, name_outlines, name_parent, name_prev, name_title,
    name_type,
};
use crate::object::{bytes_copy, dict_set, DictView, Dictionary, Object, ObjectId, ObjectView};
use crate::structure::contains_id;
use vstd::prelude::*;

verus! {

/// A bookmark: the text shown, and the page that it leads to.
#[derive(Debug, PartialEq, Eq)]
pub struct Bookmark {
    pub title: Vec<u8>,
    pub page: ObjectId,
}

/// The model of a [`Bookmark`].
pub struct BookmarkView {
    pub title: Seq<u8>,
    pub page: ObjectId,
}

impl View for Bookmark {
    type V = BookmarkView;

    open spec fn view(&self) -> BookmarkView {
        BookmarkView { title: self.title@, page: self.page }
    }
}

impl Bookmark {
    /// The bookmark with this title that leads to this page.
    pub fn new(title: Vec<u8>, page: ObjectId) -> (bookmark: Bookmark)
        ensures
            bookmark@ == (BookmarkView { title: title@, page }),
    {
        Bookmark { title, page }
    }
}

impl Clone for Bookmark {
    fn clone(&self) -> (copy: Bookmark)
        ensures
            copy@ == self@,
    {
        Bookmark { title: bytes_copy(self.title.as_slice()), page: self.page }
    }
}

/// The models of the bookmarks, in order.
pub open spec fn bookmarks_view(bookmarks: Seq<Bookmark>) -> Seq<BookmarkView> {
    Seq::new(bookmarks.len(), |i: int| bookmarks[i]@)
}

/// The page that a bookmark leads to after adjustment: its own page where
/// that is one of `pages`, else the first of `pages`. With no page at all
/// there is nothing to lead to, and the bookmark keeps what it had.
pub open spec fn adjusted_page(page: ObjectId, pages: Seq<ObjectId>) -> ObjectId {
    if pages.contains(page) || pages.len() == 0 {
        page
    } else {
        pages[0]
    }
}

/// The bookmarks after adjustment: titles and order stay.
pub open spec fn adjusted(bookmarks: Seq<BookmarkView>, pages: Seq<ObjectId>) -> Seq<
    BookmarkView,
> {
    Seq::new(
        bookmarks.len(),
        |i: int|
            BookmarkView {
                title: bookmarks[i].title,
                page: adjusted_page(bookmarks[i].page, pages),
            },
    )
}

/// The identifier of the outline root in a document whose counter stands at
/// `max_id`.
pub open spec fn outline_root_id(max_id: u32) -> ObjectId {
    ObjectId { number: (max_id + 1) as u32, generation: 0 }
}

/// The identifier of outline item `k`.
pub open spec fn outline_item_id(max_id: u32, k: int) -> ObjectId {
    ObjectId { number: (max_id + 2 + k) as u32, generation: 0 }
}

/// The outline root over `n` items: it names its first and its last item and
/// counts them.
pub open spec fn outline_root(max_id: u32, n: int) -> DictView {
    dict_set(
        dict_set(
            dict_set(
                dict_set(Seq::empty(), name_type(), ObjectView::Name(name_outlines())),
                name_first(),
                ObjectView::Reference(outline_item_id(max_id, 0)),
            ),
            name_last(),
            ObjectView::Reference(outline_item_id(max_id, n - 1)),
        ),
        name_count(),
        ObjectView::Integer(n as i64),
    )
}

/// The destination of a bookmark: its page, shown whole.
pub open spec fn destination(page: ObjectId) -> ObjectView {
    ObjectView::Array(seq![ObjectView::Reference(page), ObjectView::Name(name_fit())])
}

/// Outline item `k`: title, parent, destination, and the links to the items
/// before and after it, where there are any.
pub open spec fn outline_item(max_id: u32, bookmarks: Seq<BookmarkView>, k: int) -> DictView {
    let base = dict_set(
        dict_set(
            dict_set(Seq::empty(), name_title(), ObjectView::String(bookmarks[k].title)),
            name_parent(),
            ObjectView::Reference(outline_root_id(max_id)),
        ),
        name_dest(),
        destination(bookmarks[k].page),
    );
    let linked_back = if k > 0 {
        dict_set(base, name_prev(), ObjectView::Reference(outline_item_id(max_id, k - 1)))
    } else {
        base
    };
    if k + 1 < bookmarks.len() {
        dict_set(linked_back, name_next(), ObjectView::Reference(outline_item_id(max_id, k + 1)))
    } else {
        linked_back
    }
}

/// The outline objects for `bookmarks`: the root, then the items in order.
pub open spec fn outline_objects(max_id: u32, bookmarks: Seq<BookmarkView>) -> GraphView {
    Seq::new(
        bookmarks.len() + 1,
        |j: int|
            if j == 0 {
                (
                    outline_root_id(max_id),
                    ObjectView::Dictionary(outline_root(max_id, bookmarks.len() as int)),
                )
            } else {
                (
                    outline_item_id(max_id, j - 1),
                    ObjectView::Dictionary(outline_item(max_id, bookmarks, j - 1)),
                )
            },
    )
}

/// The document with the outline for `bookmarks` added. Without bookmarks
/// nothing is added.
pub open spec fn with_outline(d: DocumentView, bookmarks: Seq<BookmarkView>) -> DocumentView {
    if bookmarks.len() == 0 {
        d
    } else {
        DocumentView {
            trailer: d.trailer,
            objects: d.objects + outline_objects(d.max_id, bookmarks),
            max_id: (d.max_id + 1 + bookmarks.len()) as u32,
        }
    }
}

/// The document in which the dictionary stored under `catalog` has its
/// `Outlines` entry set to a reference to `root`. Where `catalog` names no
/// dictionary the document stays as it is.
pub open spec fn attached(d: DocumentView, catalog: ObjectId, root: ObjectId) -> DocumentView {
    match d.get(catalog) {
        Some(ObjectView::Dictionary(c)) => DocumentView {
            objects: d.objects.update(
                index_of_id(d.ids(), catalog),
                (
                    catalog,
                    ObjectView::Dictionary(dict_set(c, name_outlines(), ObjectView::Reference(root))),
                ),
            ),
            ..d
        },
        _ => d,
    }
}

/// The adjustment before the outline is built: a bookmark whose page is none
/// of `pages` is made to lead to the first of them, so that every bookmark
/// leads somewhere.
pub fn adjust_zero_pages(bookmarks: &Vec<Bookmark>, pages: &Vec<ObjectId>) -> (fixed: Vec<Bookmark>)
    ensures
        bookmarks_view(fixed@) == adjusted(bookmarks_view(bookmarks@), pages@),
{
    let mut fixed: Vec<Bookmark> = Vec::new();
    let mut i: usize = 0;
    while i < bookmarks.len()
        invariant
            i <= bookmarks.len(),
            fixed.len() == i,
            forall|j: int|
                0 <= j < i ==> (#[trigger] fixed@[j])@ == (BookmarkView {
                    title: bookmarks@[j].title@,
                    page: adjusted_page(bookmarks@[j].page, pages@),
                }),
        decreases bookmarks.len() - i,
    {
        let page = bookmarks[i].page;
        let target = if contains_id(pages, page) || pages.len() == 0 {
            page
        } else {
            pages[0]
        };
        fixed.push(Bookmark { title: bytes_copy(bookmarks[i].title.as_slice()), page: target });
        i += 1;
    }
    assert(bookmarks_view(fixed@) =~= adjusted(bookmarks_view(bookmarks@), pages@));
    fixed
}

/// The dictionary of the outline root.
fn make_root(max_id: u32, n: usize) -> (root: Dictionary)
    requires
        n >= 1,
        max_id + 1 + n <= u32::MAX,
    ensures
        root@ == outline_root(max_id, n as int),
{
    let first = ObjectId { number: max_id + 2, generation: 0 };
    let last = ObjectId { number: max_id + 1 + (n as u32), generation: 0 };
    let mut root = Dictionary::new();
    root.set(bytes_type(), Object::Name(bytes_outlines()));
    root.set(bytes_first(), Object::Reference(first));
    root.set(bytes_last(), Object::Reference(last));
    root.set(bytes_count(), Object::Integer(n as i64));
    root
}

/// The dictionary of outline item `k`.
fn make_item(max_id: u32, bookmarks: &Vec<Bookmark>, k: usize) -> (item: Dictionary)
    requires
        k < bookmarks.len(),
        max_id + 1 + bookmarks.len() <= u32::MAX,
    ensures
        item@ == outline_item(max_id, bookmarks_view(bookmarks@), k as int),
{
    let root = ObjectId { number: max_id + 1, generation: 0 };
    let mut target: Vec<Object> = Vec::new();
    target.push(Object::Reference(bookmarks[k].page));
    target.push(Object::Name(bytes_fit()));
    proof {
        crate::object::lemma_array_view(target);
        assert(crate::object::array_view(target@) =~= seq![
            ObjectView::Reference(bookmarks@[k as int].page),
            ObjectView::Name(name_fit()),
        ]);
    }
    let mut item = Dictionary::new();
    item.set(bytes_title(), Object::String(bytes_copy(bookmarks[k].title.as_slice())));
    item.set(bytes_parent(), Object::Reference(root));
    item.set(bytes_dest(), Object::Array(target));
    if k > 0 {
        let before = ObjectId { number: max_id + 1 + (k as u32), generation: 0 };
        item.set(bytes_prev(), Object::Reference(before));
    }
    if k + 1 < bookmarks.len() {
        let after = ObjectId { number: max_id + 3 + (k as u32), generation: 0 };
        item.set(bytes_next(), Object::Reference(after));
    }
    item
}

/// Builds the outline for `bookmarks` and stores it in `doc` under fresh
/// identifiers: the root first, then one item for each bookmark, in order and
/// linked to its neighbours. Returns the identifier of the root, or nothing
/// where there is no bookmark; the document then stays as it is.
pub fn build_outline(doc: &mut Document, bookmarks: &Vec<Bookmark>) -> (root: Option<ObjectId>)
    requires
        old(doc).wf(),
        old(doc)@.max_id + 1 + bookmarks.len() <= u32::MAX,
    ensures
        final(doc).wf(),
        final(doc)@ == with_outline(old(doc)@, bookmarks_view(bookmarks@)),
        root == if bookmarks.len() == 0 {
            None
        } else {
            Some(outline_root_id(old(doc)@.max_id))
        },
{
    let n = bookmarks.len();
    if n == 0 {
        return None;
    }
    let ghost before = doc@;
    let ghost marks = bookmarks_view(bookmarks@);
    let max_id = doc.max_id();
    let root = doc.add_object(Object::Dictionary(make_root(max_id, n)));
    let mut k: usize = 0;
    while k < n
        invariant
            k <= n,
            n == bookmarks.len(),
            n >= 1,
            max_id == before.max_id,
            max_id + 1 + n <= u32::MAX,
            marks == bookmarks_view(bookmarks@),
            doc.wf(),
            doc@.trailer == before.trailer,
            doc@.max_id == max_id + 1 + k,
            doc@.objects == before.objects + outline_objects(max_id, marks).subrange(
                0,
                k as int + 1,
            ),
        decreases n - k,
    {
        let ghost held = doc@.objects;
        let item = make_item(max_id, bookmarks, k);
        let ghost value = item@;
        let id = doc.add_object(Object::Dictionary(item));
        assert(id == outline_item_id(max_id, k as int));
        assert(outline_objects(max_id, marks)[k as int + 1] == (
            id,
            ObjectView::Dictionary(value),
        ));
        assert(doc@.objects =~= before.objects + outline_objects(max_id, marks).subrange(
            0,
            k as int + 2,
        ));
        k += 1;
    }
    assert(outline_objects(max_id, marks).subrange(0, n as int + 1) =~= outline_objects(
        max_id,
        marks,
    ));
    Some(root)
}

/// Sets the `Outlines` entry of the dictionary stored under `catalog` to a
/// reference to `root`. Where `catalog` names no dictionary nothing happens.
pub fn attach_outline(doc: &mut Document, catalog: ObjectId, root: ObjectId)
    requires
        old(doc).wf(),
    ensures
        final(doc).wf(),
        final(doc)@ == attached(old(doc)@, catalog, root),
{
    match doc.position(catalog) {
        Some(i) => {
            let changed: Option<Dictionary> = match doc.object_at(i) {
                Object::Dictionary(c) => {
                    let mut c = c.duplicate();
                    c.set(bytes_outlines(), Object::Reference(root));
                    Some(c)
                },
                _ => None,
            };
            match changed {
                Some(c) => {
                    doc.replace_at(i, Object::Dictionary(c));
                },
                None => {},
            }
        },
        None => {},
    }
}

} // verus!
