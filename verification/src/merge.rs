//! The merge: several documents in, one document out.

use crate::document::{highest, Document, DocumentView, GraphView};
use crate::object::{ObjectId, Role};
use crate::outline::{
    adjust_zero_pages, adjusted, attach_outline, attached, bookmarks_view, build_outline,
    outline_root_id, with_outline, Bookmark, BookmarkView,
};
use crate::pages::page_list;
use crate::renumber::{apply, compacted, dense_map, shift_id, shift_map};
use crate::structure::{
    assemble, assembled_document, classification_error, classify, documents_view,
    first_with_role, gather, lemma_start_monotone, numbers_suffice, pages_of, skipped_of,
    start_of, union_of, MergeError, SkippedPage,
};
use vstd::prelude::*;

verus! {

/// What a merge hands back: the merged document, and the page entries of the
/// inputs that were left out of its page tree because they lead to no
/// dictionary.
#[derive(Debug, PartialEq, Eq)]
pub struct Merged {
    pub document: Document,
    pub skipped: Vec<SkippedPage>,
}

/// The object numbers that an outline for `bookmarks` bookmarks takes: one
/// for the root and one for each item, or none without bookmarks.
pub open spec fn outline_cost(bookmarks: int) -> int {
    if bookmarks == 0 {
        0
    } else {
        bookmarks + 1
    }
}

/// The pages of the merged document in order, under the identifiers that they
/// have before compaction. These are the identifiers by which a bookmark
/// names its page.
pub open spec fn merged_page_ids(docs: Seq<DocumentView>) -> Seq<ObjectId> {
    pages_of(docs, docs.len() as int)
}

/// The objects of all documents, each document renumbered into its own range.
pub open spec fn union_graph(docs: Seq<DocumentView>) -> GraphView {
    union_of(docs, docs.len() as int)
}

/// The identifier of the catalog that stays: that of the first catalog of the
/// union.
pub open spec fn catalog_id(docs: Seq<DocumentView>) -> ObjectId {
    union_graph(docs)[first_with_role(union_graph(docs), Role::Catalog)].0
}

/// The identifier of the page-tree root that stays, before compaction: that
/// of the first page-tree node of the union.
pub open spec fn root_id(docs: Seq<DocumentView>) -> ObjectId {
    union_graph(docs)[first_with_role(union_graph(docs), Role::Pages)].0
}

/// The merged document before outline and compaction.
pub open spec fn base_document(docs: Seq<DocumentView>) -> DocumentView {
    assembled_document(
        union_graph(docs),
        (start_of(docs, docs.len() as int) - 1) as u32,
        merged_page_ids(docs),
    )
}

/// The merged document before compaction: with the outline for the adjusted
/// bookmarks, hung into the catalog, where there are bookmarks.
pub open spec fn linked_document(docs: Seq<DocumentView>, marks: Seq<BookmarkView>)
    -> DocumentView {
    let base = base_document(docs);
    let outlined = with_outline(base, adjusted(marks, merged_page_ids(docs)));
    if marks.len() == 0 {
        outlined
    } else {
        attached(outlined, catalog_id(docs), outline_root_id(base.max_id))
    }
}

/// The document that the merge of `docs` with the bookmarks `marks` yields,
/// where classification finds both roots.
pub open spec fn merged_document(docs: Seq<DocumentView>, marks: Seq<BookmarkView>)
    -> DocumentView {
    compacted(linked_document(docs, marks))
}

/// The pages of the merged document in order, under the identifiers that they
/// have in the end, after compaction.
pub open spec fn final_page_ids(docs: Seq<DocumentView>, marks: Seq<BookmarkView>) -> Seq<
    ObjectId,
> {
    let pages = merged_page_ids(docs);
    Seq::new(pages.len(), |i: int| final_id(docs, marks, pages[i]))
}

/// The identifier that compaction gives to `id`.
pub open spec fn final_id(docs: Seq<DocumentView>, marks: Seq<BookmarkView>, id: ObjectId)
    -> ObjectId {
    apply(dense_map(linked_document(docs, marks).ids()), id)
}

/// What the merge of `docs` with the bookmarks `marks` yields: the merged
/// document and the page entries left out, or the error of classification.
pub open spec fn merge_outcome(docs: Seq<DocumentView>, marks: Seq<BookmarkView>) -> Result<
    (DocumentView, Seq<SkippedPage>),
    MergeError,
> {
    match classification_error(union_of(docs, docs.len() as int)) {
        Some(e) => Err(e),
        None => Ok((merged_document(docs, marks), skipped_of(docs, docs.len() as int))),
    }
}

/// Whether the object numbers suffice to merge `documents` with this many
/// bookmarks: [`merge`] asks for it.
pub fn can_merge(documents: &Vec<Document>, bookmarks: usize) -> (ok: bool)
    requires
        forall|i: int| 0 <= i < documents.len() ==> (#[trigger] documents[i]).wf(),
    ensures
        ok == numbers_suffice(documents_view(documents@), outline_cost(bookmarks as int)),
{
    let ghost views = documents_view(documents@);
    let n = documents.len();
    let limit: u64 = 0xffff_ffff;
    let mut next: u64 = 1;
    let mut k: usize = 0;
    while k < n
        invariant
            k <= n,
            n == documents.len(),
            views == documents_view(documents@),
            limit == u32::MAX,
            forall|i: int| 0 <= i < documents.len() ==> (#[trigger] documents[i]).wf(),
            next == start_of(views, k as int),
            1 <= next <= limit,
        decreases n - k,
    {
        assert(views[k as int] == documents[k as int]@);
        next = next + (documents[k].highest_number() as u64);
        k += 1;
        if next > limit {
            proof {
                lemma_start_monotone(views, k as int, n as int);
            }
            return false;
        }
    }
    if bookmarks == 0 {
        true
    } else if bookmarks as u64 >= limit {
        false
    } else {
        next + (bookmarks as u64) + 1 <= limit
    }
}

/// The pages of the merged document in order, under the identifiers that they
/// have before compaction: what a bookmark has to name.
pub fn merged_pages(documents: &Vec<Document>) -> (pages: Vec<ObjectId>)
    requires
        forall|i: int| 0 <= i < documents.len() ==> (#[trigger] documents[i]).wf(),
        numbers_suffice(documents_view(documents@), 0),
    ensures
        pages@ == merged_page_ids(documents_view(documents@)),
{
    let ghost views = documents_view(documents@);
    let n = documents.len();
    let mut pages: Vec<ObjectId> = Vec::new();
    let mut next: u32 = 1;
    let mut k: usize = 0;
    while k < n
        invariant
            k <= n,
            n == documents.len(),
            views == documents_view(documents@),
            forall|i: int| 0 <= i < documents.len() ==> (#[trigger] documents[i]).wf(),
            start_of(views, n as int) <= u32::MAX,
            next == start_of(views, k as int),
            next >= 1,
            pages@ == pages_of(views, k as int),
        decreases n - k,
    {
        let doc = &documents[k];
        let ghost d = doc@;
        let start = next;
        assert(views[k as int] == d);
        proof {
            lemma_start_monotone(views, k as int + 1, n as int);
            crate::document::lemma_highest_bounds(d.ids());
        }
        let list = page_list(doc);
        let mut i: usize = 0;
        while i < list.pages.len()
            invariant
                i <= list.pages.len(),
                doc.wf(),
                doc@ == d,
                start >= 1,
                start + highest(d.ids()) <= u32::MAX,
                forall|j: int|
                    0 <= j < d.ids().len() ==> 1 <= (#[trigger] d.ids()[j]).number <= highest(
                        d.ids(),
                    ),
                list.pages@ == crate::pages::page_order(d),
                pages@ == pages_of(views, k as int) + crate::structure::moved_pages(
                    d,
                    start,
                ).subrange(0, i as int),
            decreases list.pages.len() - i,
        {
            let page = list.pages[i];
            let moved = match doc.position(page) {
                Some(at) => {
                    assert(d.ids()[at as int] == page);
                    shift_id(page, start)
                },
                None => page,
            };
            assert(moved == apply(shift_map(d.ids(), start), page));
            pages.push(moved);
            i += 1;
            assert(pages@ =~= pages_of(views, k as int) + crate::structure::moved_pages(
                d,
                start,
            ).subrange(0, i as int));
        }
        assert(crate::structure::moved_pages(d, start).subrange(0, i as int)
            =~= crate::structure::moved_pages(d, start));
        next = start + doc.highest_number();
        k += 1;
    }
    pages
}

/// Merges the documents, in the order given, into one.
///
/// Each document is renumbered into a range of its own. Of the catalogs and
/// of the page-tree nodes the first ones stay, under their identifiers; the
/// pages of all documents hang below that one root, document after document
/// and each document in its own page order; the root counts and lists them.
/// The catalog points at the root and asks for the outline panel, the trailer
/// points at the catalog. For the bookmarks a fresh outline is built and hung
/// into the catalog; a bookmark whose page is none of the merged pages leads
/// to the first page. At the end the objects are compacted to the identifiers
/// `(1, 0)` to `(N, 0)`.
///
/// Without any page-tree node among the inputs the answer is
/// [`MergeError::MissingPagesRoot`]; with one but without any catalog it is
/// [`MergeError::MissingCatalogRoot`]. Nothing else fails.
pub fn merge(documents: Vec<Document>, bookmarks: Vec<Bookmark>) -> (result: Result<
    Merged,
    MergeError,
>)
    requires
        forall|i: int| 0 <= i < documents.len() ==> (#[trigger] documents[i]).wf(),
        numbers_suffice(documents_view(documents@), outline_cost(bookmarks.len() as int)),
    ensures
        match result {
            Ok(merged) => merged.document.wf() && merge_outcome(
                documents_view(documents@),
                bookmarks_view(bookmarks@),
            ) == Ok::<(DocumentView, Seq<SkippedPage>), MergeError>(
                (merged.document@, merged.skipped@),
            ),
            Err(e) => merge_outcome(documents_view(documents@), bookmarks_view(bookmarks@))
                == Err::<(DocumentView, Seq<SkippedPage>), MergeError>(e),
        },
{
    let gathered = gather(&documents);
    match classify(&gathered.graph) {
        Err(e) => Err(e),
        Ok(roots) => {
            let catalog = gathered.graph.id_at(roots.catalog);
            let mut document = assemble(&gathered.graph, &roots, &gathered.pages);
            let fixed = adjust_zero_pages(&bookmarks, &gathered.pages);
            match build_outline(&mut document, &fixed) {
                Some(root) => {
                    attach_outline(&mut document, catalog, root);
                },
                None => {},
            }
            document.compact();
            Ok(Merged { document, skipped: gathered.skipped })
        },
    }
}

} // verus!
