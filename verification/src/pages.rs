//! The page order of a document: its page tree, walked from the catalog.
//!
//! The walk goes through the `Kids` of the page-tree root in order and
//! descends into nested page-tree nodes, so that the leaf pages come out in
//! reading order. It is bounded twice, in depth and in the number of entries
//! it looks at, so that it ends on any graph, cycles included.

use crate::document::{graph_get, Document, DocumentView, GraphView};
use crate::names::{bytes_kids, bytes_pages, name_kids, name_pages};
use crate::object::{
    array_view, dict_get, role_of_dict, DictView, Dictionary, Object, ObjectId, ObjectView,
    Role,
};
use vstd::prelude::*;

verus! {

/// How deep below the root the walk follows nested page-tree nodes.
pub const PAGE_TREE_DEPTH: u32 = 256;

/// What a walk has found so far, and how many entries it may still look at.
pub struct WalkView {
    /// The leaf pages, in reading order.
    pub pages: Seq<ObjectId>,
    /// The entries that refer to no dictionary, in the order met.
    pub skipped: Seq<ObjectId>,
    /// The number of entries that the walk may still look at.
    pub budget: nat,
}

/// The children that a page-tree node lists: its `Kids` array, written in
/// place or referred to.
pub open spec fn kids_of(g: GraphView, node: DictView) -> Seq<ObjectView> {
    match dict_get(node, name_kids()) {
        Some(ObjectView::Array(kids)) => kids,
        Some(ObjectView::Reference(id)) => match graph_get(g, id) {
            Some(ObjectView::Array(kids)) => kids,
            _ => Seq::empty(),
        },
        _ => Seq::empty(),
    }
}

/// The walk after the first `n` entries of `kids`, begun in the state `w`.
pub open spec fn walk_kids(g: GraphView, kids: Seq<ObjectView>, n: int, depth: nat, w: WalkView)
    -> WalkView
    decreases depth, n,
{
    if n <= 0 {
        w
    } else {
        let before = walk_kids(g, kids, n - 1, depth, w);
        if n > kids.len() {
            before
        } else {
            visit_kid(g, kids[n - 1], depth, before)
        }
    }
}

/// The walk after one entry. An entry costs one unit of the budget; with none
/// left the walk stands still. A reference to a leaf page adds the page, one
/// to a page-tree node adds what is below that node while `depth` allows, one
/// to any other dictionary adds nothing, and one that leads to no dictionary
/// is noted as skipped. An entry that is no reference adds nothing.
pub open spec fn visit_kid(g: GraphView, kid: ObjectView, depth: nat, w: WalkView) -> WalkView
    decreases depth, 0int,
{
    if w.budget == 0 {
        w
    } else {
        let paid = WalkView { budget: (w.budget - 1) as nat, ..w };
        match kid {
            ObjectView::Reference(id) => match graph_get(g, id) {
                Some(ObjectView::Dictionary(node)) => match role_of_dict(node) {
                    Role::Page => WalkView { pages: paid.pages.push(id), ..paid },
                    Role::Pages => if depth > 0 {
                        let kids = kids_of(g, node);
                        walk_kids(g, kids, kids.len() as int, (depth - 1) as nat, paid)
                    } else {
                        paid
                    },
                    _ => paid,
                },
                _ => WalkView { skipped: paid.skipped.push(id), ..paid },
            },
            _ => paid,
        }
    }
}

/// The children of the page-tree root: what the `Pages` entry of the catalog
/// refers to, the catalog being what the trailer's `Root` entry refers to.
/// Empty where any link of that chain is missing.
pub open spec fn root_kids(d: DocumentView) -> Seq<ObjectView> {
    match d.root() {
        Some(catalog_id) => match d.get(catalog_id) {
            Some(ObjectView::Dictionary(catalog)) => match dict_get(catalog, name_pages()) {
                Some(ObjectView::Reference(root_id)) => match d.get(root_id) {
                    Some(ObjectView::Dictionary(root)) => kids_of(d.objects, root),
                    _ => Seq::empty(),
                },
                _ => Seq::empty(),
            },
            _ => Seq::empty(),
        },
        None => Seq::empty(),
    }
}

/// The walk of a whole document. It may look at as many entries as the
/// document has objects: enough for any tree in which no node occurs twice.
pub open spec fn page_walk(d: DocumentView) -> WalkView {
    let kids = root_kids(d);
    walk_kids(
        d.objects,
        kids,
        kids.len() as int,
        PAGE_TREE_DEPTH as nat,
        WalkView { pages: Seq::empty(), skipped: Seq::empty(), budget: d.objects.len() },
    )
}

/// The pages of a document in reading order.
pub open spec fn page_order(d: DocumentView) -> Seq<ObjectId> {
    page_walk(d).pages
}

/// The page entries of a document that lead to no dictionary.
pub open spec fn unreadable_pages(d: DocumentView) -> Seq<ObjectId> {
    page_walk(d).skipped
}

/// A walk finds no more than it pays for: what it has found and what it may
/// still spend never grow together.
pub proof fn lemma_walk_cost(g: GraphView, kids: Seq<ObjectView>, n: int, depth: nat, w: WalkView)
    ensures
        ({
            let r = walk_kids(g, kids, n, depth, w);
            r.pages.len() + r.skipped.len() + r.budget <= w.pages.len() + w.skipped.len()
                + w.budget
        }),
    decreases depth, n,
{
    if n > 0 {
        lemma_walk_cost(g, kids, n - 1, depth, w);
        if n <= kids.len() {
            lemma_visit_cost(g, kids[n - 1], depth, walk_kids(g, kids, n - 1, depth, w));
        }
    }
}

/// One entry adds no more than the unit it costs.
pub proof fn lemma_visit_cost(g: GraphView, kid: ObjectView, depth: nat, w: WalkView)
    ensures
        ({
            let r = visit_kid(g, kid, depth, w);
            r.pages.len() + r.skipped.len() + r.budget <= w.pages.len() + w.skipped.len()
                + w.budget
        }),
    decreases depth, 0int,
{
    if w.budget > 0 {
        let paid = WalkView { budget: (w.budget - 1) as nat, ..w };
        match kid {
            ObjectView::Reference(id) => match graph_get(g, id) {
                Some(ObjectView::Dictionary(node)) => match role_of_dict(node) {
                    Role::Pages => {
                        if depth > 0 {
                            let kids = kids_of(g, node);
                            lemma_walk_cost(g, kids, kids.len() as int, (depth - 1) as nat, paid);
                        }
                    },
                    _ => {},
                },
                _ => {},
            },
            _ => {},
        }
    }
}

/// A document has no more page entries than objects.
pub proof fn lemma_page_count(d: DocumentView)
    ensures
        page_order(d).len() + unreadable_pages(d).len() <= d.objects.len(),
{
    let kids = root_kids(d);
    lemma_walk_cost(
        d.objects,
        kids,
        kids.len() as int,
        PAGE_TREE_DEPTH as nat,
        WalkView { pages: Seq::empty(), skipped: Seq::empty(), budget: d.objects.len() },
    );
}

/// `id` names a leaf page of `g`.
pub open spec fn is_page(g: GraphView, id: ObjectId) -> bool {
    graph_get(g, id) matches Some(ObjectView::Dictionary(node)) && role_of_dict(node)
        == Role::Page
}

/// Every one of `pages` names a leaf page of `g`.
pub open spec fn all_pages(g: GraphView, pages: Seq<ObjectId>) -> bool {
    forall|i: int| 0 <= i < pages.len() ==> is_page(g, #[trigger] pages[i])
}

/// A walk adds leaf pages only.
pub proof fn lemma_walk_finds_pages(
    g: GraphView,
    kids: Seq<ObjectView>,
    n: int,
    depth: nat,
    w: WalkView,
)
    requires
        all_pages(g, w.pages),
    ensures
        all_pages(g, walk_kids(g, kids, n, depth, w).pages),
    decreases depth, n,
{
    if n > 0 {
        lemma_walk_finds_pages(g, kids, n - 1, depth, w);
        if n <= kids.len() {
            lemma_visit_finds_pages(g, kids[n - 1], depth, walk_kids(g, kids, n - 1, depth, w));
        }
    }
}

/// One entry adds a leaf page, or what a walk below it adds.
pub proof fn lemma_visit_finds_pages(g: GraphView, kid: ObjectView, depth: nat, w: WalkView)
    requires
        all_pages(g, w.pages),
    ensures
        all_pages(g, visit_kid(g, kid, depth, w).pages),
    decreases depth, 0int,
{
    if w.budget > 0 {
        let paid = WalkView { budget: (w.budget - 1) as nat, ..w };
        match kid {
            ObjectView::Reference(id) => match graph_get(g, id) {
                Some(ObjectView::Dictionary(node)) => match role_of_dict(node) {
                    Role::Page => {
                        let grown = paid.pages.push(id);
                        assert forall|i: int| 0 <= i < grown.len() implies is_page(
                            g,
                            #[trigger] grown[i],
                        ) by {
                            if i < paid.pages.len() {
                                assert(grown[i] == w.pages[i]);
                            }
                        }
                    },
                    Role::Pages => {
                        if depth > 0 {
                            let kids = kids_of(g, node);
                            lemma_walk_finds_pages(
                                g,
                                kids,
                                kids.len() as int,
                                (depth - 1) as nat,
                                paid,
                            );
                        }
                    },
                    _ => {},
                },
                _ => {},
            },
            _ => {},
        }
    }
}

/// Every entry of a document's page order names a leaf page of the document.
pub proof fn lemma_page_order_is_pages(d: DocumentView, i: int)
    requires
        0 <= i < page_order(d).len(),
    ensures
        is_page(d.objects, page_order(d)[i]),
{
    let kids = root_kids(d);
    lemma_walk_finds_pages(
        d.objects,
        kids,
        kids.len() as int,
        PAGE_TREE_DEPTH as nat,
        WalkView { pages: Seq::empty(), skipped: Seq::empty(), budget: d.objects.len() },
    );
}

/// The state of a walk.
struct Walk {
    pages: Vec<ObjectId>,
    skipped: Vec<ObjectId>,
    budget: usize,
}

impl View for Walk {
    type V = WalkView;

    closed spec fn view(&self) -> WalkView {
        WalkView { pages: self.pages@, skipped: self.skipped@, budget: self.budget as nat }
    }
}

/// The result of a walk: the pages of a document in reading order, and the
/// page entries that had to be left out because they lead to no dictionary.
#[derive(Debug, PartialEq, Eq)]
pub struct PageList {
    pub pages: Vec<ObjectId>,
    pub skipped: Vec<ObjectId>,
}

/// The `Kids` of a page-tree node, where it has any.
fn kids_in<'a>(doc: &'a Document, node: &'a Dictionary) -> (kids: Option<&'a Vec<Object>>)
    requires
        doc.wf(),
    ensures
        match kids {
            Some(v) => array_view(v@) == kids_of(doc@.objects, node@),
            None => kids_of(doc@.objects, node@).len() == 0,
        },
{
    let key = bytes_kids();
    match node.get(key.as_slice()) {
        Some(Object::Array(v)) => {
            proof {
                crate::object::lemma_array_view(*v);
            }
            Some(v)
        },
        Some(Object::Reference(id)) => match doc.get(*id) {
            Some(Object::Array(v)) => {
                proof {
                    crate::object::lemma_array_view(*v);
                }
                Some(v)
            },
            _ => None,
        },
        _ => None,
    }
}

/// Walks all of `kids`, from the state `state`.
fn walk(doc: &Document, kids: &Vec<Object>, depth: u32, state: Walk) -> (after: Walk)
    requires
        doc.wf(),
    ensures
        after@ == walk_kids(
            doc@.objects,
            array_view(kids@),
            kids.len() as int,
            depth as nat,
            state@,
        ),
    decreases depth,
{
    let ghost g = doc@.objects;
    let ghost entries = array_view(kids@);
    let ghost begun = state@;
    let mut state = state;
    let mut i: usize = 0;
    while i < kids.len()
        invariant
            i <= kids.len(),
            doc.wf(),
            g == doc@.objects,
            entries == array_view(kids@),
            state@ == walk_kids(g, entries, i as int, depth as nat, begun),
        decreases kids.len() - i,
    {
        let ghost before = state@;
        assert(entries[i as int] == kids@[i as int]@);
        if state.budget > 0 {
            state.budget = state.budget - 1;
            match &kids[i] {
                Object::Reference(id) => {
                    match doc.get(*id) {
                        Some(Object::Dictionary(node)) => {
                            match node.role() {
                                Role::Page => {
                                    state.pages.push(*id);
                                },
                                Role::Pages => {
                                    if depth > 0 {
                                        match kids_in(doc, node) {
                                            Some(below) => {
                                                state = walk(doc, below, depth - 1, state);
                                            },
                                            None => {
                                                assert(kids_of(g, node@) =~= Seq::empty());
                                            },
                                        }
                                    }
                                },
                                _ => {},
                            }
                        },
                        _ => {
                            state.skipped.push(*id);
                        },
                    }
                },
                _ => {},
            }
        }
        assert(state@ == visit_kid(g, entries[i as int], depth as nat, before));
        i += 1;
    }
    state
}

/// The children of the page-tree root of `doc`, where the chain from the
/// trailer to them is whole.
fn root_kids_in(doc: &Document) -> (kids: Option<&Vec<Object>>)
    requires
        doc.wf(),
    ensures
        match kids {
            Some(v) => array_view(v@) == root_kids(doc@),
            None => root_kids(doc@).len() == 0,
        },
{
    let key = bytes_pages();
    match doc.root() {
        Some(catalog_id) => match doc.get(catalog_id) {
            Some(Object::Dictionary(catalog)) => match catalog.get(key.as_slice()) {
                Some(Object::Reference(root_id)) => match doc.get(*root_id) {
                    Some(Object::Dictionary(root)) => kids_in(doc, root),
                    _ => None,
                },
                _ => None,
            },
            _ => None,
        },
        None => None,
    }
}

/// The pages of `doc` in reading order, and the page entries that lead to no
/// dictionary.
pub fn page_list(doc: &Document) -> (list: PageList)
    requires
        doc.wf(),
    ensures
        list.pages@ == page_order(doc@),
        list.skipped@ == unreadable_pages(doc@),
{
    let state = Walk { pages: Vec::new(), skipped: Vec::new(), budget: doc.len() };
    match root_kids_in(doc) {
        Some(kids) => {
            let after = walk(doc, kids, PAGE_TREE_DEPTH, state);
            PageList { pages: after.pages, skipped: after.skipped }
        },
        None => {
            assert(root_kids(doc@) =~= Seq::empty());
            PageList { pages: state.pages, skipped: state.skipped }
        },
    }
}

} // verus!
