//! The structural merge: from several documents to one object graph with one
//! catalog and one page tree.
//!
//! The documents are renumbered one after the other into ranges of their own
//! and united ([`gather`]). The union is classified by role ([`classify`]):
//! the first catalog and the first page-tree root stay, under their
//! identifiers, and the entries of all page-tree roots are merged. Then the
//! output is put together ([`assemble`]): the pages hang below the one root in
//! input order, the root lists them, the catalog points at the root, and the
//! trailer points at the catalog.

use crate::document::{
    highest, ids_wf, increasing, lemma_number_at_least_position, zip_view, Document,
    DocumentView, GraphView,
};
use crate::names::{
    bytes_count, bytes_kids, bytes_outlines, bytes_page_mode, bytes_pages, bytes_parent,
    bytes_root, bytes_use_outlines, name_count, name_kids, name_outlines, name_page_mode,
    name_pages, name_parent, name_root, name_type, name_use_outlines,
};
use crate::object::{
    bytes_copy, bytes_eq, dict_get, dict_has, dict_index, dict_remove, dict_set, is_first_at,
    role_of, role_of_dict, DictView, Dictionary, Object, ObjectId, ObjectView, Role,
};
use crate::pages::{lemma_page_count, page_list, page_order, unreadable_pages};
use crate::renumber::{
    apply, lemma_renumbered_wf, lookup, next_start, renumbered, renumbered_objects, shift_map,
};
use vstd::prelude::*;

verus! {

/// Why a merge produced nothing.
#[derive(Clone, Copy, Debug, PartialEq, Eq, Structural)]
pub enum MergeError {
    /// No object of any input is a page-tree node.
    MissingPagesRoot,
    /// No object of any input is a catalog.
    MissingCatalogRoot,
}

impl MergeError {
    /// The reason in words.
    pub fn message(&self) -> (text: String)
        ensures
            text@ == match *self {
                MergeError::MissingPagesRoot => "Pages root not found."@,
                MergeError::MissingCatalogRoot => "Catalog root not found."@,
            },
    {
        match self {
            MergeError::MissingPagesRoot => "Pages root not found.".to_owned(),
            MergeError::MissingCatalogRoot => "Catalog root not found.".to_owned(),
        }
    }
}

/// A page entry that was left out of the merged page tree because it leads to
/// no dictionary: the input it came from, by position, and the identifier it
/// names there.
#[derive(Clone, Copy, Debug, PartialEq, Eq, Structural)]
pub struct SkippedPage {
    pub document: usize,
    pub id: ObjectId,
}

/// The models of the documents, in order.
pub open spec fn documents_view(docs: Seq<Document>) -> Seq<DocumentView> {
    Seq::new(docs.len(), |i: int| docs[i]@)
}

/// The number from which document `k` is renumbered: one for the first
/// document, and after each document one past its highest new number.
pub open spec fn start_of(docs: Seq<DocumentView>, k: int) -> int
    decreases k,
{
    if k <= 0 {
        1
    } else {
        start_of(docs, k - 1) + highest(docs[k - 1].ids())
    }
}

/// The objects of the first `k` documents, each document renumbered into its
/// own range, one document after the other.
pub open spec fn union_of(docs: Seq<DocumentView>, k: int) -> GraphView
    decreases k,
{
    if k <= 0 {
        Seq::empty()
    } else {
        union_of(docs, k - 1) + renumbered(docs[k - 1], start_of(docs, k - 1) as u32).objects
    }
}

/// The page order of `d` under the identifiers that a renumbering from
/// `start` gives.
pub open spec fn moved_pages(d: DocumentView, start: u32) -> Seq<ObjectId> {
    let order = page_order(d);
    Seq::new(order.len(), |i: int| apply(shift_map(d.ids(), start), order[i]))
}

/// The pages of the first `k` documents under their new identifiers: each
/// document's own page order, the documents in input order.
pub open spec fn pages_of(docs: Seq<DocumentView>, k: int) -> Seq<ObjectId>
    decreases k,
{
    if k <= 0 {
        Seq::empty()
    } else {
        pages_of(docs, k - 1) + moved_pages(docs[k - 1], start_of(docs, k - 1) as u32)
    }
}

/// The page entries of document `k` that lead to no dictionary.
pub open spec fn skipped_in(d: DocumentView, k: int) -> Seq<SkippedPage> {
    let skipped = unreadable_pages(d);
    Seq::new(skipped.len(), |i: int| SkippedPage { document: k as usize, id: skipped[i] })
}

/// The page entries of the first `k` documents that lead to no dictionary.
pub open spec fn skipped_of(docs: Seq<DocumentView>, k: int) -> Seq<SkippedPage>
    decreases k,
{
    if k <= 0 {
        Seq::empty()
    } else {
        skipped_of(docs, k - 1) + skipped_in(docs[k - 1], k - 1)
    }
}

/// `i` is the first position of `u` whose object has the role `role`.
pub open spec fn is_first_with_role(u: GraphView, role: Role, i: int) -> bool {
    &&& 0 <= i < u.len()
    &&& role_of(u[i].1) == role
    &&& forall|j: int| 0 <= j < i ==> role_of((#[trigger] u[j]).1) != role
}

/// Some object of `u` has the role `role`.
pub open spec fn has_role(u: GraphView, role: Role) -> bool {
    exists|i: int| is_first_with_role(u, role, i)
}

/// The first position of `u` whose object has the role `role`.
pub open spec fn first_with_role(u: GraphView, role: Role) -> int {
    choose|i: int| is_first_with_role(u, role, i)
}

/// The entries of a page-tree root that are computed afresh and never taken
/// from an input.
pub open spec fn is_recomputed(key: Seq<u8>) -> bool {
    key == name_kids() || key == name_count()
}

/// `acc` extended by the first `n` entries of `d`, read as a mapping: where a
/// key stands more than once in `d` its first entry counts, as it does for
/// [`dict_get`]. A key of `d` overwrites the same key of `acc`, a new key is
/// added; `Kids` and `Count` are left out.
pub open spec fn extend_dict(acc: DictView, d: DictView, n: int) -> DictView
    decreases n,
{
    if n <= 0 {
        acc
    } else {
        let before = extend_dict(acc, d, n - 1);
        if n > d.len() || is_recomputed(d[n - 1].0) || !is_first_at(d, d[n - 1].0, n - 1) {
            before
        } else {
            dict_set(before, d[n - 1].0, d[n - 1].1)
        }
    }
}

/// The entries of all page-tree nodes among the first `n` objects of `u`,
/// merged in order: later nodes overwrite earlier ones. A node that hangs
/// below another node in its input counts like a root.
pub open spec fn merged_root(u: GraphView, n: int) -> DictView
    decreases n,
{
    if n <= 0 {
        Seq::empty()
    } else {
        let before = merged_root(u, n - 1);
        if n > u.len() {
            before
        } else {
            match u[n - 1].1 {
                ObjectView::Dictionary(d) => if role_of_dict(d) == Role::Pages {
                    extend_dict(before, d, d.len() as int)
                } else {
                    before
                },
                _ => before,
            }
        }
    }
}

/// References to the pages, in order.
pub open spec fn page_refs(pages: Seq<ObjectId>) -> Seq<ObjectView> {
    Seq::new(pages.len(), |i: int| ObjectView::Reference(pages[i]))
}

/// The page-tree root of the output: the merged entries, with `Count` set to
/// the number of pages and `Kids` to the references to them.
pub open spec fn rebuilt_root(merged: DictView, pages: Seq<ObjectId>) -> DictView {
    dict_set(
        dict_set(merged, name_count(), ObjectView::Integer(pages.len() as i64)),
        name_kids(),
        ObjectView::Array(page_refs(pages)),
    )
}

/// The catalog of the output: `Pages` refers to the root, `PageMode` is
/// `UseOutlines`, and the `Outlines` entry of the input is gone.
pub open spec fn finished_catalog(catalog: DictView, root: ObjectId) -> DictView {
    dict_remove(
        dict_set(
            dict_set(catalog, name_pages(), ObjectView::Reference(root)),
            name_page_mode(),
            ObjectView::Name(name_use_outlines()),
        ),
        name_outlines(),
    )
}

/// A page of the output: its `Parent` refers to the root.
pub open spec fn reparented(page: DictView, root: ObjectId) -> DictView {
    dict_set(page, name_parent(), ObjectView::Reference(root))
}

/// What classification has settled: where the catalog and the page-tree root
/// of the output stand in the union, the merged entries of the root, and the
/// pages in order.
pub struct Plan {
    pub catalog: int,
    pub root: int,
    pub merged: DictView,
    pub pages: Seq<ObjectId>,
}

/// What becomes of the object at position `i` of the union `u`. The chosen
/// catalog and the chosen root stay under their identifiers, finished and
/// rebuilt; every other catalog and page-tree node goes. A page stays,
/// reparented, if the page order lists it. Outline objects go. Anything else
/// stays as it is.
pub open spec fn placed(u: GraphView, i: int, plan: Plan) -> Option<(ObjectId, ObjectView)> {
    let id = u[i].0;
    let root = u[plan.root].0;
    match u[i].1 {
        ObjectView::Dictionary(d) => match role_of_dict(d) {
            Role::Catalog => if i == plan.catalog {
                Some((id, ObjectView::Dictionary(finished_catalog(d, root))))
            } else {
                None
            },
            Role::Pages => if i == plan.root {
                Some((id, ObjectView::Dictionary(rebuilt_root(plan.merged, plan.pages))))
            } else {
                None
            },
            Role::Page => if plan.pages.contains(id) {
                Some((id, ObjectView::Dictionary(reparented(d, root))))
            } else {
                None
            },
            Role::Outlines => None,
            Role::Outline => None,
            Role::Other => Some(u[i]),
        },
        _ => Some(u[i]),
    }
}

/// The output made of the first `n` objects of the union.
pub open spec fn assembled(u: GraphView, n: int, plan: Plan) -> GraphView
    decreases n,
{
    if n <= 0 {
        Seq::empty()
    } else {
        let before = assembled(u, n - 1, plan);
        if n > u.len() {
            before
        } else {
            match placed(u, n - 1, plan) {
                Some(entry) => before.push(entry),
                None => before,
            }
        }
    }
}

/// The plan that classification settles for the union `u` and the pages
/// `pages`.
pub open spec fn plan_of(u: GraphView, pages: Seq<ObjectId>) -> Plan {
    Plan {
        catalog: first_with_role(u, Role::Catalog),
        root: first_with_role(u, Role::Pages),
        merged: merged_root(u, u.len() as int),
        pages,
    }
}

/// The trailer of the output: its `Root` refers to the catalog.
pub open spec fn merged_trailer(catalog: ObjectId) -> DictView {
    dict_set(Seq::empty(), name_root(), ObjectView::Reference(catalog))
}

/// The merged document before outline and compaction, made of the union `u`
/// and the pages `pages`. The counter stays where the union had it.
pub open spec fn assembled_document(u: GraphView, max_id: u32, pages: Seq<ObjectId>)
    -> DocumentView {
    let plan = plan_of(u, pages);
    DocumentView {
        trailer: merged_trailer(u[plan.catalog].0),
        objects: assembled(u, u.len() as int, plan),
        max_id,
    }
}

/// The error, if any, with which classification of `u` ends. The page-tree
/// root is asked for first.
pub open spec fn classification_error(u: GraphView) -> Option<MergeError> {
    if !has_role(u, Role::Pages) {
        Some(MergeError::MissingPagesRoot)
    } else if !has_role(u, Role::Catalog) {
        Some(MergeError::MissingCatalogRoot)
    } else {
        None
    }
}

/// The first position with a role is determined.
pub proof fn lemma_first_with_role(u: GraphView, role: Role, i: int)
    requires
        is_first_with_role(u, role, i),
    ensures
        has_role(u, role),
        first_with_role(u, role) == i,
{
    let c = first_with_role(u, role);
    assert(is_first_with_role(u, role, c));
    if c < i {
        assert(role_of(u[c].1) != role);
    }
    if i < c {
        assert(role_of(u[i].1) != role);
    }
}

/// The starts never go down.
pub proof fn lemma_start_monotone(docs: Seq<DocumentView>, k: int, n: int)
    requires
        0 <= k <= n,
    ensures
        1 <= start_of(docs, k) <= start_of(docs, n),
    decreases n,
{
    if k < n {
        lemma_start_monotone(docs, k, n - 1);
    } else if k > 0 {
        lemma_start_monotone(docs, k - 1, k - 1);
    }
}

/// Any object with a role shows that the role occurs.
pub proof fn lemma_has_role_from_any(u: GraphView, role: Role, i: int)
    requires
        0 <= i < u.len(),
        role_of(u[i].1) == role,
    ensures
        has_role(u, role),
        0 <= first_with_role(u, role) <= i,
    decreases i,
{
    if forall|j: int| 0 <= j < i ==> role_of((#[trigger] u[j]).1) != role {
        assert(is_first_with_role(u, role, i));
        lemma_first_with_role(u, role, i);
    } else {
        let j = choose|j: int| 0 <= j < i && role_of((#[trigger] u[j]).1) == role;
        lemma_has_role_from_any(u, role, j);
    }
}

/// A role that no object has does not occur.
pub proof fn lemma_role_absent(u: GraphView, role: Role)
    requires
        forall|i: int| 0 <= i < u.len() ==> role_of((#[trigger] u[i]).1) != role,
    ensures
        !has_role(u, role),
{
    if has_role(u, role) {
        let i = first_with_role(u, role);
        assert(is_first_with_role(u, role, i));
        assert(role_of(u[i].1) != role);
    }
}

/// Every document is well formed.
pub open spec fn inputs_wf(docs: Seq<DocumentView>) -> bool {
    forall|i: int| 0 <= i < docs.len() ==> (#[trigger] docs[i]).wf()
}

/// In the union every document has a range of numbers to itself, and the
/// ranges follow one another: the union of well-formed documents is well
/// formed, so that no two of its objects share an identifier.
pub proof fn lemma_union_wf(docs: Seq<DocumentView>, k: int)
    requires
        inputs_wf(docs),
        0 <= k <= docs.len(),
        start_of(docs, k) <= u32::MAX,
    ensures
        1 <= start_of(docs, k),
        ids_wf(crate::document::graph_ids(union_of(docs, k)), (start_of(docs, k) - 1) as u32),
    decreases k,
{
    if k > 0 {
        lemma_start_monotone(docs, k - 1, k);
        lemma_union_wf(docs, k - 1);
        let d = docs[k - 1];
        let start = start_of(docs, k - 1) as u32;
        lemma_renumbered_wf(d, start);
        let before = crate::document::graph_ids(union_of(docs, k - 1));
        let r = renumbered(d, start);
        let ids = crate::document::graph_ids(union_of(docs, k));
        let m = before.len() as int;
        assert forall|a: int, b: int| 0 <= a < b < ids.len() implies (#[trigger] ids[a]).number
            < (#[trigger] ids[b]).number by {
            if b < m {
                assert(before[a].number < before[b].number);
            } else if a >= m {
                assert(r.ids()[a - m].number < r.ids()[b - m].number);
            } else {
                assert(before[a].number <= start - 1);
                assert(r.objects[b - m].0.number >= start);
            }
        }
        assert forall|a: int| 0 <= a < ids.len() implies 1 <= (#[trigger] ids[a]).number
            <= start_of(docs, k) - 1 by {
            if a < m {
                assert(1 <= before[a].number <= start - 1);
            } else {
                assert(r.objects[a - m].0.number < next_start(d, start));
            }
        }
    }
}

/// Where the objects of document `k` stand in the union: after those of the
/// documents before it, in their own order.
pub proof fn lemma_union_entry(docs: Seq<DocumentView>, n: int, k: int, j: int)
    requires
        0 <= k < n <= docs.len(),
        0 <= j < docs[k].objects.len(),
    ensures
        union_of(docs, k).len() + j < union_of(docs, n).len(),
        union_of(docs, n)[union_of(docs, k).len() + j] == renumbered(
            docs[k],
            start_of(docs, k) as u32,
        ).objects[j],
    decreases n,
{
    if k < n - 1 {
        lemma_union_entry(docs, n - 1, k, j);
    }
}

/// Every object of the union is an object of one of the documents,
/// renumbered: the lemma names the document and the position in it.
pub proof fn lemma_union_source(docs: Seq<DocumentView>, n: int, i: int) -> (at: (int, int))
    requires
        0 <= n <= docs.len(),
        0 <= i < union_of(docs, n).len(),
    ensures
        0 <= at.0 < n,
        0 <= at.1 < docs[at.0].objects.len(),
        union_of(docs, n)[i] == renumbered(docs[at.0], start_of(docs, at.0) as u32).objects[at.1],
        i == union_of(docs, at.0).len() + at.1,
    decreases n,
{
    let before = union_of(docs, n - 1).len() as int;
    if i < before {
        lemma_union_source(docs, n - 1, i)
    } else {
        (n - 1, i - before)
    }
}

/// What extension makes of a key other than `Kids` and `Count`: the value
/// that `d` gives it, as far as `d` has been read, else the value that `acc`
/// gave it.
pub proof fn lemma_extend_get(acc: DictView, d: DictView, n: int, key: Seq<u8>)
    requires
        !is_recomputed(key),
        0 <= n <= d.len(),
    ensures
        dict_get(extend_dict(acc, d, n), key) == if dict_has(d, key) && dict_index(d, key) < n {
            Some(d[dict_index(d, key)].1)
        } else {
            dict_get(acc, key)
        },
    decreases n,
{
    if n > 0 {
        lemma_extend_get(acc, d, n - 1, key);
        let before = extend_dict(acc, d, n - 1);
        let k = d[n - 1].0;
        if is_recomputed(k) || !is_first_at(d, k, n - 1) {
            if dict_has(d, key) && dict_index(d, key) == n - 1 {
                assert(is_first_at(d, key, dict_index(d, key)));
            }
        } else {
            if k == key {
                crate::object::lemma_first_is_index(d, key, n - 1);
                crate::object::lemma_get_set_same(before, k, d[n - 1].1);
            } else {
                crate::object::lemma_get_set_other(before, k, d[n - 1].1, key);
                if dict_has(d, key) && dict_index(d, key) == n - 1 {
                    assert(is_first_at(d, key, dict_index(d, key)));
                }
            }
        }
    }
}

/// A dictionary has the role of a page-tree node exactly when its `Type` is
/// the name `Pages`.
pub proof fn lemma_pages_role(d: DictView)
    ensures
        role_of_dict(d) == Role::Pages <==> dict_get(d, name_type()) == Some(
            ObjectView::Name(name_pages()),
        ),
{
    crate::names::lemma_names_differ();
}

/// Once a page-tree node has been met, the merged entries are those of a
/// page-tree node.
pub proof fn lemma_merged_root_role(u: GraphView, n: int)
    requires
        0 <= n <= u.len(),
        exists|i: int| 0 <= i < n && role_of((#[trigger] u[i]).1) == Role::Pages,
    ensures
        role_of_dict(merged_root(u, n)) == Role::Pages,
    decreases n,
{
    crate::names::lemma_names_differ();
    let before = merged_root(u, n - 1);
    let i = choose|i: int| 0 <= i < n && role_of((#[trigger] u[i]).1) == Role::Pages;
    if role_of(u[n - 1].1) == Role::Pages {
        let d = u[n - 1].1->Dictionary_0;
        lemma_pages_role(d);
        lemma_extend_get(before, d, d.len() as int, name_type());
        assert(is_first_at(d, name_type(), dict_index(d, name_type())));
        lemma_pages_role(merged_root(u, n));
    } else {
        assert(i < n - 1);
        lemma_merged_root_role(u, n - 1);
    }
}

/// The roots that a plan names have the roles of a catalog and of a
/// page-tree node, and the merged entries are those of a page-tree node.
pub open spec fn plan_fits(u: GraphView, plan: Plan) -> bool {
    &&& 0 <= plan.catalog < u.len()
    &&& 0 <= plan.root < u.len()
    &&& role_of(u[plan.catalog].1) == Role::Catalog
    &&& role_of(u[plan.root].1) == Role::Pages
    &&& role_of_dict(plan.merged) == Role::Pages
}

/// Where classification succeeds its plan fits.
pub proof fn lemma_plan_fits(u: GraphView, pages: Seq<ObjectId>)
    requires
        classification_error(u) is None,
    ensures
        plan_fits(u, plan_of(u, pages)),
        is_first_with_role(u, Role::Catalog, plan_of(u, pages).catalog),
        is_first_with_role(u, Role::Pages, plan_of(u, pages).root),
{
    let plan = plan_of(u, pages);
    assert(is_first_with_role(u, Role::Catalog, plan.catalog));
    assert(is_first_with_role(u, Role::Pages, plan.root));
    assert(role_of(u[plan.root].1) == Role::Pages);
    lemma_merged_root_role(u, u.len() as int);
}

/// The finished catalog is a catalog, the rebuilt root a page-tree node, a
/// reparented page a page: what the output keeps of an object keeps the
/// identifier and the role.
pub proof fn lemma_placed_role(u: GraphView, i: int, plan: Plan)
    requires
        plan_fits(u, plan),
        0 <= i < u.len(),
    ensures
        placed(u, i, plan) matches Some(entry) ==> entry.0 == u[i].0 && role_of(entry.1)
            == role_of(u[i].1) && (role_of(u[i].1) == Role::Catalog ==> i == plan.catalog) && (
        role_of(u[i].1) == Role::Pages ==> i == plan.root),
        i == plan.catalog ==> placed(u, i, plan) is Some,
        i == plan.root ==> placed(u, i, plan) is Some,
{
    crate::names::lemma_names_differ();
    let root = u[plan.root].0;
    match u[i].1 {
        ObjectView::Dictionary(d) => {
            match role_of_dict(d) {
                Role::Catalog => {
                    let a = dict_set(d, name_pages(), ObjectView::Reference(root));
                    let b = dict_set(a, name_page_mode(), ObjectView::Name(name_use_outlines()));
                    crate::object::lemma_get_set_other(
                        d,
                        name_pages(),
                        ObjectView::Reference(root),
                        name_type(),
                    );
                    crate::object::lemma_get_set_other(
                        a,
                        name_page_mode(),
                        ObjectView::Name(name_use_outlines()),
                        name_type(),
                    );
                    crate::object::lemma_get_remove_other(b, name_outlines(), name_type());
                },
                Role::Pages => {
                    let a = dict_set(
                        plan.merged,
                        name_count(),
                        ObjectView::Integer(plan.pages.len() as i64),
                    );
                    crate::object::lemma_get_set_other(
                        plan.merged,
                        name_count(),
                        ObjectView::Integer(plan.pages.len() as i64),
                        name_type(),
                    );
                    crate::object::lemma_get_set_other(
                        a,
                        name_kids(),
                        ObjectView::Array(page_refs(plan.pages)),
                        name_type(),
                    );
                },
                Role::Page => {
                    crate::object::lemma_get_set_other(
                        d,
                        name_parent(),
                        ObjectView::Reference(root),
                        name_type(),
                    );
                },
                _ => {},
            }
        },
        _ => {},
    }
}

/// The output keeps the order of the union: its identifiers are identifiers
/// of the union, in increasing order.
pub proof fn lemma_assembled_wf(u: GraphView, max_id: u32, n: int, plan: Plan)
    requires
        ids_wf(crate::document::graph_ids(u), max_id),
        0 <= n <= u.len(),
    ensures
        ids_wf(crate::document::graph_ids(assembled(u, n, plan)), max_id),
        assembled(u, n, plan).len() <= n,
        forall|p: int|
            0 <= p < assembled(u, n, plan).len() ==> n > 0 && (#[trigger] assembled(
                u,
                n,
                plan,
            )[p]).0.number <= u[n - 1].0.number,
    decreases n,
{
    if n > 0 {
        lemma_assembled_wf(u, max_id, n - 1, plan);
        let before = assembled(u, n - 1, plan);
        let after = assembled(u, n, plan);
        let ids = crate::document::graph_ids(u);
        let out = crate::document::graph_ids(after);
        assert(ids[n - 1] == u[n - 1].0);
        if n > 1 {
            assert(ids[n - 2] == u[n - 2].0);
            assert(ids[n - 2].number < ids[n - 1].number);
        }
        assert forall|p: int| 0 <= p < after.len() implies (#[trigger] after[p]).0.number <= u[n
            - 1].0.number && 1 <= after[p].0.number <= max_id by {
            if p < before.len() {
                assert(after[p] == before[p]);
                assert(crate::document::graph_ids(before)[p] == before[p].0);
            } else {
                assert(after[p].0 == u[n - 1].0);
            }
        }
        assert forall|a: int, b: int| 0 <= a < b < out.len() implies (#[trigger] out[a]).number < (
        #[trigger] out[b]).number by {
            if b < before.len() {
                assert(crate::document::graph_ids(before)[a].number < crate::document::graph_ids(
                    before,
                )[b].number);
            } else {
                assert(after[a] == before[a]);
                assert(before[a].0.number <= u[n - 2].0.number);
            }
        }
        assert forall|a: int| 0 <= a < out.len() implies 1 <= (#[trigger] out[a]).number
            <= max_id by {
            assert(out[a] == after[a].0);
        }
    }
}

/// Where an object of the union stands in the output, if it is kept: after
/// what is kept of the objects before it.
pub proof fn lemma_assembled_entry(u: GraphView, n: int, plan: Plan, i: int)
    requires
        0 <= i < n <= u.len(),
        placed(u, i, plan) is Some,
    ensures
        assembled(u, i, plan).len() < assembled(u, n, plan).len(),
        assembled(u, n, plan)[assembled(u, i, plan).len() as int] == placed(u, i, plan)->0,
    decreases n,
{
    if i < n - 1 {
        lemma_assembled_entry(u, n - 1, plan, i);
    }
}

/// Every object of the output is what the plan makes of one object of the
/// union: the lemma names its position there.
pub proof fn lemma_assembled_source(u: GraphView, n: int, plan: Plan, p: int) -> (i: int)
    requires
        0 <= n <= u.len(),
        0 <= p < assembled(u, n, plan).len(),
    ensures
        0 <= i < n,
        placed(u, i, plan) == Some(assembled(u, n, plan)[p]),
        p == assembled(u, i, plan).len(),
    decreases n,
{
    let before = assembled(u, n - 1, plan);
    if p < before.len() {
        lemma_assembled_source(u, n - 1, plan, p)
    } else {
        n - 1
    }
}

/// The union, the page order and the left-out page entries of a list of
/// documents.
#[derive(Debug, PartialEq, Eq)]
pub struct Gathered {
    /// The objects of all documents, renumbered. Its trailer is empty.
    pub graph: Document,
    /// The pages under their new identifiers: document after document, each
    /// in its own page order.
    pub pages: Vec<ObjectId>,
    /// The page entries that lead to no dictionary.
    pub skipped: Vec<SkippedPage>,
}

/// Whether the documents can be renumbered one after the other without
/// running out of object numbers, with `extra` numbers to spare.
pub open spec fn numbers_suffice(docs: Seq<DocumentView>, extra: int) -> bool {
    start_of(docs, docs.len() as int) + extra <= u32::MAX
}

/// Renumbers the documents into ranges of their own, the first from one and
/// each from where the one before ended, and unites their objects. Beside the
/// union stand the pages of all documents, each document in its own page
/// order, and the page entries that had to be left out.
pub fn gather(docs: &Vec<Document>) -> (g: Gathered)
    requires
        forall|i: int| 0 <= i < docs.len() ==> (#[trigger] docs[i]).wf(),
        numbers_suffice(documents_view(docs@), 0),
    ensures
        g.graph.wf(),
        g.graph@.trailer.len() == 0,
        g.graph@.objects == union_of(documents_view(docs@), docs.len() as int),
        g.graph@.max_id == start_of(documents_view(docs@), docs.len() as int) - 1,
        g.pages@ == pages_of(documents_view(docs@), docs.len() as int),
        g.skipped@ == skipped_of(documents_view(docs@), docs.len() as int),
        g.pages.len() <= g.graph@.max_id,
{
    let ghost views = documents_view(docs@);
    let n = docs.len();
    let mut ids: Vec<ObjectId> = Vec::new();
    let mut objects: Vec<Object> = Vec::new();
    let mut pages: Vec<ObjectId> = Vec::new();
    let mut skipped: Vec<SkippedPage> = Vec::new();
    let mut next: u32 = 1;
    let mut k: usize = 0;
    while k < n
        invariant
            k <= n,
            n == docs.len(),
            views == documents_view(docs@),
            forall|i: int| 0 <= i < docs.len() ==> (#[trigger] docs[i]).wf(),
            start_of(views, n as int) <= u32::MAX,
            next == start_of(views, k as int),
            next >= 1,
            ids.len() == objects.len(),
            ids_wf(ids@, (next - 1) as u32),
            zip_view(ids@, objects@) == union_of(views, k as int),
            pages@ == pages_of(views, k as int),
            skipped@ == skipped_of(views, k as int),
            pages.len() <= next - 1,
        decreases n - k,
    {
        let doc = &docs[k];
        let ghost d = doc@;
        let start = next;
        assert(views[k as int] == d);
        proof {
            lemma_start_monotone(views, k as int + 1, n as int);
            lemma_page_count(d);
            if d.objects.len() > 0 {
                lemma_number_at_least_position(d.ids(), d.max_id, d.objects.len() - 1);
            }
        }
        let list = page_list(doc);
        let (mut to, mut moved) = renumbered_objects(doc, start);
        let mut i: usize = 0;
        while i < list.pages.len()
            invariant
                i <= list.pages.len(),
                doc.wf(),
                doc@ == d,
                to.len() == d.objects.len(),
                list.pages@ == page_order(d),
                crate::renumber::table_map(d.ids(), to@) == shift_map(d.ids(), start),
                pages@ == pages_of(views, k as int) + moved_pages(d, start).subrange(0, i as int),
            decreases list.pages.len() - i,
        {
            let page = lookup(doc.ids(), &to, list.pages[i]);
            pages.push(page);
            i += 1;
            assert(pages@ =~= pages_of(views, k as int) + moved_pages(d, start).subrange(
                0,
                i as int,
            ));
        }
        assert(moved_pages(d, start).subrange(0, i as int) =~= moved_pages(d, start));
        let mut j: usize = 0;
        while j < list.skipped.len()
            invariant
                j <= list.skipped.len(),
                list.skipped@ == unreadable_pages(d),
                skipped@ == skipped_of(views, k as int) + skipped_in(d, k as int).subrange(
                    0,
                    j as int,
                ),
            decreases list.skipped.len() - j,
        {
            skipped.push(SkippedPage { document: k, id: list.skipped[j] });
            j += 1;
            assert(skipped@ =~= skipped_of(views, k as int) + skipped_in(d, k as int).subrange(
                0,
                j as int,
            ));
        }
        assert(skipped_in(d, k as int).subrange(0, j as int) =~= skipped_in(d, k as int));
        let top = doc.highest_number();
        ids.append(&mut to);
        objects.append(&mut moved);
        next = start + top;
        proof {
            let r = renumbered(d, start);
            assert(zip_view(ids@, objects@) =~= union_of(views, k as int) + r.objects);
            assert(inputs_wf(views)) by {
                assert forall|i: int| 0 <= i < views.len() implies (#[trigger] views[i]).wf() by {
                    assert(docs[i].wf());
                }
            }
            lemma_union_wf(views, k as int + 1);
            assert(ids@ =~= crate::document::graph_ids(union_of(views, k as int + 1)));
        }
        k += 1;
    }
    let graph = Document::from_parts(Dictionary::new(), ids, objects, next - 1);
    Gathered { graph, pages, skipped }
}

/// Where the catalog and the page-tree root of the output stand in the union,
/// and the merged entries of all page-tree roots.
#[derive(Debug, PartialEq, Eq)]
pub struct Roots {
    pub catalog: usize,
    pub root: usize,
    pub merged: Dictionary,
}

/// Sets the entries of `d` in `acc`, but for `Kids` and `Count`: a key that
/// `acc` has is overwritten, a key that it lacks is added. Should a key stand
/// twice in `d`, its first entry counts.
pub fn absorb(acc: &mut Dictionary, d: &Dictionary)
    ensures
        final(acc)@ == extend_dict(old(acc)@, d@, d@.len() as int),
{
    let ghost begun = acc@;
    let kids = bytes_kids();
    let count = bytes_count();
    let n = d.len();
    let mut i: usize = 0;
    while i < n
        invariant
            i <= n,
            n == d@.len(),
            kids@ == name_kids(),
            count@ == name_count(),
            acc@ == extend_dict(begun, d@, i as int),
        decreases n - i,
    {
        let key = d.key_at(i);
        let recomputed = bytes_eq(key.as_slice(), kids.as_slice()) || bytes_eq(
            key.as_slice(),
            count.as_slice(),
        );
        if !recomputed {
            let first = d.position(key.as_slice());
            assert(first is Some) by {
                crate::object::lemma_has_from_any(d@, key@, i as int);
            }
            if first == Some(i) {
                acc.set(bytes_copy(key.as_slice()), d.value_at(i).duplicate());
            }
        }
        i += 1;
    }
}

/// Sorts the union by role. The first catalog and the first page-tree node
/// are the roots of the output; the entries of all page-tree nodes are
/// merged, later ones over earlier ones. Without a page-tree node the answer
/// is [`MergeError::MissingPagesRoot`], whatever else is missing; with one
/// but without a catalog it is [`MergeError::MissingCatalogRoot`].
pub fn classify(graph: &Document) -> (found: Result<Roots, MergeError>)
    requires
        graph.wf(),
    ensures
        match found {
            Ok(roots) => {
                &&& classification_error(graph@.objects) is None
                &&& is_first_with_role(graph@.objects, Role::Catalog, roots.catalog as int)
                &&& is_first_with_role(graph@.objects, Role::Pages, roots.root as int)
                &&& roots.catalog == first_with_role(graph@.objects, Role::Catalog)
                &&& roots.root == first_with_role(graph@.objects, Role::Pages)
                &&& roots.merged@ == merged_root(graph@.objects, graph@.objects.len() as int)
            },
            Err(e) => classification_error(graph@.objects) == Some(e),
        },
{
    let ghost u = graph@.objects;
    let n = graph.len();
    let mut catalog: Option<usize> = None;
    let mut root: Option<usize> = None;
    let mut merged = Dictionary::new();
    let mut i: usize = 0;
    while i < n
        invariant
            i <= n,
            n == u.len(),
            graph.wf(),
            u == graph@.objects,
            match catalog {
                Some(c) => is_first_with_role(u, Role::Catalog, c as int),
                None => forall|j: int| 0 <= j < i ==> role_of((#[trigger] u[j]).1) != Role::Catalog,
            },
            match root {
                Some(r) => is_first_with_role(u, Role::Pages, r as int),
                None => forall|j: int| 0 <= j < i ==> role_of((#[trigger] u[j]).1) != Role::Pages,
            },
            merged@ == merged_root(u, i as int),
        decreases n - i,
    {
        match graph.object_at(i) {
            Object::Dictionary(d) => {
                match d.role() {
                    Role::Catalog => {
                        if catalog.is_none() {
                            catalog = Some(i);
                        }
                    },
                    Role::Pages => {
                        if root.is_none() {
                            root = Some(i);
                        }
                        absorb(&mut merged, d);
                    },
                    _ => {},
                }
            },
            _ => {},
        }
        i += 1;
    }
    match root {
        None => Err(MergeError::MissingPagesRoot),
        Some(r) => {
            proof {
                lemma_first_with_role(u, Role::Pages, r as int);
            }
            match catalog {
                None => Err(MergeError::MissingCatalogRoot),
                Some(c) => {
                    proof {
                        lemma_first_with_role(u, Role::Catalog, c as int);
                    }
                    Ok(Roots { catalog: c, root: r, merged })
                },
            }
        },
    }
}

/// Whether `id` is among `ids`.
pub fn contains_id(ids: &Vec<ObjectId>, id: ObjectId) -> (present: bool)
    ensures
        present == ids@.contains(id),
{
    let mut i: usize = 0;
    while i < ids.len()
        invariant
            i <= ids.len(),
            forall|j: int| 0 <= j < i ==> ids@[j] != id,
        decreases ids.len() - i,
    {
        if ids[i] == id {
            return true;
        }
        i += 1;
    }
    false
}

/// The page-tree root of the output: the merged entries with `Count` and
/// `Kids` computed from the pages.
pub fn rebuild_root(merged: &Dictionary, pages: &Vec<ObjectId>) -> (root: Dictionary)
    requires
        pages.len() <= i64::MAX,
    ensures
        root@ == rebuilt_root(merged@, pages@),
{
    let mut kids: Vec<Object> = Vec::new();
    let mut i: usize = 0;
    while i < pages.len()
        invariant
            i <= pages.len(),
            kids.len() == i,
            forall|j: int| 0 <= j < i ==> (#[trigger] kids@[j])@ == ObjectView::Reference(pages@[j]),
        decreases pages.len() - i,
    {
        kids.push(Object::Reference(pages[i]));
        i += 1;
    }
    let count: i64 = pages.len() as i64;
    let mut root = merged.duplicate();
    root.set(bytes_count(), Object::Integer(count));
    proof {
        crate::object::lemma_array_view(kids);
        assert(crate::object::array_view(kids@) =~= page_refs(pages@));
    }
    root.set(bytes_kids(), Object::Array(kids));
    root
}

/// The catalog of the output, made from the catalog of an input.
pub fn finish_catalog(catalog: &Dictionary, root: ObjectId) -> (finished: Dictionary)
    ensures
        finished@ == finished_catalog(catalog@, root),
{
    let mut finished = catalog.duplicate();
    finished.set(bytes_pages(), Object::Reference(root));
    finished.set(bytes_page_mode(), Object::Name(bytes_use_outlines()));
    let outlines = bytes_outlines();
    let _ = finished.remove(outlines.as_slice());
    finished
}

/// A page of the output, made from a page of an input.
pub fn reparent(page: &Dictionary, root: ObjectId) -> (moved: Dictionary)
    ensures
        moved@ == reparented(page@, root),
{
    let mut moved = page.duplicate();
    moved.set(bytes_parent(), Object::Reference(root));
    moved
}

/// Puts the output together from the union: the chosen catalog, finished;
/// the chosen page-tree root, rebuilt over the pages; the pages that the page
/// order lists, reparented; and every object without a structural role, as it
/// is. The trailer refers to the catalog.
pub fn assemble(graph: &Document, roots: &Roots, pages: &Vec<ObjectId>) -> (doc: Document)
    requires
        graph.wf(),
        roots.catalog < graph@.objects.len(),
        roots.root < graph@.objects.len(),
        pages.len() <= i64::MAX,
    ensures
        doc.wf(),
        doc@ == (DocumentView {
            trailer: merged_trailer(graph@.objects[roots.catalog as int].0),
            objects: assembled(
                graph@.objects,
                graph@.objects.len() as int,
                Plan {
                    catalog: roots.catalog as int,
                    root: roots.root as int,
                    merged: roots.merged@,
                    pages: pages@,
                },
            ),
            max_id: graph@.max_id,
        }),
        roots.catalog == first_with_role(graph@.objects, Role::Catalog) && roots.root
            == first_with_role(graph@.objects, Role::Pages) && roots.merged@ == merged_root(
            graph@.objects,
            graph@.objects.len() as int,
        ) ==> doc@ == assembled_document(graph@.objects, graph@.max_id, pages@),
{
    let ghost u = graph@.objects;
    let ghost plan = Plan {
        catalog: roots.catalog as int,
        root: roots.root as int,
        merged: roots.merged@,
        pages: pages@,
    };
    let n = graph.len();
    let root_id = graph.id_at(roots.root);
    let catalog_id = graph.id_at(roots.catalog);
    let mut ids: Vec<ObjectId> = Vec::new();
    let mut objects: Vec<Object> = Vec::new();
    let mut i: usize = 0;
    while i < n
        invariant
            i <= n,
            n == u.len(),
            graph.wf(),
            u == graph@.objects,
            roots.root < n,
            root_id == u[roots.root as int].0,
            pages.len() <= i64::MAX,
            plan == (Plan {
                catalog: roots.catalog as int,
                root: roots.root as int,
                merged: roots.merged@,
                pages: pages@,
            }),
            ids.len() == objects.len(),
            zip_view(ids@, objects@) == assembled(u, i as int, plan),
            increasing(ids@),
            forall|j: int|
                0 <= j < ids.len() ==> 1 <= (#[trigger] ids@[j]).number <= graph@.max_id,
            i == 0 ==> ids.len() == 0,
            i > 0 ==> forall|j: int|
                0 <= j < ids.len() ==> (#[trigger] ids@[j]).number <= u[i - 1].0.number,
        decreases n - i,
    {
        let id = graph.id_at(i);
        let ghost before_ids = ids@;
        let ghost before_objects = objects@;
        let kept: Option<Object> = match graph.object_at(i) {
            Object::Dictionary(d) => {
                match d.role() {
                    Role::Catalog => if i == roots.catalog {
                        Some(Object::Dictionary(finish_catalog(d, root_id)))
                    } else {
                        None
                    },
                    Role::Pages => if i == roots.root {
                        Some(Object::Dictionary(rebuild_root(&roots.merged, pages)))
                    } else {
                        None
                    },
                    Role::Page => if contains_id(pages, id) {
                        Some(Object::Dictionary(reparent(d, root_id)))
                    } else {
                        None
                    },
                    Role::Outlines => None,
                    Role::Outline => None,
                    Role::Other => Some(graph.object_at(i).duplicate()),
                }
            },
            other => Some(other.duplicate()),
        };
        assert(match kept {
            Some(o) => placed(u, i as int, plan) == Some((id, o@)),
            None => placed(u, i as int, plan) is None,
        });
        proof {
            assert(graph@.ids()[i as int] == u[i as int].0);
            if i > 0 {
                assert(graph@.ids()[i - 1] == u[i - 1].0);
                assert(graph@.ids()[i - 1].number < graph@.ids()[i as int].number);
            }
        }
        match kept {
            Some(o) => {
                let ghost v = o@;
                ids.push(id);
                objects.push(o);
                assert(zip_view(ids@, objects@) =~= zip_view(before_ids, before_objects).push(
                    (id, v),
                ));
            },
            None => {},
        }
        proof {
            assert forall|j: int| 0 <= j < ids.len() implies (#[trigger] ids@[j]).number <= u[i as int].0.number by {
                if j < before_ids.len() {
                    assert(before_ids[j].number <= u[i - 1].0.number);
                }
            }
        }
        i += 1;
    }
    let mut trailer = Dictionary::new();
    trailer.set(bytes_root(), Object::Reference(catalog_id));
    Document::from_parts(trailer, ids, objects, graph.max_id())
}

} // verus!
