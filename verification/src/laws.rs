//! What holds of every merge.
//!
//! Each law is a proof about the definitions that the contracts of
//! [`crate::merge::merge`] and of [`crate::document::Document::renumber`]
//! use: it holds of whatever those functions return.

use crate::document::{
    graph_ids, increasing, index_of_id, lemma_position_unique, DocumentView, GraphView,
};
use crate::merge::{
    base_document, catalog_id, final_id, final_page_ids, linked_document, merge_outcome,
    merged_document, merged_page_ids, outline_cost, root_id, union_graph,
};
use crate::names::{
    lemma_names_differ, name_count, name_dest, name_first, name_kids, name_last, name_next,
    name_outlines, name_page_mode, name_pages, name_parent, name_prev, name_root, name_title,
    name_type, name_use_outlines,
};
use crate::object::{
    dict_get, dict_set, lemma_get_set_other, lemma_get_set_same, role_of, role_of_dict,
    ObjectId, ObjectView, Role,
};
use crate::outline::{
    adjusted, destination, outline_item_id, outline_objects, outline_root_id, with_outline,
    BookmarkView,
};
use crate::pages::page_order;
use crate::renumber::{
    apply, dense_id, dense_map, lemma_compacted_wf, lemma_renumbered_wf, lemma_rewrite_get,
    lemma_rewrite_keeps_role, next_start, renumbered, rewrite, shift_map,
};
use crate::structure::{
    assembled, classification_error, finished_catalog, has_role, inputs_wf,
    lemma_assembled_entry, lemma_assembled_source, lemma_assembled_wf, lemma_has_role_from_any,
    lemma_placed_role, lemma_plan_fits, lemma_role_absent, lemma_start_monotone,
    lemma_union_entry, lemma_union_source, lemma_union_wf, moved_pages, numbers_suffice,
    page_refs, pages_of, placed, plan_fits, plan_of, rebuilt_root, reparented, start_of,
    union_of, MergeError, Plan,
};
use vstd::prelude::*;

verus! {

/// The documents can be merged with these bookmarks: every document is well
/// formed, and the object numbers suffice for all of them and the outline.
pub open spec fn mergeable(docs: Seq<DocumentView>, marks: Seq<BookmarkView>) -> bool {
    inputs_wf(docs) && numbers_suffice(docs, outline_cost(marks.len() as int))
}

/// How many of the first `n` objects of `g` have the role `role`.
pub open spec fn count_role(g: GraphView, role: Role, n: int) -> nat
    decreases n,
{
    if n <= 0 {
        0
    } else {
        count_role(g, role, n - 1) + if n <= g.len() && role_of(g[n - 1].1) == role {
            1nat
        } else {
            0nat
        }
    }
}

/// How many objects of `g` have the role `role`.
pub open spec fn role_count(g: GraphView, role: Role) -> nat {
    count_role(g, role, g.len() as int)
}

/// The number of pages that the first `k` documents contribute: the lengths
/// of their page orders, added up.
pub open spec fn page_total(docs: Seq<DocumentView>, k: int) -> nat
    decreases k,
{
    if k <= 0 {
        0
    } else {
        page_total(docs, k - 1) + page_order(docs[k - 1]).len()
    }
}

/// Graphs whose objects have the same roles, position by position, have as
/// many objects of each role.
proof fn lemma_count_same_roles(a: GraphView, b: GraphView, role: Role, n: int)
    requires
        0 <= n <= a.len(),
        n <= b.len(),
        forall|i: int| 0 <= i < n ==> role_of((#[trigger] a[i]).1) == role_of(b[i].1),
    ensures
        count_role(a, role, n) == count_role(b, role, n),
    decreases n,
{
    if n > 0 {
        lemma_count_same_roles(a, b, role, n - 1);
        assert(role_of(a[n - 1].1) == role_of(b[n - 1].1));
    }
}

/// Objects of other roles, added at the end, do not change the count.
proof fn lemma_count_append(g: GraphView, tail: GraphView, role: Role, t: int)
    requires
        0 <= t <= tail.len(),
        forall|j: int| 0 <= j < tail.len() ==> role_of((#[trigger] tail[j]).1) != role,
    ensures
        count_role(g + tail, role, g.len() + t) == role_count(g, role),
    decreases t,
{
    if t > 0 {
        lemma_count_append(g, tail, role, t - 1);
        assert((g + tail)[g.len() + t - 1] == tail[t - 1]);
    } else {
        lemma_count_same_roles(g + tail, g, role, g.len() as int);
    }
}

/// Of the catalogs of the union the output keeps the chosen one, and of the
/// page-tree nodes the chosen root.
proof fn lemma_count_assembled(u: GraphView, n: int, plan: Plan, role: Role)
    requires
        plan_fits(u, plan),
        0 <= n <= u.len(),
        role == Role::Catalog || role == Role::Pages,
    ensures
        role_count(assembled(u, n, plan), role) == if (if role == Role::Catalog {
            plan.catalog
        } else {
            plan.root
        }) < n {
            1nat
        } else {
            0nat
        },
    decreases n,
{
    if n > 0 {
        lemma_count_assembled(u, n - 1, plan, role);
        lemma_placed_role(u, n - 1, plan);
        let before = assembled(u, n - 1, plan);
        let after = assembled(u, n, plan);
        if placed(u, n - 1, plan) is Some {
            lemma_count_same_roles(after, before, role, before.len() as int);
        }
    }
}

/// The outline root has the role of an outline root, and an outline item has
/// no role: neither is a catalog or a page-tree node.
proof fn lemma_outline_roles(max_id: u32, marks: Seq<BookmarkView>, j: int)
    requires
        0 <= j <= marks.len(),
    ensures
        role_of(outline_objects(max_id, marks)[j].1) == if j == 0 {
            Role::Outlines
        } else {
            Role::Other
        },
{
    lemma_names_differ();
    let empty = Seq::<(Seq<u8>, ObjectView)>::empty();
    if j == 0 {
        let n = marks.len() as int;
        let a = dict_set(empty, name_type(), ObjectView::Name(name_outlines()));
        let b = dict_set(a, name_first(), ObjectView::Reference(outline_item_id(max_id, 0)));
        let c = dict_set(b, name_last(), ObjectView::Reference(outline_item_id(max_id, n - 1)));
        lemma_get_set_same(empty, name_type(), ObjectView::Name(name_outlines()));
        lemma_get_set_other(
            a,
            name_first(),
            ObjectView::Reference(outline_item_id(max_id, 0)),
            name_type(),
        );
        lemma_get_set_other(
            b,
            name_last(),
            ObjectView::Reference(outline_item_id(max_id, n - 1)),
            name_type(),
        );
        lemma_get_set_other(c, name_count(), ObjectView::Integer(n as i64), name_type());
    } else {
        let k = j - 1;
        let a = dict_set(empty, name_title(), ObjectView::String(marks[k].title));
        let b = dict_set(a, name_parent(), ObjectView::Reference(outline_root_id(max_id)));
        let c = dict_set(b, name_dest(), destination(marks[k].page));
        let d = if k > 0 {
            dict_set(c, name_prev(), ObjectView::Reference(outline_item_id(max_id, k - 1)))
        } else {
            c
        };
        assert(dict_get(empty, name_type()) is None) by {
            crate::object::lemma_no_entry_is_absent(empty, name_type());
        }
        lemma_get_set_other(empty, name_title(), ObjectView::String(marks[k].title), name_type());
        lemma_get_set_other(
            a,
            name_parent(),
            ObjectView::Reference(outline_root_id(max_id)),
            name_type(),
        );
        lemma_get_set_other(b, name_dest(), destination(marks[k].page), name_type());
        lemma_get_set_other(
            c,
            name_prev(),
            ObjectView::Reference(outline_item_id(max_id, k - 1)),
            name_type(),
        );
        lemma_get_set_other(
            d,
            name_next(),
            ObjectView::Reference(outline_item_id(max_id, k + 1)),
            name_type(),
        );
    }
}

/// The merged document before outline and compaction is well formed, and its
/// catalog stands where the plan puts it.
proof fn lemma_base(docs: Seq<DocumentView>)
    requires
        inputs_wf(docs),
        numbers_suffice(docs, 0),
        classification_error(union_graph(docs)) is None,
    ensures
        base_document(docs).wf(),
        base_document(docs).max_id == start_of(docs, docs.len() as int) - 1,
        plan_fits(union_graph(docs), plan_of(union_graph(docs), merged_page_ids(docs))),
{
    let u = union_graph(docs);
    lemma_union_wf(docs, docs.len() as int);
    lemma_plan_fits(u, merged_page_ids(docs));
    lemma_assembled_wf(
        u,
        (start_of(docs, docs.len() as int) - 1) as u32,
        u.len() as int,
        plan_of(u, merged_page_ids(docs)),
    );
}

/// Adding the outline keeps a document well formed.
proof fn lemma_with_outline_wf(d: DocumentView, marks: Seq<BookmarkView>)
    requires
        d.wf(),
        d.max_id + outline_cost(marks.len() as int) <= u32::MAX,
    ensures
        with_outline(d, marks).wf(),
{
    if marks.len() > 0 {
        let w = with_outline(d, marks);
        let tail = outline_objects(d.max_id, marks);
        let m = d.objects.len() as int;
        assert forall|a: int| 0 <= a < w.ids().len() implies 1 <= (#[trigger] w.ids()[a]).number
            <= w.max_id && (a < m ==> w.ids()[a] == d.ids()[a]) && (a >= m ==> w.ids()[a].number
            == d.max_id + 1 + (a - m)) by {
            if a < m {
                assert(w.objects[a] == d.objects[a]);
                assert(1 <= d.ids()[a].number <= d.max_id);
            } else {
                assert(w.objects[a] == tail[a - m]);
            }
        }
        assert forall|a: int, b: int| 0 <= a < b < w.ids().len() implies (
        #[trigger] w.ids()[a]).number < (#[trigger] w.ids()[b]).number by {
            if b < m {
                assert(d.ids()[a].number < d.ids()[b].number);
            } else if a < m {
                assert(1 <= d.ids()[a].number <= d.max_id);
            }
        }
    }
}

/// What is known of the merged document before compaction: it is well
/// formed; it holds the objects of the assembled document, under the same
/// identifiers and with the same roles, and then the outline objects; and all
/// but its catalog are as they were assembled.
proof fn lemma_linked(docs: Seq<DocumentView>, marks: Seq<BookmarkView>)
    requires
        mergeable(docs, marks),
        classification_error(union_graph(docs)) is None,
    ensures
        linked_document(docs, marks).wf(),
        linked_document(docs, marks).objects.len() == base_document(docs).objects.len()
            + outline_cost(marks.len() as int),
        forall|p: int|
            0 <= p < base_document(docs).objects.len() ==> (#[trigger] linked_document(
                docs,
                marks,
            ).objects[p]).0 == base_document(docs).objects[p].0 && role_of(
                linked_document(docs, marks).objects[p].1,
            ) == role_of(base_document(docs).objects[p].1) && (role_of(
                base_document(docs).objects[p].1,
            ) != Role::Catalog ==> linked_document(docs, marks).objects[p] == base_document(
                docs,
            ).objects[p]),
        forall|p: int|
            base_document(docs).objects.len() <= p < linked_document(docs, marks).objects.len()
                ==> role_of((#[trigger] linked_document(docs, marks).objects[p]).1) == if p
                == base_document(docs).objects.len() {
                Role::Outlines
            } else {
                Role::Other
            },
        linked_document(docs, marks).trailer == base_document(docs).trailer,
        marks.len() == 0 ==> linked_document(docs, marks) == base_document(docs),
        marks.len() > 0 ==> {
            let pc = assembled(
                union_graph(docs),
                plan_of(union_graph(docs), merged_page_ids(docs)).catalog,
                plan_of(union_graph(docs), merged_page_ids(docs)),
            ).len() as int;
            &&& pc < base_document(docs).objects.len()
            &&& base_document(docs).objects[pc].1 is Dictionary
            &&& linked_document(docs, marks).objects[pc].1 == ObjectView::Dictionary(
                dict_set(
                    base_document(docs).objects[pc].1->Dictionary_0,
                    name_outlines(),
                    ObjectView::Reference(outline_root_id(base_document(docs).max_id)),
                ),
            )
            &&& linked_document(docs, marks).objects[base_document(docs).objects.len() as int].0
                == outline_root_id(base_document(docs).max_id)
        },
{
    lemma_names_differ();
    lemma_start_monotone(docs, docs.len() as int, docs.len() as int);
    lemma_base(docs);
    let u = union_graph(docs);
    let pages = merged_page_ids(docs);
    let plan = plan_of(u, pages);
    let base = base_document(docs);
    let fixed = adjusted(marks, pages);
    let outlined = with_outline(base, fixed);
    let linked = linked_document(docs, marks);
    let m = base.objects.len() as int;
    lemma_with_outline_wf(base, fixed);
    if marks.len() > 0 {
        let tail = outline_objects(base.max_id, fixed);
        assert forall|p: int| m <= p < outlined.objects.len() implies role_of(
            (#[trigger] outlined.objects[p]).1,
        ) == if p == m {
            Role::Outlines
        } else {
            Role::Other
        } by {
            assert(outlined.objects[p] == tail[p - m]);
            lemma_outline_roles(base.max_id, fixed, p - m);
        }
        assert(outlined.objects[m] == tail[0]);
        // The catalog stands in the assembled document, and nowhere else.
        let c = catalog_id(docs);
        lemma_placed_role(u, plan.catalog, plan);
        lemma_assembled_entry(u, u.len() as int, plan, plan.catalog);
        let pc = assembled(u, plan.catalog, plan).len() as int;
        assert(base.objects[pc] == placed(u, plan.catalog, plan)->0);
        assert(outlined.objects[pc] == base.objects[pc]);
        assert(outlined.ids()[pc] == c);
        lemma_position_unique(outlined.ids(), pc);
        assert(index_of_id(outlined.ids(), c) == pc);
        let held = outlined.objects[pc].1;
        assert(role_of(held) == Role::Catalog);
        let cd = held->Dictionary_0;
        lemma_get_set_other(
            cd,
            name_outlines(),
            ObjectView::Reference(outline_root_id(base.max_id)),
            name_type(),
        );
        assert(linked.objects == outlined.objects.update(
            pc,
            (
                c,
                ObjectView::Dictionary(
                    dict_set(
                        cd,
                        name_outlines(),
                        ObjectView::Reference(outline_root_id(base.max_id)),
                    ),
                ),
            ),
        ));
        assert(linked.ids() =~= outlined.ids());
        assert forall|p: int| 0 <= p < m implies (#[trigger] linked.objects[p]).0
            == base.objects[p].0 && role_of(linked.objects[p].1) == role_of(base.objects[p].1) && (
        role_of(base.objects[p].1) != Role::Catalog ==> linked.objects[p] == base.objects[p]) by {
            assert(outlined.objects[p] == base.objects[p]);
        }
        assert forall|p: int| m <= p < linked.objects.len() implies role_of(
            (#[trigger] linked.objects[p]).1,
        ) == if p == m {
            Role::Outlines
        } else {
            Role::Other
        } by {
            assert(linked.objects[p] == outlined.objects[p]);
        }
    }
}

/// The output has exactly one catalog and exactly one page-tree node,
/// whatever the inputs held of either.
pub proof fn law_one_catalog_one_page_tree(docs: Seq<DocumentView>, marks: Seq<BookmarkView>)
    requires
        mergeable(docs, marks),
        merge_outcome(docs, marks) is Ok,
    ensures
        role_count(merged_document(docs, marks).objects, Role::Catalog) == 1,
        role_count(merged_document(docs, marks).objects, Role::Pages) == 1,
{
    lemma_start_monotone(docs, docs.len() as int, docs.len() as int);
    lemma_base(docs);
    lemma_linked(docs, marks);
    let u = union_graph(docs);
    let plan = plan_of(u, merged_page_ids(docs));
    let base = base_document(docs);
    let linked = linked_document(docs, marks);
    let out = merged_document(docs, marks);
    let m = base.objects.len() as int;
    let tail = linked.objects.subrange(m, linked.objects.len() as int);
    assert(linked.objects =~= linked.objects.subrange(0, m) + tail);
    assert forall|p: int| 0 <= p < out.objects.len() implies role_of((#[trigger] out.objects[p]).1)
        == role_of(linked.objects[p].1) by {
        lemma_rewrite_keeps_role(linked.objects[p].1, dense_map(linked.ids()));
    }
    assert forall|j: int| 0 <= j < tail.len() implies role_of((#[trigger] tail[j]).1)
        != Role::Catalog && role_of(tail[j].1) != Role::Pages by {
        assert(tail[j] == linked.objects[m + j]);
    }
    let head = linked.objects.subrange(0, m);
    assert forall|p: int| 0 <= p < m implies role_of((#[trigger] head[p]).1) == role_of(
        base.objects[p].1,
    ) by {
        assert(head[p] == linked.objects[p]);
    }
    // Catalogs.
    lemma_count_same_roles(out.objects, linked.objects, Role::Catalog, out.objects.len() as int);
    lemma_count_append(head, tail, Role::Catalog, tail.len() as int);
    lemma_count_same_roles(head, base.objects, Role::Catalog, m);
    lemma_count_assembled(u, u.len() as int, plan, Role::Catalog);
    // Page-tree nodes.
    lemma_count_same_roles(out.objects, linked.objects, Role::Pages, out.objects.len() as int);
    lemma_count_append(head, tail, Role::Pages, tail.len() as int);
    lemma_count_same_roles(head, base.objects, Role::Pages, m);
    lemma_count_assembled(u, u.len() as int, plan, Role::Pages);
}

/// The identifiers of the output are `(1, 0)` to `(N, 0)`, in this order:
/// each number from one to the number of objects occurs once, and no other.
/// The counter stands at `N`.
pub proof fn law_identifiers_are_dense(docs: Seq<DocumentView>, marks: Seq<BookmarkView>)
    requires
        mergeable(docs, marks),
        merge_outcome(docs, marks) is Ok,
    ensures
        merged_document(docs, marks).wf(),
        merged_document(docs, marks).max_id == merged_document(docs, marks).objects.len(),
        forall|i: int|
            0 <= i < merged_document(docs, marks).objects.len() ==> (#[trigger] merged_document(
                docs,
                marks,
            ).objects[i]).0 == (ObjectId { number: (i + 1) as u32, generation: 0 }) && i + 1
                <= u32::MAX,
        forall|i: int, j: int|
            0 <= i < j < merged_document(docs, marks).objects.len() ==> (
            #[trigger] merged_document(docs, marks).objects[i]).0 != (#[trigger] merged_document(
                docs,
                marks,
            ).objects[j]).0,
{
    lemma_linked(docs, marks);
    lemma_compacted_wf(linked_document(docs, marks));
}

/// The page-tree node of the output counts and lists the pages of the inputs:
/// its `Count` is the number of pages that the inputs contribute, and its
/// `Kids` are references to exactly these pages, in order, under the
/// identifiers that they have in the output.
pub proof fn law_page_tree_lists_the_pages(
    docs: Seq<DocumentView>,
    marks: Seq<BookmarkView>,
    i: int,
)
    requires
        mergeable(docs, marks),
        merge_outcome(docs, marks) is Ok,
        0 <= i < merged_document(docs, marks).objects.len(),
        role_of(merged_document(docs, marks).objects[i].1) == Role::Pages,
    ensures
        merged_document(docs, marks).objects[i].1 is Dictionary,
        dict_get(merged_document(docs, marks).objects[i].1->Dictionary_0, name_count()) == Some(
            ObjectView::Integer(merged_page_ids(docs).len() as i64),
        ),
        dict_get(merged_document(docs, marks).objects[i].1->Dictionary_0, name_kids()) == Some(
            ObjectView::Array(page_refs(final_page_ids(docs, marks))),
        ),
        merged_page_ids(docs).len() == page_total(docs, docs.len() as int),
        merged_page_ids(docs).len() <= u32::MAX,
{
    lemma_names_differ();
    lemma_start_monotone(docs, docs.len() as int, docs.len() as int);
    lemma_base(docs);
    lemma_linked(docs, marks);
    lemma_page_total(docs, docs.len() as int);
    lemma_page_total_bound(docs, docs.len() as int);
    let u = union_graph(docs);
    let pages = merged_page_ids(docs);
    let plan = plan_of(u, pages);
    let base = base_document(docs);
    let linked = linked_document(docs, marks);
    let out = merged_document(docs, marks);
    let m = dense_map(linked.ids());
    lemma_rewrite_keeps_role(linked.objects[i].1, m);
    assert(role_of(linked.objects[i].1) == Role::Pages);
    assert(i < base.objects.len());
    assert(linked.objects[i] == base.objects[i]);
    let j = lemma_assembled_source(u, u.len() as int, plan, i);
    lemma_placed_role(u, j, plan);
    assert(j == plan.root);
    let root = rebuilt_root(plan.merged, pages);
    assert(base.objects[i].1 == ObjectView::Dictionary(root));
    let counted = dict_set(plan.merged, name_count(), ObjectView::Integer(pages.len() as i64));
    lemma_get_set_same(plan.merged, name_count(), ObjectView::Integer(pages.len() as i64));
    lemma_get_set_other(
        counted,
        name_kids(),
        ObjectView::Array(page_refs(pages)),
        name_count(),
    );
    lemma_get_set_same(counted, name_kids(), ObjectView::Array(page_refs(pages)));
    lemma_rewrite_get(root, m, name_count());
    lemma_rewrite_get(root, m, name_kids());
    assert(rewrite(ObjectView::Array(page_refs(pages)), m)->Array_0 =~= page_refs(
        final_page_ids(docs, marks),
    )) by {
        reveal_with_fuel(rewrite, 2);
    }
}

/// Where page `i` of document `k` stands among the pages of the first `n`
/// documents.
proof fn lemma_page_position(docs: Seq<DocumentView>, n: int, k: int, i: int)
    requires
        0 <= k < n <= docs.len(),
        0 <= i < page_order(docs[k]).len(),
    ensures
        pages_of(docs, n).len() == page_total(docs, n),
        pages_of(docs, k).len() == page_total(docs, k),
        page_total(docs, k) + i < pages_of(docs, n).len(),
        pages_of(docs, n)[page_total(docs, k) + i] == apply(
            shift_map(docs[k].ids(), start_of(docs, k) as u32),
            page_order(docs[k])[i],
        ),
    decreases n,
{
    lemma_page_total(docs, n);
    lemma_page_total(docs, k);
    let last = moved_pages(docs[n - 1], start_of(docs, n - 1) as u32);
    assert(pages_of(docs, n) == pages_of(docs, n - 1) + last);
    if k < n - 1 {
        lemma_page_position(docs, n - 1, k, i);
    } else {
        assert(pages_of(docs, n)[page_total(docs, k) + i] == last[i]);
    }
}

/// There are as many pages as the documents contribute together.
proof fn lemma_page_total(docs: Seq<DocumentView>, n: int)
    requires
        0 <= n <= docs.len(),
    ensures
        pages_of(docs, n).len() == page_total(docs, n),
    decreases n,
{
    if n > 0 {
        lemma_page_total(docs, n - 1);
    }
}

/// The documents contribute fewer pages than they take object numbers.
proof fn lemma_page_total_bound(docs: Seq<DocumentView>, n: int)
    requires
        inputs_wf(docs),
        0 <= n <= docs.len(),
    ensures
        page_total(docs, n) <= start_of(docs, n) - 1,
    decreases n,
{
    if n > 0 {
        lemma_page_total_bound(docs, n - 1);
        let d = docs[n - 1];
        crate::pages::lemma_page_count(d);
        if d.objects.len() > 0 {
            crate::document::lemma_number_at_least_position(
                d.ids(),
                d.max_id,
                d.objects.len() - 1,
            );
        }
    }
}

/// Every leaf page of `d` hangs in the page tree of `d`, and none hangs there
/// twice.
pub open spec fn pages_listed_once(d: DocumentView) -> bool {
    &&& page_order(d).no_duplicates()
    &&& forall|i: int|
        0 <= i < d.objects.len() && role_of((#[trigger] d.objects[i]).1) == Role::Page
            ==> page_order(d).contains(d.objects[i].0)
}

/// The number of leaf pages among the objects of the first `k` documents.
pub open spec fn page_objects(docs: Seq<DocumentView>, k: int) -> nat
    decreases k,
{
    if k <= 0 {
        0
    } else {
        page_objects(docs, k - 1) + role_count(docs[k - 1].objects, Role::Page)
    }
}

/// The identifiers of the leaf pages among the first `n` objects of `g`.
spec fn page_ids(g: GraphView, n: int) -> Set<ObjectId>
    decreases n,
{
    if n <= 0 {
        Set::empty()
    } else if n <= g.len() && role_of(g[n - 1].1) == Role::Page {
        page_ids(g, n - 1).insert(g[n - 1].0)
    } else {
        page_ids(g, n - 1)
    }
}

/// Where no identifier occurs twice there are as many identifiers of leaf
/// pages as leaf pages.
proof fn lemma_page_ids(g: GraphView, n: int)
    requires
        increasing(graph_ids(g)),
        0 <= n <= g.len(),
    ensures
        page_ids(g, n).finite(),
        page_ids(g, n).len() == count_role(g, Role::Page, n),
        forall|id: ObjectId|
            page_ids(g, n).contains(id) <==> exists|i: int|
                0 <= i < n && (#[trigger] g[i]).0 == id && role_of(g[i].1) == Role::Page,
    decreases n,
{
    if n > 0 {
        lemma_page_ids(g, n - 1);
        let before = page_ids(g, n - 1);
        let last = g[n - 1].0;
        if role_of(g[n - 1].1) == Role::Page {
            if before.contains(last) {
                let i = choose|i: int|
                    0 <= i < n - 1 && (#[trigger] g[i]).0 == last && role_of(g[i].1) == Role::Page;
                assert(graph_ids(g)[i].number < graph_ids(g)[n - 1].number);
            }
            vstd::set::axiom_set_insert_finite(before, last);
            vstd::set::axiom_set_insert_len(before, last);
        }
        assert forall|id: ObjectId| page_ids(g, n).contains(id) <==> exists|i: int|
            0 <= i < n && (#[trigger] g[i]).0 == id && role_of(g[i].1) == Role::Page by {
            if page_ids(g, n).contains(id) {
                if before.contains(id) {
                    let i = choose|i: int|
                        0 <= i < n - 1 && (#[trigger] g[i]).0 == id && role_of(g[i].1)
                            == Role::Page;
                    assert(0 <= i < n && g[i].0 == id && role_of(g[i].1) == Role::Page);
                } else {
                    assert(g[n - 1].0 == id && role_of(g[n - 1].1) == Role::Page);
                }
            }
            if exists|i: int|
                0 <= i < n && (#[trigger] g[i]).0 == id && role_of(g[i].1) == Role::Page {
                let i = choose|i: int|
                    0 <= i < n && (#[trigger] g[i]).0 == id && role_of(g[i].1) == Role::Page;
                if i < n - 1 {
                    assert(before.contains(id));
                }
            }
        }
    }
}

/// A page tree that lists every leaf page once lists as many pages as the
/// document has leaf pages.
proof fn lemma_page_order_counts(d: DocumentView)
    requires
        d.wf(),
        pages_listed_once(d),
    ensures
        page_order(d).len() == role_count(d.objects, Role::Page),
{
    let g = d.objects;
    let order = page_order(d);
    lemma_page_ids(g, g.len() as int);
    let ids = page_ids(g, g.len() as int);
    assert forall|id: ObjectId| order.to_set().contains(id) <==> ids.contains(id) by {
        if order.contains(id) {
            let t = choose|t: int| 0 <= t < order.len() && order[t] == id;
            crate::pages::lemma_page_order_is_pages(d, t);
            let j = index_of_id(graph_ids(g), id);
            assert(graph_ids(g)[j] == id);
            assert(g[j].0 == id && role_of(g[j].1) == Role::Page);
        }
        if ids.contains(id) {
            let i = choose|i: int|
                0 <= i < g.len() && (#[trigger] g[i]).0 == id && role_of(g[i].1) == Role::Page;
            assert(order.contains(g[i].0));
        }
    }
    assert(order.to_set() =~= ids);
    order.unique_seq_to_set();
}

/// Where every input lists each of its leaf pages once, the inputs contribute
/// as many pages as they hold leaf pages.
proof fn lemma_page_objects(docs: Seq<DocumentView>, n: int)
    requires
        inputs_wf(docs),
        0 <= n <= docs.len(),
        forall|k: int| 0 <= k < docs.len() ==> pages_listed_once(#[trigger] docs[k]),
    ensures
        page_total(docs, n) == page_objects(docs, n),
    decreases n,
{
    if n > 0 {
        lemma_page_objects(docs, n - 1);
        lemma_page_order_counts(docs[n - 1]);
    }
}

/// Where every input lists each of its leaf pages once in its page tree, the
/// `Count` of the output's page-tree node is the number of leaf pages that
/// the inputs hold together.
pub proof fn law_count_is_the_number_of_pages(
    docs: Seq<DocumentView>,
    marks: Seq<BookmarkView>,
    i: int,
)
    requires
        mergeable(docs, marks),
        merge_outcome(docs, marks) is Ok,
        forall|k: int| 0 <= k < docs.len() ==> pages_listed_once(#[trigger] docs[k]),
        0 <= i < merged_document(docs, marks).objects.len(),
        role_of(merged_document(docs, marks).objects[i].1) == Role::Pages,
    ensures
        merged_document(docs, marks).objects[i].1 is Dictionary,
        dict_get(merged_document(docs, marks).objects[i].1->Dictionary_0, name_count()) == Some(
            ObjectView::Integer(page_objects(docs, docs.len() as int) as i64),
        ),
{
    law_page_tree_lists_the_pages(docs, marks, i);
    lemma_page_objects(docs, docs.len() as int);
}

/// The pages of the merge are the pages of the inputs, input after input and
/// each input in its own page order: page `i` of document `k` stands after
/// all pages of the documents before `k` and after the pages before `i` of
/// document `k`, under the identifier that renumbering gives it. There are as
/// many pages as the inputs contribute together.
pub proof fn law_pages_follow_the_inputs(docs: Seq<DocumentView>, k: int, i: int)
    requires
        0 <= k < docs.len(),
        0 <= i < page_order(docs[k]).len(),
    ensures
        merged_page_ids(docs).len() == page_total(docs, docs.len() as int),
        page_total(docs, k) + i < merged_page_ids(docs).len(),
        merged_page_ids(docs)[page_total(docs, k) + i] == apply(
            shift_map(docs[k].ids(), start_of(docs, k) as u32),
            page_order(docs[k])[i],
        ),
{
    lemma_page_position(docs, docs.len() as int, k, i);
}

/// Where an object stands before compaction, there it stands after it, under
/// the identifier of that place, and there it is found.
proof fn lemma_final_position(docs: Seq<DocumentView>, marks: Seq<BookmarkView>, q: int)
    requires
        mergeable(docs, marks),
        classification_error(union_graph(docs)) is None,
        0 <= q < linked_document(docs, marks).objects.len(),
    ensures
        final_id(docs, marks, linked_document(docs, marks).objects[q].0) == dense_id(q),
        merged_document(docs, marks).objects[q].0 == dense_id(q),
        merged_document(docs, marks).objects[q].1 == rewrite(
            linked_document(docs, marks).objects[q].1,
            dense_map(linked_document(docs, marks).ids()),
        ),
        merged_document(docs, marks).get(dense_id(q)) == Some(
            merged_document(docs, marks).objects[q].1,
        ),
{
    let linked = linked_document(docs, marks);
    let out = merged_document(docs, marks);
    lemma_linked(docs, marks);
    lemma_compacted_wf(linked);
    lemma_position_unique(linked.ids(), q);
    assert(out.ids()[q] == out.objects[q].0);
    lemma_position_unique(out.ids(), q);
}

/// The trailer of the output points at its catalog, and the catalog at its
/// page-tree root: `Root` of the trailer refers to the catalog that stayed,
/// which is a catalog, asks for the outline panel and refers to the root that
/// stayed as its `Pages`; and that root is a page-tree node.
pub proof fn law_roots_are_linked(docs: Seq<DocumentView>, marks: Seq<BookmarkView>)
    requires
        mergeable(docs, marks),
        merge_outcome(docs, marks) is Ok,
    ensures
        ({
            let out = merged_document(docs, marks);
            let catalog = final_id(docs, marks, catalog_id(docs));
            let root = final_id(docs, marks, root_id(docs));
            &&& out.root() == Some(catalog)
            &&& out.get(catalog) matches Some(ObjectView::Dictionary(c)) && role_of_dict(c)
                == Role::Catalog && dict_get(c, name_pages()) == Some(
                ObjectView::Reference(root),
            ) && dict_get(c, name_page_mode()) == Some(ObjectView::Name(name_use_outlines()))
            &&& out.get(root) matches Some(ObjectView::Dictionary(r)) && role_of_dict(r)
                == Role::Pages
        }),
{
    lemma_names_differ();
    lemma_start_monotone(docs, docs.len() as int, docs.len() as int);
    lemma_base(docs);
    lemma_linked(docs, marks);
    let u = union_graph(docs);
    let pages = merged_page_ids(docs);
    let plan = plan_of(u, pages);
    let base = base_document(docs);
    let linked = linked_document(docs, marks);
    let out = merged_document(docs, marks);
    let m = dense_map(linked.ids());
    let c_id = catalog_id(docs);
    let r_id = root_id(docs);
    let empty = Seq::<(Seq<u8>, ObjectView)>::empty();
    // The trailer.
    lemma_get_set_same(empty, name_root(), ObjectView::Reference(c_id));
    lemma_rewrite_get(linked.trailer, m, name_root());
    // The catalog.
    lemma_placed_role(u, plan.catalog, plan);
    lemma_assembled_entry(u, u.len() as int, plan, plan.catalog);
    let pc = assembled(u, plan.catalog, plan).len() as int;
    let source = u[plan.catalog].1->Dictionary_0;
    let a = dict_set(source, name_pages(), ObjectView::Reference(r_id));
    let b = dict_set(a, name_page_mode(), ObjectView::Name(name_use_outlines()));
    let finished = finished_catalog(source, r_id);
    assert(base.objects[pc] == (c_id, ObjectView::Dictionary(finished)));
    lemma_get_set_same(source, name_pages(), ObjectView::Reference(r_id));
    lemma_get_set_other(
        a,
        name_page_mode(),
        ObjectView::Name(name_use_outlines()),
        name_pages(),
    );
    lemma_get_set_same(a, name_page_mode(), ObjectView::Name(name_use_outlines()));
    crate::object::lemma_get_remove_other(b, name_outlines(), name_pages());
    crate::object::lemma_get_remove_other(b, name_outlines(), name_page_mode());
    let held = linked.objects[pc].1->Dictionary_0;
    if marks.len() > 0 {
        let hung = ObjectView::Reference(outline_root_id(base.max_id));
        lemma_get_set_other(finished, name_outlines(), hung, name_pages());
        lemma_get_set_other(finished, name_outlines(), hung, name_page_mode());
    }
    assert(linked.objects[pc].1 == ObjectView::Dictionary(held));
    assert(dict_get(held, name_pages()) == Some(ObjectView::Reference(r_id)));
    assert(dict_get(held, name_page_mode()) == Some(ObjectView::Name(name_use_outlines())));
    lemma_final_position(docs, marks, pc);
    lemma_rewrite_keeps_role(linked.objects[pc].1, m);
    lemma_rewrite_get(held, m, name_pages());
    lemma_rewrite_get(held, m, name_page_mode());
    // The root.
    lemma_placed_role(u, plan.root, plan);
    lemma_assembled_entry(u, u.len() as int, plan, plan.root);
    let pr = assembled(u, plan.root, plan).len() as int;
    assert(base.objects[pr].0 == r_id);
    lemma_final_position(docs, marks, pr);
    lemma_rewrite_keeps_role(linked.objects[pr].1, m);
}

/// Every page of the output hangs below the one root: its `Parent` refers to
/// the page-tree root that stayed.
pub proof fn law_pages_hang_below_the_root(
    docs: Seq<DocumentView>,
    marks: Seq<BookmarkView>,
    i: int,
)
    requires
        mergeable(docs, marks),
        merge_outcome(docs, marks) is Ok,
        0 <= i < merged_document(docs, marks).objects.len(),
        role_of(merged_document(docs, marks).objects[i].1) == Role::Page,
    ensures
        merged_document(docs, marks).objects[i].1 is Dictionary,
        dict_get(merged_document(docs, marks).objects[i].1->Dictionary_0, name_parent()) == Some(
            ObjectView::Reference(final_id(docs, marks, root_id(docs))),
        ),
{
    lemma_names_differ();
    lemma_start_monotone(docs, docs.len() as int, docs.len() as int);
    lemma_base(docs);
    lemma_linked(docs, marks);
    let u = union_graph(docs);
    let plan = plan_of(u, merged_page_ids(docs));
    let base = base_document(docs);
    let linked = linked_document(docs, marks);
    let m = dense_map(linked.ids());
    lemma_rewrite_keeps_role(linked.objects[i].1, m);
    assert(i < base.objects.len());
    assert(linked.objects[i] == base.objects[i]);
    let j = lemma_assembled_source(u, u.len() as int, plan, i);
    lemma_placed_role(u, j, plan);
    let source = u[j].1->Dictionary_0;
    let moved = reparented(source, root_id(docs));
    assert(base.objects[i].1 == ObjectView::Dictionary(moved));
    lemma_get_set_same(source, name_parent(), ObjectView::Reference(root_id(docs)));
    lemma_rewrite_get(moved, m, name_parent());
}

/// Which page of which document stands at position `t` of the merged pages.
proof fn lemma_page_source(docs: Seq<DocumentView>, n: int, t: int) -> (at: (int, int))
    requires
        0 <= n <= docs.len(),
        0 <= t < pages_of(docs, n).len(),
    ensures
        0 <= at.0 < n,
        0 <= at.1 < page_order(docs[at.0]).len(),
        pages_of(docs, n)[t] == apply(
            shift_map(docs[at.0].ids(), start_of(docs, at.0) as u32),
            page_order(docs[at.0])[at.1],
        ),
    decreases n,
{
    let before = pages_of(docs, n - 1).len() as int;
    if t < before {
        lemma_page_source(docs, n - 1, t)
    } else {
        (n - 1, t - before)
    }
}

/// Every entry of `Kids` leads to a page: under the identifier that the
/// output lists for a page stands an object of the output, and it is a leaf
/// page.
pub proof fn law_kids_are_pages(docs: Seq<DocumentView>, marks: Seq<BookmarkView>, t: int)
    requires
        mergeable(docs, marks),
        merge_outcome(docs, marks) is Ok,
        0 <= t < merged_page_ids(docs).len(),
    ensures
        merged_document(docs, marks).get(final_page_ids(docs, marks)[t]) matches Some(o)
            && role_of(o) == Role::Page,
{
    lemma_start_monotone(docs, docs.len() as int, docs.len() as int);
    lemma_base(docs);
    lemma_linked(docs, marks);
    let n = docs.len() as int;
    let u = union_graph(docs);
    let pages = merged_page_ids(docs);
    let plan = plan_of(u, pages);
    let base = base_document(docs);
    let linked = linked_document(docs, marks);
    let m = dense_map(linked.ids());
    // The page in its own document.
    let at = lemma_page_source(docs, n, t);
    let d = docs[at.0];
    let start = start_of(docs, at.0) as u32;
    let page = page_order(d)[at.1];
    crate::pages::lemma_page_order_is_pages(d, at.1);
    let j = index_of_id(d.ids(), page);
    assert(d.ids()[j] == page);
    assert(d.objects[j].0 == page);
    // The page in the union.
    lemma_union_entry(docs, n, at.0, j);
    let a = union_of(docs, at.0).len() + j;
    lemma_rewrite_keeps_role(d.objects[j].1, shift_map(d.ids(), start));
    assert(u[a].0 == pages[t]);
    assert(role_of(u[a].1) == Role::Page);
    // The page in the assembled document.
    assert(plan.pages.contains(u[a].0));
    lemma_placed_role(u, a, plan);
    assert(placed(u, a, plan) is Some);
    lemma_assembled_entry(u, u.len() as int, plan, a);
    let q = assembled(u, a, plan).len() as int;
    assert(base.objects[q].0 == pages[t]);
    assert(role_of(base.objects[q].1) == Role::Page);
    // The page in the output.
    assert(linked.objects[q] == base.objects[q]);
    lemma_final_position(docs, marks, q);
    lemma_rewrite_keeps_role(linked.objects[q].1, m);
}

/// Renumbering is one to one: the objects of a document get identifiers that
/// differ from one another, all within the range from the start up to, and
/// not including, the next start.
pub proof fn law_renumbering_is_one_to_one(d: DocumentView, start: u32)
    requires
        d.wf(),
        start >= 1,
        next_start(d, start) <= u32::MAX,
    ensures
        renumbered(d, start).wf(),
        renumbered(d, start).objects.len() == d.objects.len(),
        forall|i: int|
            0 <= i < d.objects.len() ==> start <= (#[trigger] renumbered(
                d,
                start,
            ).objects[i]).0.number < next_start(d, start),
        forall|i: int, j: int|
            0 <= i < j < d.objects.len() ==> (#[trigger] renumbered(d, start).objects[i]).0 != (
            #[trigger] renumbered(d, start).objects[j]).0,
{
    lemma_renumbered_wf(d, start);
}

/// Two documents renumbered one after the other share no identifier, even
/// where they are two copies of one document.
pub proof fn law_ranges_are_disjoint(a: DocumentView, b: DocumentView, start: u32)
    requires
        a.wf(),
        b.wf(),
        start >= 1,
        next_start(a, start) + crate::document::highest(b.ids()) <= u32::MAX,
    ensures
        forall|i: int, j: int|
            0 <= i < a.objects.len() && 0 <= j < b.objects.len() ==> (#[trigger] renumbered(
                a,
                start,
            ).objects[i]).0 != (#[trigger] renumbered(b, next_start(a, start) as u32).objects[j]).0,
{
    lemma_renumbered_wf(a, start);
    lemma_renumbered_wf(b, next_start(a, start) as u32);
}

/// In the union of the renumbered inputs no two objects share an identifier,
/// and the objects of document `k` have the numbers from its start up to, and
/// not including, the start of the next document.
pub proof fn law_union_has_no_collisions(docs: Seq<DocumentView>)
    requires
        inputs_wf(docs),
        numbers_suffice(docs, 0),
    ensures
        forall|a: int, b: int|
            0 <= a < b < union_graph(docs).len() ==> (#[trigger] union_graph(docs)[a]).0 != (
            #[trigger] union_graph(docs)[b]).0,
        forall|k: int, j: int|
            0 <= k < docs.len() && 0 <= j < docs[k].objects.len() ==> start_of(docs, k) <= (
            #[trigger] renumbered(docs[k], start_of(docs, k) as u32).objects[j]).0.number
                < start_of(docs, k + 1),
{
    let u = union_graph(docs);
    lemma_union_wf(docs, docs.len() as int);
    assert forall|a: int, b: int| 0 <= a < b < u.len() implies (#[trigger] u[a]).0 != (
    #[trigger] u[b]).0 by {
        assert(graph_ids(u)[a].number < graph_ids(u)[b].number);
    }
    assert forall|k: int, j: int| 0 <= k < docs.len() && 0 <= j < docs[k].objects.len() implies
        start_of(docs, k) <= (#[trigger] renumbered(
        docs[k],
        start_of(docs, k) as u32,
    ).objects[j]).0.number < start_of(docs, k + 1) by {
        lemma_start_monotone(docs, k + 1, docs.len() as int);
        lemma_start_monotone(docs, k, k + 1);
        lemma_renumbered_wf(docs[k], start_of(docs, k) as u32);
    }
}

/// Where no input holds a page-tree node the merge fails with
/// [`MergeError::MissingPagesRoot`], whether or not a catalog is missing too.
pub proof fn law_missing_pages_root(docs: Seq<DocumentView>, marks: Seq<BookmarkView>)
    requires
        forall|k: int, j: int|
            0 <= k < docs.len() && 0 <= j < docs[k].objects.len() ==> role_of(
                (#[trigger] docs[k].objects[j]).1,
            ) != Role::Pages,
    ensures
        merge_outcome(docs, marks) == Err::<(DocumentView, Seq<crate::structure::SkippedPage>), MergeError>(
            MergeError::MissingPagesRoot,
        ),
{
    lemma_roles_of_union(docs, Role::Pages);
}

/// Where no input holds a catalog, but some input holds a page-tree node, the
/// merge fails with [`MergeError::MissingCatalogRoot`].
pub proof fn law_missing_catalog_root(
    docs: Seq<DocumentView>,
    marks: Seq<BookmarkView>,
    k: int,
    j: int,
)
    requires
        forall|k: int, j: int|
            0 <= k < docs.len() && 0 <= j < docs[k].objects.len() ==> role_of(
                (#[trigger] docs[k].objects[j]).1,
            ) != Role::Catalog,
        0 <= k < docs.len(),
        0 <= j < docs[k].objects.len(),
        role_of(docs[k].objects[j].1) == Role::Pages,
    ensures
        merge_outcome(docs, marks) == Err::<(DocumentView, Seq<crate::structure::SkippedPage>), MergeError>(
            MergeError::MissingCatalogRoot,
        ),
{
    lemma_roles_of_union(docs, Role::Catalog);
    let u = union_graph(docs);
    lemma_union_entry(docs, docs.len() as int, k, j);
    let at = union_of(docs, k).len() + j;
    lemma_rewrite_keeps_role(
        docs[k].objects[j].1,
        shift_map(docs[k].ids(), start_of(docs, k) as u32),
    );
    lemma_has_role_from_any(u, Role::Pages, at);
}

/// A role that no object of any input has does not occur in the union:
/// renumbering changes no role.
proof fn lemma_roles_of_union(docs: Seq<DocumentView>, role: Role)
    requires
        forall|k: int, j: int|
            0 <= k < docs.len() && 0 <= j < docs[k].objects.len() ==> role_of(
                (#[trigger] docs[k].objects[j]).1,
            ) != role,
    ensures
        !has_role(union_graph(docs), role),
{
    let u = union_graph(docs);
    assert forall|i: int| 0 <= i < u.len() implies role_of((#[trigger] u[i]).1) != role by {
        let at = lemma_union_source(docs, docs.len() as int, i);
        let d = docs[at.0];
        lemma_rewrite_keeps_role(d.objects[at.1].1, shift_map(d.ids(), start_of(docs, at.0) as u32));
        assert(role_of(d.objects[at.1].1) != role);
    }
    lemma_role_absent(u, role);
}

} // verus!
