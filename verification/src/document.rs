//! The object graph of one document.
//!
//! A [`Document`] owns a trailer, its objects keyed by identifier, and the
//! counter from which new identifiers are allocated. The objects are kept in
//! the order of their numbers; a number names at most one object.

use crate::names::{bytes_root, name_root};
use crate::object::{dict_get, dict_set, DictView, Dictionary, Object, ObjectId, ObjectView};
use vstd::prelude::*;

verus! {

/// The model of a document's objects: identifier and object, in the order of
/// the numbers.
pub type GraphView = Seq<(ObjectId, ObjectView)>;

/// The model of a [`Document`].
pub struct DocumentView {
    pub trailer: DictView,
    pub objects: GraphView,
    pub max_id: u32,
}

/// The identifiers of a graph, in order.
pub open spec fn graph_ids(g: GraphView) -> Seq<ObjectId> {
    Seq::new(g.len(), |i: int| g[i].0)
}

/// Identifiers and objects side by side.
pub open spec fn zip_view(ids: Seq<ObjectId>, objects: Seq<Object>) -> GraphView {
    Seq::new(ids.len(), |i: int| (ids[i], objects[i]@))
}

/// The numbers strictly increase along `ids`.
pub open spec fn increasing(ids: Seq<ObjectId>) -> bool {
    forall|i: int, j: int|
        0 <= i < j < ids.len() ==> (#[trigger] ids[i]).number < (#[trigger] ids[j]).number
}

/// The identifiers of a well-formed graph: numbers that strictly increase,
/// none of them zero, none above the counter.
pub open spec fn ids_wf(ids: Seq<ObjectId>, max_id: u32) -> bool {
    &&& increasing(ids)
    &&& forall|i: int| 0 <= i < ids.len() ==> 1 <= (#[trigger] ids[i]).number <= max_id
}

/// `id` occurs in `ids`.
pub open spec fn has_id(ids: Seq<ObjectId>, id: ObjectId) -> bool {
    exists|i: int| 0 <= i < ids.len() && #[trigger] ids[i] == id
}

/// The position of `id` in `ids`, where it occurs.
pub open spec fn index_of_id(ids: Seq<ObjectId>, id: ObjectId) -> int {
    choose|i: int| 0 <= i < ids.len() && #[trigger] ids[i] == id
}

/// The object that the graph holds under `id`.
pub open spec fn graph_get(g: GraphView, id: ObjectId) -> Option<ObjectView> {
    if has_id(graph_ids(g), id) {
        Some(g[index_of_id(graph_ids(g), id)].1)
    } else {
        None
    }
}

/// `p` parts `ids` into the numbers below `number` and those from `number`
/// on.
pub open spec fn is_lower_bound(ids: Seq<ObjectId>, number: u32, p: int) -> bool {
    &&& 0 <= p <= ids.len()
    &&& forall|j: int| 0 <= j < p ==> (#[trigger] ids[j]).number < number
    &&& forall|j: int| p <= j < ids.len() ==> (#[trigger] ids[j]).number >= number
}

/// The position of the first number that is not below `number`.
pub open spec fn lower_bound(ids: Seq<ObjectId>, number: u32) -> int {
    choose|p: int| is_lower_bound(ids, number, p)
}

/// The graph with `object` stored under `id`: in place of the object that had
/// this number, or at the place that keeps the numbers in order.
pub open spec fn graph_insert(g: GraphView, id: ObjectId, object: ObjectView) -> GraphView {
    let p = lower_bound(graph_ids(g), id.number);
    if p < g.len() && g[p].0.number == id.number {
        g.update(p, (id, object))
    } else {
        g.insert(p, (id, object))
    }
}

/// The highest number in use, or zero for an empty graph.
pub open spec fn highest(ids: Seq<ObjectId>) -> u32 {
    if ids.len() == 0 {
        0
    } else {
        ids.last().number
    }
}

/// An increasing sequence has a lower bound for every number.
pub proof fn lemma_lower_bound_exists(ids: Seq<ObjectId>, number: u32) -> (p: int)
    requires
        increasing(ids),
    ensures
        is_lower_bound(ids, number, p),
        lower_bound(ids, number) == p,
    decreases ids.len(),
{
    if ids.len() == 0 {
        lemma_lower_bound_unique(ids, number, 0);
        0
    } else if ids.last().number < number {
        let p = ids.len() as int;
        assert forall|j: int| 0 <= j < p implies (#[trigger] ids[j]).number < number by {
            if j < p - 1 {
                assert(ids[j].number < ids[p - 1].number);
            }
        }
        lemma_lower_bound_unique(ids, number, p);
        p
    } else {
        let front = ids.drop_last();
        assert forall|i: int, j: int| 0 <= i < j < front.len() implies (
        #[trigger] front[i]).number < (#[trigger] front[j]).number by {
            assert(ids[i].number < ids[j].number);
        }
        let p = lemma_lower_bound_exists(front, number);
        assert forall|j: int| 0 <= j < p implies (#[trigger] ids[j]).number < number by {
            assert(front[j].number < number);
        }
        assert forall|j: int| p <= j < ids.len() implies (#[trigger] ids[j]).number >= number by {
            if j < front.len() {
                assert(front[j].number >= number);
            }
        }
        lemma_lower_bound_unique(ids, number, p);
        p
    }
}

/// There is one lower bound.
pub proof fn lemma_lower_bound_unique(ids: Seq<ObjectId>, number: u32, p: int)
    requires
        is_lower_bound(ids, number, p),
    ensures
        lower_bound(ids, number) == p,
{
    let q = lower_bound(ids, number);
    assert(is_lower_bound(ids, number, q));
    if q < p {
        assert(ids[q].number < number);
    }
    if p < q {
        assert(ids[p].number < number);
    }
}

/// In an increasing sequence an identifier has one position.
pub proof fn lemma_position_unique(ids: Seq<ObjectId>, i: int)
    requires
        increasing(ids),
        0 <= i < ids.len(),
    ensures
        has_id(ids, ids[i]),
        index_of_id(ids, ids[i]) == i,
{
    let c = index_of_id(ids, ids[i]);
    assert(0 <= c < ids.len() && ids[c] == ids[i]);
    if c < i {
        assert(ids[c].number < ids[i].number);
    }
    if i < c {
        assert(ids[i].number < ids[c].number);
    }
}

/// The last number of an increasing sequence is its highest.
pub proof fn lemma_highest_bounds(ids: Seq<ObjectId>)
    requires
        increasing(ids),
    ensures
        forall|i: int| 0 <= i < ids.len() ==> (#[trigger] ids[i]).number <= highest(ids),
{
    assert forall|i: int| 0 <= i < ids.len() implies (#[trigger] ids[i]).number <= highest(
        ids,
    ) by {
        if i < ids.len() - 1 {
            assert(ids[i].number < ids[ids.len() - 1].number);
        }
    }
}

/// Numbers that start at one and strictly increase are at least their
/// positions: a graph holds no more objects than its highest number.
pub proof fn lemma_number_at_least_position(ids: Seq<ObjectId>, max_id: u32, i: int)
    requires
        ids_wf(ids, max_id),
        0 <= i < ids.len(),
    ensures
        ids[i].number >= i + 1,
    decreases i,
{
    if i > 0 {
        lemma_number_at_least_position(ids, max_id, i - 1);
        assert(ids[i - 1].number < ids[i].number);
    }
}

/// The position of the first number of `ids` that is not below `number`.
pub fn find_lower_bound(ids: &Vec<ObjectId>, number: u32) -> (p: usize)
    requires
        increasing(ids@),
    ensures
        is_lower_bound(ids@, number, p as int),
        lower_bound(ids@, number) == p,
{
    let mut lo: usize = 0;
    let mut hi: usize = ids.len();
    while lo < hi
        invariant
            0 <= lo <= hi <= ids.len(),
            increasing(ids@),
            forall|j: int| 0 <= j < lo ==> (#[trigger] ids@[j]).number < number,
            forall|j: int| hi <= j < ids.len() ==> (#[trigger] ids@[j]).number >= number,
        decreases hi - lo,
    {
        let mid = lo + (hi - lo) / 2;
        if ids[mid].number < number {
            assert forall|j: int| 0 <= j < mid + 1 implies (#[trigger] ids@[j]).number
                < number by {
                if j < mid {
                    assert(ids@[j].number < ids@[mid as int].number);
                }
            }
            lo = mid + 1;
        } else {
            assert forall|j: int| mid <= j < ids.len() implies (#[trigger] ids@[j]).number
                >= number by {
                if j > mid {
                    assert(ids@[mid as int].number < ids@[j].number);
                }
            }
            hi = mid;
        }
    }
    proof {
        lemma_lower_bound_unique(ids@, number, lo as int);
    }
    lo
}

/// The position of `id` in `ids`.
pub fn find_id(ids: &Vec<ObjectId>, id: ObjectId) -> (found: Option<usize>)
    requires
        increasing(ids@),
    ensures
        found is Some == has_id(ids@, id),
        found matches Some(i) ==> i < ids.len() && ids@[i as int] == id && index_of_id(ids@, id)
            == i,
{
    let p = find_lower_bound(ids, id.number);
    if p < ids.len() && ids[p] == id {
        proof {
            lemma_position_unique(ids@, p as int);
        }
        Some(p)
    } else {
        proof {
            if has_id(ids@, id) {
                let i = index_of_id(ids@, id);
                assert(ids@[i] == id);
                if i < p {
                    assert(ids@[i].number < id.number);
                }
                if i > p {
                    assert(ids@[p as int].number >= id.number);
                    assert(ids@[p as int].number < ids@[i].number);
                }
            }
        }
        None
    }
}

/// A document: a trailer, the objects by identifier, and the counter from
/// which identifiers are allocated.
#[derive(Debug, PartialEq, Eq)]
pub struct Document {
    trailer: Dictionary,
    ids: Vec<ObjectId>,
    objects: Vec<Object>,
    max_id: u32,
}

impl View for Document {
    type V = DocumentView;

    closed spec fn view(&self) -> DocumentView {
        DocumentView {
            trailer: self.trailer@,
            objects: zip_view(self.ids@, self.objects@),
            max_id: self.max_id,
        }
    }
}

impl DocumentView {
    /// The identifiers of the objects, in order.
    pub open spec fn ids(self) -> Seq<ObjectId> {
        graph_ids(self.objects)
    }

    /// The object stored under `id`.
    pub open spec fn get(self, id: ObjectId) -> Option<ObjectView> {
        graph_get(self.objects, id)
    }

    /// Whether an object is stored under `id`.
    pub open spec fn contains(self, id: ObjectId) -> bool {
        has_id(self.ids(), id)
    }

    /// The identifiers are in order, none has the number zero, and the
    /// counter is not below any of them.
    pub open spec fn wf(self) -> bool {
        ids_wf(self.ids(), self.max_id)
    }

    /// The identifier that the trailer's `Root` entry refers to.
    pub open spec fn root(self) -> Option<ObjectId> {
        match dict_get(self.trailer, name_root()) {
            Some(ObjectView::Reference(id)) => Some(id),
            _ => None,
        }
    }
}

impl Document {
    /// Every identifier has its object.
    pub closed spec fn aligned(&self) -> bool {
        self.ids.len() == self.objects.len()
    }

    /// The document is well formed: see [`DocumentView::wf`].
    pub open spec fn wf(&self) -> bool {
        self.aligned() && self@.wf()
    }

    /// A document without objects and with an empty trailer.
    pub fn new() -> (doc: Document)
        ensures
            doc.wf(),
            doc@.trailer.len() == 0,
            doc@.objects.len() == 0,
            doc@.max_id == 0,
    {
        Document { trailer: Dictionary::new(), ids: Vec::new(), objects: Vec::new(), max_id: 0 }
    }

    /// A document made of these parts.
    pub(crate) fn from_parts(
        trailer: Dictionary,
        ids: Vec<ObjectId>,
        objects: Vec<Object>,
        max_id: u32,
    ) -> (doc: Document)
        requires
            ids.len() == objects.len(),
            ids_wf(ids@, max_id),
        ensures
            doc.wf(),
            doc@.trailer == trailer@,
            doc@.objects == zip_view(ids@, objects@),
            doc@.max_id == max_id,
    {
        let doc = Document { trailer, ids, objects, max_id };
        assert(doc@.ids() =~= ids@);
        doc
    }

    /// The number of objects.
    pub fn len(&self) -> (n: usize)
        requires
            self.wf(),
        ensures
            n == self@.objects.len(),
    {
        self.ids.len()
    }

    /// The counter from which identifiers are allocated.
    pub fn max_id(&self) -> (max_id: u32)
        ensures
            max_id == self@.max_id,
    {
        self.max_id
    }

    /// The highest number in use, or zero where there is no object.
    pub fn highest_number(&self) -> (number: u32)
        requires
            self.wf(),
        ensures
            number == highest(self@.ids()),
            number <= self@.max_id,
    {
        assert(self@.ids() =~= self.ids@);
        if self.ids.len() == 0 {
            0
        } else {
            self.ids[self.ids.len() - 1].number
        }
    }

    /// The trailer.
    pub fn trailer(&self) -> (trailer: &Dictionary)
        ensures
            trailer@ == self@.trailer,
    {
        &self.trailer
    }

    /// Sets an entry of the trailer.
    pub fn set_trailer(&mut self, key: Vec<u8>, value: Object)
        requires
            old(self).wf(),
        ensures
            final(self).wf(),
            final(self)@ == (DocumentView {
                trailer: dict_set(old(self)@.trailer, key@, value@),
                ..old(self)@
            }),
    {
        self.trailer.set(key, value);
    }

    /// The identifier that the trailer's `Root` entry refers to.
    pub fn root(&self) -> (root: Option<ObjectId>)
        ensures
            root == self@.root(),
    {
        let key = bytes_root();
        match self.trailer.get(key.as_slice()) {
            Some(Object::Reference(id)) => Some(*id),
            _ => None,
        }
    }

    /// The identifier at position `i`.
    pub fn id_at(&self, i: usize) -> (id: ObjectId)
        requires
            self.wf(),
            i < self@.objects.len(),
        ensures
            id == self@.objects[i as int].0,
    {
        self.ids[i]
    }

    /// The object at position `i`.
    pub fn object_at(&self, i: usize) -> (object: &Object)
        requires
            self.wf(),
            i < self@.objects.len(),
        ensures
            object@ == self@.objects[i as int].1,
    {
        &self.objects[i]
    }

    /// The identifiers, in order.
    pub fn ids(&self) -> (ids: &Vec<ObjectId>)
        requires
            self.wf(),
        ensures
            ids@ == self@.ids(),
    {
        assert(self@.ids() =~= self.ids@);
        &self.ids
    }

    /// The position of the object stored under `id`.
    pub fn position(&self, id: ObjectId) -> (found: Option<usize>)
        requires
            self.wf(),
        ensures
            found is Some == self@.contains(id),
            found matches Some(i) ==> i < self@.objects.len() && self@.objects[i as int].0 == id
                && index_of_id(self@.ids(), id) == i,
    {
        assert(self@.ids() =~= self.ids@);
        find_id(&self.ids, id)
    }

    /// Whether an object is stored under `id`.
    pub fn contains(&self, id: ObjectId) -> (present: bool)
        requires
            self.wf(),
        ensures
            present == self@.contains(id),
    {
        self.position(id).is_some()
    }

    /// The object stored under `id`.
    pub fn get(&self, id: ObjectId) -> (object: Option<&Object>)
        requires
            self.wf(),
        ensures
            match object {
                Some(o) => self@.get(id) == Some(o@),
                None => self@.get(id) is None,
            },
    {
        match self.position(id) {
            Some(i) => Some(&self.objects[i]),
            None => None,
        }
    }

    /// Stores `object` under `id`, in place of whatever object had this
    /// number. The number zero names no object: such an identifier is
    /// refused and the document stays as it was.
    pub fn insert(&mut self, id: ObjectId, object: Object) -> (stored: bool)
        requires
            old(self).wf(),
        ensures
            final(self).wf(),
            stored == (id.number != 0),
            !stored ==> final(self)@ == old(self)@,
            stored ==> final(self)@ == (DocumentView {
                trailer: old(self)@.trailer,
                objects: graph_insert(old(self)@.objects, id, object@),
                max_id: if id.number > old(self)@.max_id {
                    id.number
                } else {
                    old(self)@.max_id
                },
            }),
            stored ==> final(self)@.get(id) == Some(object@),
            is_lower_bound(old(self)@.ids(), id.number, lower_bound(old(self)@.ids(), id.number)),
    {
        proof {
            assert(self@.ids() =~= self.ids@);
            let _ = lemma_lower_bound_exists(self.ids@, id.number);
        }
        if id.number == 0 {
            return false;
        }
        let ghost before = self@;
        let ghost value = object@;
        assert(before.ids() =~= self.ids@);
        let p = find_lower_bound(&self.ids, id.number);
        if p < self.ids.len() && self.ids[p].number == id.number {
            self.ids.set(p, id);
            self.objects.set(p, object);
            assert(self@.objects =~= before.objects.update(p as int, (id, value)));
            assert(self@.ids() =~= self.ids@);
            assert forall|i: int, j: int| 0 <= i < j < self.ids@.len() implies (
            #[trigger] self.ids@[i]).number < (#[trigger] self.ids@[j]).number by {
                assert(before.ids()[i].number < before.ids()[j].number);
            }
        } else {
            self.ids.insert(p, id);
            self.objects.insert(p, object);
            assert(self@.objects =~= before.objects.insert(p as int, (id, value)));
            assert(self@.ids() =~= self.ids@);
            assert forall|i: int, j: int| 0 <= i < j < self.ids@.len() implies (
            #[trigger] self.ids@[i]).number < (#[trigger] self.ids@[j]).number by {
                let i0 = if i < p { i } else { i - 1 };
                let j0 = if j < p { j } else { j - 1 };
                if i != p && j != p {
                    assert(before.ids()[i0].number < before.ids()[j0].number);
                } else if i == p {
                    assert(before.ids()[j0].number >= id.number);
                } else {
                    assert(before.ids()[i0].number < id.number);
                }
            }
        }
        if id.number > self.max_id {
            self.max_id = id.number;
        }
        proof {
            assert(self@.ids() =~= self.ids@);
            assert forall|i: int| 0 <= i < self.ids@.len() implies 1 <= (
            #[trigger] self.ids@[i]).number <= self.max_id by {
                if i != p {
                    let i0 = if i < p || before.objects.len() == self.ids@.len() { i } else { i - 1 };
                    assert(1 <= before.ids()[i0].number <= before.max_id);
                }
            }
            lemma_position_unique(self.ids@, p as int);
        }
        true
    }

    /// Stores `object` under a fresh identifier: the counter goes up by one
    /// and gives the number, the generation is zero.
    pub fn add_object(&mut self, object: Object) -> (id: ObjectId)
        requires
            old(self).wf(),
            old(self)@.max_id < u32::MAX,
        ensures
            final(self).wf(),
            id == (ObjectId { number: (old(self)@.max_id + 1) as u32, generation: 0 }),
            final(self)@ == (DocumentView {
                trailer: old(self)@.trailer,
                objects: old(self)@.objects.push((id, object@)),
                max_id: (old(self)@.max_id + 1) as u32,
            }),
    {
        let ghost before = self@;
        let ghost value = object@;
        assert(before.ids() =~= self.ids@);
        let id = ObjectId { number: self.max_id + 1, generation: 0 };
        self.ids.push(id);
        self.objects.push(object);
        self.max_id = self.max_id + 1;
        proof {
            assert(self@.objects =~= before.objects.push((id, value)));
            assert(self@.ids() =~= self.ids@);
            assert forall|i: int, j: int| 0 <= i < j < self.ids@.len() implies (
            #[trigger] self.ids@[i]).number < (#[trigger] self.ids@[j]).number by {
                if j < before.objects.len() {
                    assert(before.ids()[i].number < before.ids()[j].number);
                } else {
                    assert(before.ids()[i].number <= before.max_id);
                }
            }
            assert forall|i: int| 0 <= i < self.ids@.len() implies 1 <= (
            #[trigger] self.ids@[i]).number <= self.max_id by {
                if i < before.objects.len() {
                    assert(1 <= before.ids()[i].number <= before.max_id);
                }
            }
        }
        id
    }

    /// Puts `object` in place of the object at position `i`. The identifier
    /// stays.
    pub fn replace_at(&mut self, i: usize, object: Object)
        requires
            old(self).wf(),
            i < old(self)@.objects.len(),
        ensures
            final(self).wf(),
            final(self)@ == (DocumentView {
                objects: old(self)@.objects.update(
                    i as int,
                    (old(self)@.objects[i as int].0, object@),
                ),
                ..old(self)@
            }),
    {
        let ghost before = self@;
        let ghost value = object@;
        self.objects.set(i, object);
        proof {
            assert(self@.objects =~= before.objects.update(
                i as int,
                (before.objects[i as int].0, value),
            ));
            assert(self@.ids() =~= before.ids());
        }
    }

    /// A copy of this document, every object included.
    pub fn duplicate(&self) -> (copy: Document)
        requires
            self.wf(),
        ensures
            copy.wf(),
            copy@ == self@,
    {
        let mut ids: Vec<ObjectId> = Vec::new();
        let mut objects: Vec<Object> = Vec::new();
        let mut i: usize = 0;
        while i < self.ids.len()
            invariant
                i <= self.ids.len(),
                self.ids.len() == self.objects.len(),
                ids.len() == i,
                objects.len() == i,
                forall|j: int| 0 <= j < i ==> #[trigger] ids@[j] == self.ids@[j],
                forall|j: int| 0 <= j < i ==> (#[trigger] objects@[j])@ == self.objects@[j]@,
            decreases self.ids.len() - i,
        {
            ids.push(self.ids[i]);
            objects.push(self.objects[i].duplicate());
            i += 1;
        }
        assert(ids@ =~= self.ids@);
        assert(self@.ids() =~= self.ids@);
        let copy = Document { trailer: self.trailer.duplicate(), ids, objects, max_id: self.max_id };
        assert(copy@.objects =~= self@.objects);
        assert(copy@.ids() =~= copy.ids@);
        copy
    }
}

impl Clone for Document {
    fn clone(&self) -> (copy: Document)
        ensures
            self.wf() ==> copy.wf() && copy@ == self@,
    {
        let mut ids: Vec<ObjectId> = Vec::new();
        let mut objects: Vec<Object> = Vec::new();
        let n = if self.ids.len() < self.objects.len() {
            self.ids.len()
        } else {
            self.objects.len()
        };
        let mut i: usize = 0;
        while i < n
            invariant
                i <= n,
                n <= self.ids.len(),
                n <= self.objects.len(),
                ids.len() == i,
                objects.len() == i,
                forall|j: int| 0 <= j < i ==> #[trigger] ids@[j] == self.ids@[j],
                forall|j: int| 0 <= j < i ==> (#[trigger] objects@[j])@ == self.objects@[j]@,
            decreases n - i,
        {
            ids.push(self.ids[i]);
            objects.push(self.objects[i].duplicate());
            i += 1;
        }
        let copy = Document { trailer: self.trailer.duplicate(), ids, objects, max_id: self.max_id };
        proof {
            if self.wf() {
                assert(copy.ids@ =~= self.ids@);
                assert(self@.ids() =~= self.ids@);
                assert(copy@.objects =~= self@.objects);
                assert(copy@.ids() =~= copy.ids@);
            }
        }
        copy
    }
}

} // verus!
