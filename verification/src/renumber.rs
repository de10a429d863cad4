//! Renumbering: moving a document's identifiers into a range of their own,
//! and compacting a document to the identifiers `1..=N`.
//!
//! Both first fix the whole mapping from old to new identifiers and then
//! rewrite every reference with it, so that neither the order of the objects
//! nor cycles among them matter.

use crate::document::{
    find_id, has_id, highest, increasing, index_of_id, lemma_highest_bounds,
    lemma_number_at_least_position, zip_view, Document, DocumentView,
};
use crate::names::name_type;
use crate::object::{
    bytes_copy, dict_get, dict_has, dict_index, is_first_at, lemma_first_is_index,
    lemma_has_from_any, role_of, DictView, Dictionary, Object, ObjectId, ObjectView, Stream,
};
use vstd::prelude::*;

verus! {

/// A mapping from old identifiers to new ones.
pub type IdMap = Map<ObjectId, ObjectId>;

/// What `m` makes of `id`: its image, or `id` itself where `m` does not know
/// it.
pub open spec fn apply(m: IdMap, id: ObjectId) -> ObjectId {
    if m.dom().contains(id) {
        m[id]
    } else {
        id
    }
}

/// `o` with every reference in it, however deep, sent through `m`.
pub open spec fn rewrite(o: ObjectView, m: IdMap) -> ObjectView
    decreases o,
{
    match o {
        ObjectView::Array(s) => ObjectView::Array(
            Seq::new(
                s.len(),
                |i: int|
                    if 0 <= i < s.len() {
                        rewrite(s[i], m)
                    } else {
                        ObjectView::Null
                    },
            ),
        ),
        ObjectView::Dictionary(d) => ObjectView::Dictionary(rewrite_dict(d, m)),
        ObjectView::Stream(d, content) => ObjectView::Stream(rewrite_dict(d, m), content),
        ObjectView::Reference(id) => ObjectView::Reference(apply(m, id)),
        other => other,
    }
}

/// `d` with every reference in its values sent through `m`. The keys and
/// their order stay.
pub open spec fn rewrite_dict(d: DictView, m: IdMap) -> DictView
    decreases d,
{
    Seq::new(
        d.len(),
        |i: int|
            if 0 <= i < d.len() {
                (d[i].0, rewrite(d[i].1, m))
            } else {
                (Seq::empty(), ObjectView::Null)
            },
    )
}

/// The mapping that sends `from[i]` to `to[i]`.
pub open spec fn table_map(from: Seq<ObjectId>, to: Seq<ObjectId>) -> IdMap {
    Map::new(|id: ObjectId| has_id(from, id), |id: ObjectId| to[index_of_id(from, id)])
}

/// The identifier that renumbering from `start` gives to `id`: the numbers
/// move up by `start - 1`, the generation becomes zero.
pub open spec fn shift(id: ObjectId, start: u32) -> ObjectId {
    ObjectId { number: (id.number - 1 + start) as u32, generation: 0 }
}

/// The mapping of a renumbering from `start`: defined on the identifiers in
/// use, and nowhere else.
pub open spec fn shift_map(ids: Seq<ObjectId>, start: u32) -> IdMap {
    Map::new(|id: ObjectId| has_id(ids, id), |id: ObjectId| shift(id, start))
}

/// The identifier of the object at position `i` after compaction.
pub open spec fn dense_id(i: int) -> ObjectId {
    ObjectId { number: (i + 1) as u32, generation: 0 }
}

/// The mapping of a compaction: the identifier at position `i` becomes
/// `(i + 1, 0)`.
pub open spec fn dense_map(ids: Seq<ObjectId>) -> IdMap {
    Map::new(|id: ObjectId| has_id(ids, id), |id: ObjectId| dense_id(index_of_id(ids, id)))
}

/// The document renumbered from `start`.
pub open spec fn renumbered(d: DocumentView, start: u32) -> DocumentView {
    let m = shift_map(d.ids(), start);
    DocumentView {
        trailer: rewrite_dict(d.trailer, m),
        objects: Seq::new(
            d.objects.len(),
            |i: int| (shift(d.objects[i].0, start), rewrite(d.objects[i].1, m)),
        ),
        max_id: (start + highest(d.ids()) - 1) as u32,
    }
}

/// The start for the document that follows one renumbered from `start`: one
/// past the highest new number.
pub open spec fn next_start(d: DocumentView, start: u32) -> int {
    start + highest(d.ids())
}

/// The document compacted: the objects keep their order and get the
/// identifiers `(1, 0)`, `(2, 0)`, and so on.
pub open spec fn compacted(d: DocumentView) -> DocumentView {
    let m = dense_map(d.ids());
    DocumentView {
        trailer: rewrite_dict(d.trailer, m),
        objects: Seq::new(d.objects.len(), |i: int| (dense_id(i), rewrite(d.objects[i].1, m))),
        max_id: d.objects.len() as u32,
    }
}

/// What the table `from`, `to` makes of `id`.
pub fn lookup(from: &Vec<ObjectId>, to: &Vec<ObjectId>, id: ObjectId) -> (image: ObjectId)
    requires
        increasing(from@),
        from.len() == to.len(),
    ensures
        image == apply(table_map(from@, to@), id),
{
    match find_id(from, id) {
        Some(i) => to[i],
        None => id,
    }
}

/// A copy of `o` in which every reference has gone through the table.
pub fn rewrite_object(o: &Object, from: &Vec<ObjectId>, to: &Vec<ObjectId>) -> (r: Object)
    requires
        increasing(from@),
        from.len() == to.len(),
    ensures
        r@ == rewrite(o@, table_map(from@, to@)),
    decreases o,
{
    let ghost m = table_map(from@, to@);
    match o {
        Object::Null => Object::Null,
        Object::Boolean(b) => Object::Boolean(*b),
        Object::Integer(i) => Object::Integer(*i),
        Object::Real(x) => Object::Real(*x),
        Object::String(s) => Object::String(bytes_copy(s.as_slice())),
        Object::Name(n) => Object::Name(bytes_copy(n.as_slice())),
        Object::Array(v) => {
            let mut items: Vec<Object> = Vec::new();
            let mut i: usize = 0;
            while i < v.len()
                invariant
                    i <= v.len(),
                    items.len() == i,
                    increasing(from@),
                    from.len() == to.len(),
                    m == table_map(from@, to@),
                    o matches Object::Array(w) && w == v,
                    forall|j: int| 0 <= j < i ==> (#[trigger] items@[j])@ == rewrite(v@[j]@, m),
                decreases v.len() - i,
            {
                let item = rewrite_object(&v[i], from, to);
                items.push(item);
                i += 1;
            }
            let r = Object::Array(items);
            assert(r@->Array_0 =~= rewrite(o@, m)->Array_0);
            r
        },
        Object::Dictionary(d) => Object::Dictionary(rewrite_dictionary(d, from, to)),
        Object::Stream(s) => Object::Stream(
            Stream::new(rewrite_dictionary(&s.dict, from, to), bytes_copy(s.content.as_slice())),
        ),
        Object::Reference(id) => Object::Reference(lookup(from, to, *id)),
    }
}

/// A copy of `d` in which every reference has gone through the table.
pub fn rewrite_dictionary(d: &Dictionary, from: &Vec<ObjectId>, to: &Vec<ObjectId>) -> (r:
    Dictionary)
    requires
        increasing(from@),
        from.len() == to.len(),
    ensures
        r@ == rewrite_dict(d@, table_map(from@, to@)),
    decreases d,
{
    let ghost m = table_map(from@, to@);
    let mut r = Dictionary::new();
    let n = d.len();
    let mut i: usize = 0;
    while i < n
        invariant
            i <= n,
            n == d@.len(),
            increasing(from@),
            from.len() == to.len(),
            m == table_map(from@, to@),
            r@.len() == i,
            forall|j: int| 0 <= j < i ==> #[trigger] r@[j] == (d@[j].0, rewrite(d@[j].1, m)),
        decreases n - i,
    {
        let key = bytes_copy(d.key_at(i).as_slice());
        let value = rewrite_object(d.value_at(i), from, to);
        r.push_entry(key, value);
        i += 1;
    }
    assert(r@ =~= rewrite_dict(d@, m));
    r
}

/// The identifier that renumbering from `start` gives to `id`.
pub fn shift_id(id: ObjectId, start: u32) -> (moved: ObjectId)
    requires
        id.number >= 1,
        id.number - 1 + start <= u32::MAX,
    ensures
        moved == shift(id, start),
{
    ObjectId { number: id.number - 1 + start, generation: 0 }
}

/// The table of a renumbering is its mapping.
pub proof fn lemma_shift_table(from: Seq<ObjectId>, to: Seq<ObjectId>, start: u32)
    requires
        from.len() == to.len(),
        forall|i: int| 0 <= i < from.len() ==> #[trigger] to[i] == shift(from[i], start),
    ensures
        table_map(from, to) == shift_map(from, start),
{
    assert forall|id: ObjectId| has_id(from, id) implies to[index_of_id(from, id)] == shift(
        id,
        start,
    ) by {
        let i = index_of_id(from, id);
        assert(from[i] == id);
    }
    assert(table_map(from, to) =~= shift_map(from, start));
}

/// The table of a compaction is its mapping.
pub proof fn lemma_dense_table(from: Seq<ObjectId>, to: Seq<ObjectId>)
    requires
        from.len() == to.len(),
        forall|i: int| 0 <= i < from.len() ==> #[trigger] to[i] == dense_id(i),
    ensures
        table_map(from, to) == dense_map(from),
{
    assert forall|id: ObjectId| has_id(from, id) implies to[index_of_id(from, id)] == dense_id(
        index_of_id(from, id),
    ) by {
        let i = index_of_id(from, id);
        assert(from[i] == id);
    }
    assert(table_map(from, to) =~= dense_map(from));
}

/// Rewriting leaves the keys of a dictionary where they are: a key reads
/// back what it held before, rewritten.
pub proof fn lemma_rewrite_get(d: DictView, m: IdMap, key: Seq<u8>)
    ensures
        dict_has(rewrite_dict(d, m), key) == dict_has(d, key),
        dict_get(rewrite_dict(d, m), key) == match dict_get(d, key) {
            Some(value) => Some(rewrite(value, m)),
            None => None,
        },
{
    let r = rewrite_dict(d, m);
    if dict_has(d, key) {
        let i = dict_index(d, key);
        assert(is_first_at(d, key, i));
        assert forall|j: int| 0 <= j < i implies (#[trigger] r[j]).0 != key by {
            assert(d[j].0 != key);
        }
        assert(is_first_at(r, key, i));
        lemma_first_is_index(r, key, i);
    } else {
        if dict_has(r, key) {
            let i = dict_index(r, key);
            assert(is_first_at(r, key, i));
            assert(d[i].0 == key);
            lemma_has_from_any(d, key, i);
        }
    }
}

/// Rewriting changes references and nothing else: an object keeps its role.
pub proof fn lemma_rewrite_keeps_role(o: ObjectView, m: IdMap)
    ensures
        role_of(rewrite(o, m)) == role_of(o),
        rewrite(o, m) is Dictionary == o is Dictionary,
{
    match o {
        ObjectView::Dictionary(d) => {
            lemma_rewrite_get(d, m, name_type());
        },
        _ => {},
    }
}

/// Renumbering keeps a document well formed and puts its numbers into the
/// range from `start` up to, and not including, the next start. The numbers
/// keep their order, so no two objects get the same identifier.
pub proof fn lemma_renumbered_wf(d: DocumentView, start: u32)
    requires
        d.wf(),
        start >= 1,
        next_start(d, start) <= u32::MAX,
    ensures
        renumbered(d, start).wf(),
        renumbered(d, start).objects.len() == d.objects.len(),
        forall|i: int|
            0 <= i < d.objects.len() ==> start <= (#[trigger] renumbered(
                d,
                start,
            ).objects[i]).0.number < next_start(d, start),
        forall|i: int, j: int|
            0 <= i < j < d.objects.len() ==> (#[trigger] renumbered(d, start).objects[i]).0 != (
            #[trigger] renumbered(d, start).objects[j]).0,
{
    let r = renumbered(d, start);
    lemma_highest_bounds(d.ids());
    assert forall|i: int| 0 <= i < d.objects.len() implies start <= (#[trigger] r.objects[i]).0.number
        < next_start(d, start) && r.objects[i].0.number == d.objects[i].0.number - 1 + start by {
        assert(1 <= d.ids()[i].number <= highest(d.ids()));
    }
    assert forall|i: int, j: int| 0 <= i < j < r.ids().len() implies (#[trigger] r.ids()[i]).number
        < (#[trigger] r.ids()[j]).number by {
        assert(d.ids()[i].number < d.ids()[j].number);
        assert(r.ids()[i] == r.objects[i].0);
        assert(r.ids()[j] == r.objects[j].0);
    }
    assert forall|i: int| 0 <= i < r.ids().len() implies 1 <= (#[trigger] r.ids()[i]).number
        <= r.max_id by {
        assert(r.ids()[i] == r.objects[i].0);
    }
    assert forall|i: int, j: int| 0 <= i < j < d.objects.len() implies (#[trigger] r.objects[i]).0
        != (#[trigger] r.objects[j]).0 by {
        assert(r.ids()[i].number < r.ids()[j].number);
    }
}

/// Compaction keeps a document well formed and gives its objects exactly the
/// numbers `1..=N`, each once, with generation zero.
pub proof fn lemma_compacted_wf(d: DocumentView)
    requires
        d.wf(),
    ensures
        compacted(d).wf(),
        compacted(d).objects.len() == d.objects.len(),
        compacted(d).max_id == d.objects.len(),
        forall|i: int|
            0 <= i < d.objects.len() ==> (#[trigger] compacted(d).objects[i]).0 == (ObjectId {
                number: (i + 1) as u32,
                generation: 0,
            }) && i + 1 <= u32::MAX,
{
    let c = compacted(d);
    assert(d.objects.len() <= u32::MAX) by {
        if d.objects.len() > 0 {
            lemma_number_at_least_position(d.ids(), d.max_id, d.objects.len() - 1);
        }
    }
    assert forall|i: int| 0 <= i < c.ids().len() implies 1 <= (#[trigger] c.ids()[i]).number
        <= c.max_id by {
        assert(c.ids()[i] == c.objects[i].0);
    }
    assert forall|i: int, j: int| 0 <= i < j < c.ids().len() implies (#[trigger] c.ids()[i]).number
        < (#[trigger] c.ids()[j]).number by {
        assert(c.ids()[i] == c.objects[i].0);
        assert(c.ids()[j] == c.objects[j].0);
    }
}

/// The objects of `doc` renumbered from `start`: the new identifiers, and
/// beside them the objects with their references rewritten.
pub fn renumbered_objects(doc: &Document, start: u32) -> (parts: (Vec<ObjectId>, Vec<Object>))
    requires
        doc.wf(),
        start >= 1,
        next_start(doc@, start) <= u32::MAX,
    ensures
        parts.0.len() == parts.1.len(),
        parts.0@ == renumbered(doc@, start).ids(),
        zip_view(parts.0@, parts.1@) == renumbered(doc@, start).objects,
        table_map(doc@.ids(), parts.0@) == shift_map(doc@.ids(), start),
{
    let ghost before = doc@;
    let ghost m = shift_map(before.ids(), start);
    let n = doc.len();
    let mut to: Vec<ObjectId> = Vec::new();
    let mut i: usize = 0;
    proof {
        lemma_highest_bounds(before.ids());
    }
    while i < n
        invariant
            i <= n,
            n == before.objects.len(),
            doc.wf(),
            doc@ == before,
            to.len() == i,
            start >= 1,
            start + highest(before.ids()) <= u32::MAX,
            forall|j: int|
                0 <= j < before.ids().len() ==> (#[trigger] before.ids()[j]).number <= highest(
                    before.ids(),
                ),
            forall|j: int| 0 <= j < i ==> #[trigger] to@[j] == shift(before.ids()[j], start),
        decreases n - i,
    {
        let id = doc.id_at(i);
        assert(id == before.ids()[i as int]);
        to.push(shift_id(id, start));
        i += 1;
    }
    proof {
        lemma_shift_table(before.ids(), to@, start);
    }
    let mut objects: Vec<Object> = Vec::new();
    let mut k: usize = 0;
    while k < n
        invariant
            k <= n,
            n == before.objects.len(),
            doc.wf(),
            doc@ == before,
            to.len() == n,
            objects.len() == k,
            table_map(before.ids(), to@) == m,
            forall|j: int| 0 <= j < k ==> (#[trigger] objects@[j])@ == rewrite(
                before.objects[j].1,
                m,
            ),
        decreases n - k,
    {
        let rewritten = rewrite_object(doc.object_at(k), doc.ids(), &to);
        objects.push(rewritten);
        k += 1;
    }
    proof {
        assert(to@ =~= renumbered(before, start).ids());
        assert(zip_view(to@, objects@) =~= renumbered(before, start).objects);
    }
    (to, objects)
}

impl Document {
    /// Moves the identifiers into the range that begins at `start`: the
    /// number `n` becomes `n - 1 + start`, every generation becomes zero, and
    /// every reference to an object of this document, in the objects and in
    /// the trailer, follows. Returns the start for the next document: one
    /// past the highest new number.
    pub fn renumber(&mut self, start: u32) -> (next: u32)
        requires
            old(self).wf(),
            start >= 1,
            next_start(old(self)@, start) <= u32::MAX,
        ensures
            final(self).wf(),
            final(self)@ == renumbered(old(self)@, start),
            next == next_start(old(self)@, start),
    {
        let ghost before = self@;
        let top = self.highest_number();
        let (to, objects) = renumbered_objects(self, start);
        let trailer = rewrite_dictionary(self.trailer(), self.ids(), &to);
        let next = start + top;
        proof {
            lemma_renumbered_wf(before, start);
        }
        let renewed = Document::from_parts(trailer, to, objects, next - 1);
        *self = renewed;
        next
    }

    /// Compacts the document: the objects keep their order and get the
    /// identifiers `(1, 0)` to `(N, 0)`, every reference to one of them, in
    /// the objects and in the trailer, follows, and the counter becomes `N`.
    /// Every object present is kept, whether or not anything refers to it.
    pub fn compact(&mut self)
        requires
            old(self).wf(),
        ensures
            final(self).wf(),
            final(self)@ == compacted(old(self)@),
    {
        let ghost before = self@;
        let ghost m = dense_map(before.ids());
        let n = self.len();
        proof {
            lemma_compacted_wf(before);
        }
        let mut to: Vec<ObjectId> = Vec::new();
        let mut i: usize = 0;
        while i < n
            invariant
                i <= n,
                n == before.objects.len(),
                n <= u32::MAX,
                to.len() == i,
                forall|j: int| 0 <= j < i ==> #[trigger] to@[j] == dense_id(j),
            decreases n - i,
        {
            let number: u32 = (i + 1) as u32;
            to.push(ObjectId { number, generation: 0 });
            i += 1;
        }
        proof {
            lemma_dense_table(before.ids(), to@);
        }
        let mut objects: Vec<Object> = Vec::new();
        let mut k: usize = 0;
        while k < n
            invariant
                k <= n,
                n == before.objects.len(),
                self.wf(),
                self@ == before,
                to.len() == n,
                objects.len() == k,
                table_map(before.ids(), to@) == m,
                forall|j: int| 0 <= j < k ==> (#[trigger] objects@[j])@ == rewrite(
                    before.objects[j].1,
                    m,
                ),
            decreases n - k,
        {
            let rewritten = rewrite_object(self.object_at(k), self.ids(), &to);
            objects.push(rewritten);
            k += 1;
        }
        let trailer = rewrite_dictionary(self.trailer(), self.ids(), &to);
        proof {
            assert(to@ =~= compacted(before).ids());
        }
        let renewed = Document::from_parts(trailer, to, objects, n as u32);
        assert(renewed@.objects =~= compacted(before).objects);
        *self = renewed;
    }
}

} // verus!
