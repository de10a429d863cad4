//! The objects of a PDF document and their mathematical model.
//!
//! An [`Object`] is a closed sum: scalars, byte strings, names, arrays,
//! dictionaries, streams and references to other objects. Contracts speak of
//! its view, an [`ObjectView`], in which every vector is a sequence.

use crate::names::{name_catalog, name_outline, name_outlines, name_page, name_pages, name_type};
use vstd::prelude::*;

verus! {

/// The identifier of an indirect object: its number and its generation.
#[derive(Clone, Copy, Debug, PartialEq, Eq, Structural, Hash)]
pub struct ObjectId {
    pub number: u32,
    pub generation: u16,
}

impl ObjectId {
    /// The identifier with this number and generation.
    pub fn new(number: u32, generation: u16) -> (id: ObjectId)
        ensures
            id == (ObjectId { number, generation }),
    {
        ObjectId { number, generation }
    }
}

/// The structural role that an object plays in a document.
#[derive(Clone, Copy, Debug, PartialEq, Eq, Structural)]
pub enum Role {
    /// The root dictionary of a document.
    Catalog,
    /// A node of the page tree.
    Pages,
    /// A leaf page.
    Page,
    /// The root of the bookmark panel.
    Outlines,
    /// One bookmark.
    Outline,
    /// Anything else.
    Other,
}

/// A PDF object.
///
/// A real number is kept as the bit pattern of its single-precision value: the
/// merge never computes with it.
#[derive(Debug, PartialEq, Eq)]
pub enum Object {
    Null,
    Boolean(bool),
    Integer(i64),
    Real(u32),
    String(Vec<u8>),
    Name(Vec<u8>),
    Array(Vec<Object>),
    Dictionary(Dictionary),
    Stream(Stream),
    Reference(ObjectId),
}

/// An ordered mapping from names to objects.
///
/// Entries keep the order in which their keys were first set.
#[derive(Debug, PartialEq, Eq)]
pub struct Dictionary {
    entries: Vec<(Vec<u8>, Object)>,
}

/// A dictionary with a byte stream attached.
#[derive(Debug, PartialEq, Eq)]
pub struct Stream {
    pub dict: Dictionary,
    pub content: Vec<u8>,
}

/// The model of a dictionary: its entries in order, each a key and a value.
pub type DictView = Seq<(Seq<u8>, ObjectView)>;

/// The model of an [`Object`].
pub enum ObjectView {
    Null,
    Boolean(bool),
    Integer(i64),
    Real(u32),
    String(Seq<u8>),
    Name(Seq<u8>),
    Array(Seq<ObjectView>),
    Dictionary(DictView),
    Stream(DictView, Seq<u8>),
    Reference(ObjectId),
}

/// The model of an object, variant by variant.
pub open spec fn object_view(o: Object) -> ObjectView
    decreases o,
{
    match o {
        Object::Null => ObjectView::Null,
        Object::Boolean(b) => ObjectView::Boolean(b),
        Object::Integer(i) => ObjectView::Integer(i),
        Object::Real(r) => ObjectView::Real(r),
        Object::String(s) => ObjectView::String(s@),
        Object::Name(n) => ObjectView::Name(n@),
        Object::Array(v) => ObjectView::Array(
            Seq::new(
                v@.len(),
                |i: int|
                    if 0 <= i < v@.len() {
                        object_view(v@[i])
                    } else {
                        ObjectView::Null
                    },
            ),
        ),
        Object::Dictionary(d) => ObjectView::Dictionary(dict_model(d)),
        Object::Stream(s) => ObjectView::Stream(dict_model(s.dict), s.content@),
        Object::Reference(id) => ObjectView::Reference(id),
    }
}

/// The model of a dictionary: the models of its entries, in order.
pub closed spec fn dict_model(d: Dictionary) -> DictView
    decreases d,
{
    Seq::new(
        d.entries@.len(),
        |i: int|
            if 0 <= i < d.entries@.len() {
                (d.entries@[i].0@, object_view(d.entries@[i].1))
            } else {
                (Seq::empty(), ObjectView::Null)
            },
    )
}

impl View for Object {
    type V = ObjectView;

    open spec fn view(&self) -> ObjectView {
        object_view(*self)
    }
}

impl View for Dictionary {
    type V = DictView;

    open spec fn view(&self) -> DictView {
        dict_model(*self)
    }
}

/// `i` is the first position of `d` whose key is `key`.
pub open spec fn is_first_at(d: DictView, key: Seq<u8>, i: int) -> bool {
    &&& 0 <= i < d.len()
    &&& d[i].0 == key
    &&& forall|j: int| 0 <= j < i ==> (#[trigger] d[j]).0 != key
}

/// Some entry of `d` has the key `key`.
pub open spec fn dict_has(d: DictView, key: Seq<u8>) -> bool {
    exists|i: int| is_first_at(d, key, i)
}

/// The first position of `d` whose key is `key`, where there is one.
pub open spec fn dict_index(d: DictView, key: Seq<u8>) -> int {
    choose|i: int| is_first_at(d, key, i)
}

/// The value that `d` gives to `key`.
pub open spec fn dict_get(d: DictView, key: Seq<u8>) -> Option<ObjectView> {
    if dict_has(d, key) {
        Some(d[dict_index(d, key)].1)
    } else {
        None
    }
}

/// `d` with `key` set to `value`: in place where the key is present, at the
/// end where it is not.
pub open spec fn dict_set(d: DictView, key: Seq<u8>, value: ObjectView) -> DictView {
    if dict_has(d, key) {
        d.update(dict_index(d, key), (key, value))
    } else {
        d.push((key, value))
    }
}

/// `d` without its first entry for `key`.
pub open spec fn dict_remove(d: DictView, key: Seq<u8>) -> DictView {
    if dict_has(d, key) {
        d.remove(dict_index(d, key))
    } else {
        d
    }
}

/// No key occurs twice in `d`.
pub open spec fn distinct_keys(d: DictView) -> bool {
    forall|i: int, j: int| 0 <= i < j < d.len() ==> (#[trigger] d[i]).0 != (#[trigger] d[j]).0
}

/// The role that a `Type` name stands for.
pub open spec fn role_of_name(n: Seq<u8>) -> Role {
    if n == name_catalog() {
        Role::Catalog
    } else if n == name_pages() {
        Role::Pages
    } else if n == name_page() {
        Role::Page
    } else if n == name_outlines() {
        Role::Outlines
    } else if n == name_outline() {
        Role::Outline
    } else {
        Role::Other
    }
}

/// The role of a dictionary: what its `Type` entry names.
pub open spec fn role_of_dict(d: DictView) -> Role {
    match dict_get(d, name_type()) {
        Some(ObjectView::Name(n)) => role_of_name(n),
        _ => Role::Other,
    }
}

/// The role of an object. Only a dictionary has a role other than
/// [`Role::Other`].
pub open spec fn role_of(o: ObjectView) -> Role {
    match o {
        ObjectView::Dictionary(d) => role_of_dict(d),
        _ => Role::Other,
    }
}

/// The first position is determined: whoever finds one has found
/// [`dict_index`].
pub proof fn lemma_first_is_index(d: DictView, key: Seq<u8>, i: int)
    requires
        is_first_at(d, key, i),
    ensures
        dict_has(d, key),
        dict_index(d, key) == i,
{
    let c = dict_index(d, key);
    assert(is_first_at(d, key, c));
    if c < i {
        assert(d[c].0 != key);
    }
    if i < c {
        assert(d[i].0 != key);
    }
}

/// A key that no entry carries is absent.
pub proof fn lemma_no_entry_is_absent(d: DictView, key: Seq<u8>)
    requires
        forall|j: int| 0 <= j < d.len() ==> (#[trigger] d[j]).0 != key,
    ensures
        !dict_has(d, key),
        dict_get(d, key) is None,
{
}

/// A key reads back the value it was set to.
pub proof fn lemma_get_set_same(d: DictView, key: Seq<u8>, value: ObjectView)
    ensures
        dict_get(dict_set(d, key, value), key) == Some(value),
{
    let s = dict_set(d, key, value);
    if dict_has(d, key) {
        let i = dict_index(d, key);
        assert(is_first_at(d, key, i));
        assert forall|j: int| 0 <= j < i implies (#[trigger] s[j]).0 != key by {
            assert(d[j].0 != key);
        }
        assert(is_first_at(s, key, i));
        lemma_first_is_index(s, key, i);
    } else {
        let i = d.len() as int;
        assert forall|j: int| 0 <= j < i implies (#[trigger] s[j]).0 != key by {
            if d[j].0 == key {
                lemma_has_from_any(d, key, j);
            }
        }
        assert(is_first_at(s, key, i));
        lemma_first_is_index(s, key, i);
    }
}

/// Any entry with the key shows that the key is present.
pub proof fn lemma_has_from_any(d: DictView, key: Seq<u8>, j: int)
    requires
        0 <= j < d.len(),
        d[j].0 == key,
    ensures
        dict_has(d, key),
        0 <= dict_index(d, key) <= j,
    decreases j,
{
    if forall|k: int| 0 <= k < j ==> (#[trigger] d[k]).0 != key {
        assert(is_first_at(d, key, j));
        lemma_first_is_index(d, key, j);
    } else {
        let k = choose|k: int| 0 <= k < j && (#[trigger] d[k]).0 == key;
        lemma_has_from_any(d, key, k);
    }
}

/// Setting one key leaves the value of every other key as it was.
pub proof fn lemma_get_set_other(d: DictView, key: Seq<u8>, value: ObjectView, other: Seq<u8>)
    requires
        other != key,
    ensures
        dict_get(dict_set(d, key, value), other) == dict_get(d, other),
        dict_has(dict_set(d, key, value), other) == dict_has(d, other),
{
    let s = dict_set(d, key, value);
    if dict_has(d, other) {
        let i = dict_index(d, other);
        assert(is_first_at(d, other, i));
        assert forall|j: int| 0 <= j < i implies (#[trigger] s[j]).0 != other by {
            assert(d[j].0 != other);
        }
        assert(is_first_at(s, other, i));
        lemma_first_is_index(s, other, i);
    } else {
        if dict_has(s, other) {
            let i = dict_index(s, other);
            assert(is_first_at(s, other, i));
            assert(i < d.len());
            assert(d[i].0 == other);
            lemma_has_from_any(d, other, i);
        }
    }
}

/// Removing one key leaves the value of every other key as it was.
pub proof fn lemma_get_remove_other(d: DictView, key: Seq<u8>, other: Seq<u8>)
    requires
        other != key,
    ensures
        dict_get(dict_remove(d, key), other) == dict_get(d, other),
        dict_has(dict_remove(d, key), other) == dict_has(d, other),
{
    let s = dict_remove(d, key);
    if dict_has(d, key) {
        let r = dict_index(d, key);
        assert(is_first_at(d, key, r));
        if dict_has(d, other) {
            let i = dict_index(d, other);
            assert(is_first_at(d, other, i));
            let i2 = if i < r { i } else { i - 1 };
            assert forall|j: int| 0 <= j < i2 implies (#[trigger] s[j]).0 != other by {
                if j < r {
                    assert(d[j].0 != other);
                } else {
                    assert(d[j + 1].0 != other);
                }
            }
            assert(is_first_at(s, other, i2));
            lemma_first_is_index(s, other, i2);
        } else {
            if dict_has(s, other) {
                let i = dict_index(s, other);
                assert(is_first_at(s, other, i));
                let i0 = if i < r { i } else { i + 1 };
                assert(d[i0].0 == other);
                lemma_has_from_any(d, other, i0);
            }
        }
    }
}

/// Where no key occurs twice, a removed key is gone.
pub proof fn lemma_removed_is_absent(d: DictView, key: Seq<u8>)
    requires
        distinct_keys(d),
    ensures
        !dict_has(dict_remove(d, key), key),
        distinct_keys(dict_remove(d, key)),
{
    let s = dict_remove(d, key);
    if dict_has(d, key) {
        let r = dict_index(d, key);
        assert(is_first_at(d, key, r));
        assert forall|j: int| 0 <= j < s.len() implies (#[trigger] s[j]).0 != key by {
            let j0 = if j < r { j } else { j + 1 };
            assert(s[j] == d[j0]);
            if j0 < r {
                assert(d[j0].0 != d[r].0);
            } else {
                assert(d[r].0 != d[j0].0);
            }
        }
        lemma_no_entry_is_absent(s, key);
        assert forall|i: int, j: int| 0 <= i < j < s.len() implies (#[trigger] s[i]).0 != (
        #[trigger] s[j]).0 by {
            let i0 = if i < r { i } else { i + 1 };
            let j0 = if j < r { j } else { j + 1 };
            assert(d[i0].0 != d[j0].0);
        }
    }
}

/// Setting a key keeps the keys distinct.
pub proof fn lemma_set_keeps_distinct(d: DictView, key: Seq<u8>, value: ObjectView)
    requires
        distinct_keys(d),
    ensures
        distinct_keys(dict_set(d, key, value)),
{
    let s = dict_set(d, key, value);
    if dict_has(d, key) {
        let r = dict_index(d, key);
        assert(is_first_at(d, key, r));
        assert forall|i: int, j: int| 0 <= i < j < s.len() implies (#[trigger] s[i]).0 != (
        #[trigger] s[j]).0 by {
            assert(d[i].0 != d[j].0);
        }
    } else {
        assert forall|i: int, j: int| 0 <= i < j < s.len() implies (#[trigger] s[i]).0 != (
        #[trigger] s[j]).0 by {
            if j < d.len() {
                assert(d[i].0 != d[j].0);
            } else {
                if d[i].0 == key {
                    lemma_has_from_any(d, key, i);
                }
            }
        }
    }
}

/// Whether two byte strings are equal.
pub fn bytes_eq(a: &[u8], b: &[u8]) -> (same: bool)
    ensures
        same == (a@ == b@),
{
    if a.len() != b.len() {
        return false;
    }
    let mut i: usize = 0;
    while i < a.len()
        invariant
            i <= a.len(),
            a.len() == b.len(),
            forall|j: int| 0 <= j < i ==> a@[j] == b@[j],
        decreases a.len() - i,
    {
        if a[i] != b[i] {
            return false;
        }
        i += 1;
    }
    assert(a@ =~= b@);
    true
}

/// A copy of a byte string.
pub fn bytes_copy(a: &[u8]) -> (copy: Vec<u8>)
    ensures
        copy@ == a@,
{
    let mut copy: Vec<u8> = Vec::new();
    let mut i: usize = 0;
    while i < a.len()
        invariant
            i <= a.len(),
            copy@ == a@.subrange(0, i as int),
        decreases a.len() - i,
    {
        copy.push(a[i]);
        i += 1;
        assert(copy@ =~= a@.subrange(0, i as int));
    }
    assert(a@.subrange(0, a.len() as int) =~= a@);
    copy
}

impl Dictionary {
    /// No key occurs twice. The empty dictionary is well formed, and
    /// [`Dictionary::set`] and [`Dictionary::remove`] keep a dictionary so.
    pub open spec fn wf(&self) -> bool {
        distinct_keys(self@)
    }

    /// The empty dictionary.
    pub fn new() -> (d: Dictionary)
        ensures
            d@ == Seq::<(Seq<u8>, ObjectView)>::empty(),
            d.wf(),
    {
        let d = Dictionary { entries: Vec::new() };
        assert(d@ =~= Seq::<(Seq<u8>, ObjectView)>::empty());
        d
    }

    /// The number of entries.
    pub fn len(&self) -> (n: usize)
        ensures
            n == self@.len(),
    {
        self.entries.len()
    }

    /// The key of the entry at position `i`.
    pub fn key_at(&self, i: usize) -> (key: &Vec<u8>)
        requires
            i < self@.len(),
        ensures
            key@ == self@[i as int].0,
    {
        &self.entries[i].0
    }

    /// The value of the entry at position `i`.
    pub fn value_at(&self, i: usize) -> (value: &Object)
        requires
            i < self@.len(),
        ensures
            value@ == self@[i as int].1,
            decreases_to!(*self => *value),
    {
        &self.entries[i].1
    }

    /// Adds an entry at the end, whatever keys are there.
    pub(crate) fn push_entry(&mut self, key: Vec<u8>, value: Object)
        ensures
            final(self)@ == old(self)@.push((key@, value@)),
    {
        let ghost before = self@;
        let ghost k = key@;
        let ghost v = value@;
        self.entries.push((key, value));
        assert(self@ =~= before.push((k, v)));
    }

    /// The first position whose key is `key`.
    pub fn position(&self, key: &[u8]) -> (found: Option<usize>)
        ensures
            match found {
                Some(i) => is_first_at(self@, key@, i as int) && dict_index(self@, key@) == i,
                None => !dict_has(self@, key@),
            },
            found is Some == dict_has(self@, key@),
    {
        let mut i: usize = 0;
        while i < self.entries.len()
            invariant
                i <= self.entries.len(),
                self.entries.len() == self@.len(),
                forall|j: int| 0 <= j < i ==> (#[trigger] self@[j]).0 != key@,
            decreases self.entries.len() - i,
        {
            if bytes_eq(self.entries[i].0.as_slice(), key) {
                proof {
                    lemma_first_is_index(self@, key@, i as int);
                }
                return Some(i);
            }
            i += 1;
        }
        proof {
            lemma_no_entry_is_absent(self@, key@);
        }
        None
    }

    /// The value of `key`, where the dictionary has one.
    pub fn get(&self, key: &[u8]) -> (value: Option<&Object>)
        ensures
            match value {
                Some(o) => dict_get(self@, key@) == Some(o@),
                None => dict_get(self@, key@) is None,
            },
    {
        match self.position(key) {
            Some(i) => Some(&self.entries[i].1),
            None => None,
        }
    }

    /// Whether the dictionary has an entry for `key`.
    pub fn has(&self, key: &[u8]) -> (present: bool)
        ensures
            present == dict_has(self@, key@),
    {
        self.position(key).is_some()
    }

    /// Sets `key` to `value`. A key that is present keeps its place; a new
    /// key goes to the end.
    pub fn set(&mut self, key: Vec<u8>, value: Object)
        ensures
            final(self)@ == dict_set(old(self)@, key@, value@),
            old(self).wf() ==> final(self).wf(),
    {
        let ghost before = self@;
        let ghost k = key@;
        let ghost v = value@;
        match self.position(key.as_slice()) {
            Some(i) => {
                self.entries.set(i, (key, value));
                assert(self@ =~= before.update(i as int, (k, v)));
            },
            None => {
                self.entries.push((key, value));
                assert(self@ =~= before.push((k, v)));
            },
        }
        proof {
            if distinct_keys(before) {
                lemma_set_keeps_distinct(before, k, v);
            }
        }
    }

    /// Removes the entry for `key`, if there is one, and says whether there
    /// was.
    pub fn remove(&mut self, key: &[u8]) -> (removed: bool)
        ensures
            final(self)@ == dict_remove(old(self)@, key@),
            removed == dict_has(old(self)@, key@),
            old(self).wf() ==> final(self).wf() && !dict_has(final(self)@, key@),
    {
        let ghost before = self@;
        proof {
            if distinct_keys(before) {
                lemma_removed_is_absent(before, key@);
            }
        }
        match self.position(key) {
            Some(i) => {
                let _ = self.entries.remove(i);
                assert(self@ =~= before.remove(i as int));
                true
            },
            None => false,
        }
    }

    /// The structural role that the `Type` entry gives this dictionary.
    pub fn role(&self) -> (role: Role)
        ensures
            role == role_of_dict(self@),
    {
        let key = crate::names::bytes_type();
        match self.get(key.as_slice()) {
            Some(Object::Name(n)) => role_from_name(n.as_slice()),
            _ => Role::Other,
        }
    }

    /// A copy of this dictionary, nested objects included.
    pub fn duplicate(&self) -> (copy: Dictionary)
        ensures
            copy@ == self@,
        decreases self,
    {
        let mut entries: Vec<(Vec<u8>, Object)> = Vec::new();
        let mut i: usize = 0;
        while i < self.entries.len()
            invariant
                i <= self.entries.len(),
                entries.len() == i,
                forall|j: int|
                    0 <= j < i ==> (#[trigger] entries@[j]).0@ == self.entries@[j].0@
                        && object_view(entries@[j].1) == object_view(self.entries@[j].1),
            decreases self.entries.len() - i,
        {
            let key = bytes_copy(self.entries[i].0.as_slice());
            let value = self.entries[i].1.duplicate();
            entries.push((key, value));
            i += 1;
        }
        let copy = Dictionary { entries };
        assert(copy@ =~= self@);
        copy
    }
}

/// The role that a `Type` name stands for.
pub fn role_from_name(n: &[u8]) -> (role: Role)
    ensures
        role == role_of_name(n@),
{
    let catalog = crate::names::bytes_catalog();
    let pages = crate::names::bytes_pages();
    let page = crate::names::bytes_page();
    let outlines = crate::names::bytes_outlines();
    let outline = crate::names::bytes_outline();
    if bytes_eq(n, catalog.as_slice()) {
        Role::Catalog
    } else if bytes_eq(n, pages.as_slice()) {
        Role::Pages
    } else if bytes_eq(n, page.as_slice()) {
        Role::Page
    } else if bytes_eq(n, outlines.as_slice()) {
        Role::Outlines
    } else if bytes_eq(n, outline.as_slice()) {
        Role::Outline
    } else {
        Role::Other
    }
}

impl Stream {
    /// The stream with this dictionary and this content.
    pub fn new(dict: Dictionary, content: Vec<u8>) -> (s: Stream)
        ensures
            s.dict == dict,
            s.content == content,
    {
        Stream { dict, content }
    }
}

impl Object {
    /// The structural role of this object.
    pub fn role(&self) -> (role: Role)
        ensures
            role == role_of(self@),
    {
        match self {
            Object::Dictionary(d) => d.role(),
            _ => Role::Other,
        }
    }

    /// The dictionary that this object is, if it is one.
    pub fn as_dict(&self) -> (dict: Option<&Dictionary>)
        ensures
            match dict {
                Some(d) => self@ == ObjectView::Dictionary(d@),
                None => !(self@ is Dictionary),
            },
    {
        match self {
            Object::Dictionary(d) => Some(d),
            _ => None,
        }
    }

    /// The array that this object is, if it is one.
    pub fn as_array(&self) -> (items: Option<&Vec<Object>>)
        ensures
            match items {
                Some(v) => self@ == ObjectView::Array(array_view(v@)),
                None => !(self@ is Array),
            },
    {
        match self {
            Object::Array(v) => {
                assert(self@->Array_0 =~= array_view(v@));
                Some(v)
            },
            _ => None,
        }
    }

    /// The identifier that this object refers to, if it is a reference.
    pub fn as_reference(&self) -> (target: Option<ObjectId>)
        ensures
            match target {
                Some(id) => self@ == ObjectView::Reference(id),
                None => !(self@ is Reference),
            },
    {
        match self {
            Object::Reference(id) => Some(*id),
            _ => None,
        }
    }

    /// A copy of this object, nested objects included.
    pub fn duplicate(&self) -> (copy: Object)
        ensures
            copy@ == self@,
        decreases self,
    {
        match self {
            Object::Null => Object::Null,
            Object::Boolean(b) => Object::Boolean(*b),
            Object::Integer(i) => Object::Integer(*i),
            Object::Real(r) => Object::Real(*r),
            Object::String(s) => Object::String(bytes_copy(s.as_slice())),
            Object::Name(n) => Object::Name(bytes_copy(n.as_slice())),
            Object::Array(v) => {
                let mut items: Vec<Object> = Vec::new();
                let mut i: usize = 0;
                while i < v.len()
                    invariant
                        i <= v.len(),
                        items.len() == i,
                        self matches Object::Array(w) && w == v,
                        forall|j: int| 0 <= j < i ==> (#[trigger] items@[j])@ == v@[j]@,
                    decreases v.len() - i,
                {
                    let item = v[i].duplicate();
                    items.push(item);
                    i += 1;
                }
                let copy = Object::Array(items);
                assert(copy@->Array_0 =~= self@->Array_0);
                copy
            },
            Object::Dictionary(d) => Object::Dictionary(d.duplicate()),
            Object::Stream(s) => Object::Stream(
                Stream { dict: s.dict.duplicate(), content: bytes_copy(s.content.as_slice()) },
            ),
            Object::Reference(id) => Object::Reference(*id),
        }
    }
}

impl Clone for Object {
    fn clone(&self) -> (copy: Object)
        ensures
            copy@ == self@,
    {
        self.duplicate()
    }
}

impl Clone for Dictionary {
    fn clone(&self) -> (copy: Dictionary)
        ensures
            copy@ == self@,
    {
        self.duplicate()
    }
}

impl Clone for Stream {
    fn clone(&self) -> (copy: Stream)
        ensures
            copy.dict@ == self.dict@,
            copy.content@ == self.content@,
    {
        Stream { dict: self.dict.duplicate(), content: bytes_copy(self.content.as_slice()) }
    }
}

/// The models of a sequence of objects, in order.
pub open spec fn array_view(items: Seq<Object>) -> Seq<ObjectView> {
    Seq::new(items.len(), |i: int| items[i]@)
}

/// The model of an array object is the models of its items.
pub proof fn lemma_array_view(items: Vec<Object>)
    ensures
        Object::Array(items)@ == ObjectView::Array(array_view(items@)),
{
    assert(Object::Array(items)@->Array_0 =~= array_view(items@));
}

} // verus!
