//! The JSON value tree: a tagged union of null, booleans, numbers, strings,
//! arrays and objects, with list-backed containers.

use crate::error::Error;
use crate::linked_list::LinkedList;
use crate::number::{number_eq_full, Number, NumberView};
use vstd::prelude::*;

verus! {

broadcast use vstd::std_specs::vec::axiom_spec_len;

/// The mathematical content of one JSON value.
pub enum ValueView {
    Null,
    Boolean(bool),
    Number(NumberView),
    String(Seq<char>),
    Array(Seq<ValueView>),
    Object(Seq<(Seq<char>, ValueView)>),
}

/// Two value trees denote the same document: same shape, equal strings, and
/// numbers that denote the same decimal value.
pub open spec fn value_eq(a: ValueView, b: ValueView) -> bool
    decreases a,
{
    match (a, b) {
        (ValueView::Null, ValueView::Null) => true,
        (ValueView::Boolean(x), ValueView::Boolean(y)) => x == y,
        (ValueView::Number(x), ValueView::Number(y)) => number_eq_full(x, y),
        (ValueView::String(x), ValueView::String(y)) => x == y,
        (ValueView::Array(x), ValueView::Array(y)) => x.len() == y.len() && forall|i: int|
            0 <= i < x.len() ==> value_eq(#[trigger] x[i], #[trigger] y[i]),
        (ValueView::Object(x), ValueView::Object(y)) => x.len() == y.len() && forall|i: int|
            0 <= i < x.len() ==> (#[trigger] x[i]).0 == (#[trigger] y[i]).0 && value_eq(
                x[i].1,
                y[i].1,
            ),
        _ => false,
    }
}

/// Every number in the tree is well formed: its float literals spell
/// complete floating-point literals.
pub open spec fn view_wf(v: ValueView) -> bool
    decreases v,
{
    match v {
        ValueView::Null => true,
        ValueView::Boolean(_) => true,
        ValueView::Number(n) => n.wf(),
        ValueView::String(_) => true,
        ValueView::Array(s) => forall|i: int| 0 <= i < s.len() ==> view_wf(#[trigger] s[i]),
        ValueView::Object(s) => forall|i: int| 0 <= i < s.len() ==> view_wf((#[trigger] s[i]).1),
    }
}

/// There are 6 types of values that appear in JSON text:
///
/// 1. Null: null type
///
/// 2. Boolean: boolean type
///
/// 3. Number: numerical type
///
/// 4. String: string type
///
/// 5. Array: array type
///
/// 6. Object: object type
pub enum JsonValue {
    /// Null type.
    Null,
    /// Boolean type.
    Boolean(bool),
    /// Numerical type.
    Number(Number),
    /// String type.
    String(String),
    /// Array type.
    Array(Array),
    /// Object type.
    Object(Object),
}

/// An ordered sequence of JSON values, backed by the linked list.
pub struct Array {
    inner: LinkedList<JsonValue>,
    vw: Ghost<Seq<ValueView>>,
}

/// An ordered sequence of key–value pairs, backed by the linked list.
///
/// Keys are not deduplicated: inserting an existing key appends another
/// pair, and lookups return the first match in insertion order.
pub struct Object {
    inner: LinkedList<(String, JsonValue)>,
    vw: Ghost<Seq<(Seq<char>, ValueView)>>,
}

impl View for JsonValue {
    type V = ValueView;

    open spec fn view(&self) -> ValueView {
        match self {
            JsonValue::Null => ValueView::Null,
            JsonValue::Boolean(b) => ValueView::Boolean(*b),
            JsonValue::Number(n) => ValueView::Number(n@),
            JsonValue::String(s) => ValueView::String(s@),
            JsonValue::Array(a) => ValueView::Array(a@),
            JsonValue::Object(o) => ValueView::Object(o@),
        }
    }
}

impl View for Array {
    type V = Seq<ValueView>;

    closed spec fn view(&self) -> Seq<ValueView> {
        self.vw@
    }
}

impl View for Object {
    type V = Seq<(Seq<char>, ValueView)>;

    closed spec fn view(&self) -> Seq<(Seq<char>, ValueView)> {
        self.vw@
    }
}

impl Array {
    /// The list and the view tell the same story.
    #[verifier::type_invariant]
    closed spec fn inv(&self) -> bool {
        &&& self.inner.wf()
        &&& self.vw@.len() == self.inner@.len()
        &&& forall|i: int| 0 <= i < self.inner@.len() ==> (#[trigger] self.inner@[i])@ == self.vw@[i]
    }

    /// Creates an empty array.
    pub fn new() -> (r: Array)
        ensures
            r@ == Seq::<ValueView>::empty(),
    {
        Array { inner: LinkedList::new(), vw: Ghost(Seq::empty()) }
    }

    /// The number of elements.
    pub fn len(&self) -> (r: usize)
        ensures
            r == self@.len(),
    {
        proof {
            use_type_invariant(&*self);
        }
        self.inner.len()
    }

    /// Whether the array holds no element.
    pub fn is_empty(&self) -> (r: bool)
        ensures
            r == (self@.len() == 0),
    {
        proof {
            use_type_invariant(&*self);
        }
        self.inner.is_empty()
    }

    /// Appends a value at the end.
    pub fn push(&mut self, value: JsonValue)
        ensures
            final(self)@ == old(self)@.push(value@),
    {
        proof {
            use_type_invariant(&*self);
        }
        let ghost vv = value@;
        let mut tmp = Array::new();
        core::mem::swap(&mut tmp, self);
        let Array { inner: mut inner0, vw: Ghost(vw0) } = tmp;
        inner0.push_back(value);
        let next = Array { inner: inner0, vw: Ghost(vw0.push(vv)) };
        *self = next;
    }

    /// Pops the value at the end.
    pub fn pop(&mut self) -> (r: Option<JsonValue>)
        ensures
            match r {
                Some(v) => old(self)@.len() > 0 && v@ == old(self)@.last() && final(self)@ == old(
                    self,
                )@.drop_last(),
                None => old(self)@.len() == 0 && final(self)@ == old(self)@,
            },
    {
        proof {
            use_type_invariant(&*self);
        }
        let mut tmp = Array::new();
        core::mem::swap(&mut tmp, self);
        let Array { inner: mut inner0, vw: Ghost(vw0) } = tmp;
        let r = inner0.pop_back();
        let ghost vw1 = if vw0.len() == 0 {
            vw0
        } else {
            vw0.drop_last()
        };
        let next = Array { inner: inner0, vw: Ghost(vw1) };
        *self = next;
        r
    }

    /// Reads the element at a position.
    pub fn get(&self, index: usize) -> (r: Option<&JsonValue>)
        ensures
            match r {
                Some(v) => index < self@.len() && v@ == self@[index as int],
                None => index >= self@.len(),
            },
    {
        proof {
            use_type_invariant(&*self);
        }
        if index < self.inner.len() {
            Some(self.inner.get(index))
        } else {
            None
        }
    }

    /// Reads the last element.
    pub fn last(&self) -> (r: Option<&JsonValue>)
        ensures
            match r {
                Some(v) => self@.len() > 0 && v@ == self@.last(),
                None => self@.len() == 0,
            },
    {
        proof {
            use_type_invariant(&*self);
        }
        match self.inner.back() {
            Some(v) => Some(v),
            None => None,
        }
    }

    /// Removes the element at a position and hands it back; the elements
    /// after it move up one place.
    pub fn remove(&mut self, index: usize) -> (r: Option<JsonValue>)
        ensures
            match r {
                Some(v) => {
                    &&& index < old(self)@.len()
                    &&& v@ == old(self)@[index as int]
                    &&& final(self)@ == old(self)@.remove(index as int)
                },
                None => index >= old(self)@.len() && final(self)@ == old(self)@,
            },
    {
        proof {
            use_type_invariant(&*self);
        }
        let mut tmp = Array::new();
        core::mem::swap(&mut tmp, self);
        let Array { inner: mut inner0, vw: Ghost(vw0) } = tmp;
        let r = if index < inner0.len() {
            Some(inner0.remove(index))
        } else {
            None
        };
        let ghost vw1 = if index < vw0.len() {
            vw0.remove(index as int)
        } else {
            vw0
        };
        let next = Array { inner: inner0, vw: Ghost(vw1) };
        *self = next;
        r
    }

    /// The handle of the node at a position, usable for reads, replacement
    /// and removal at that exact node.
    pub fn get_node(&self, index: usize) -> (r: Option<usize>)
        ensures
            match r {
                Some(h) => index < self@.len() && self.node_position(h) == index && h
                    == self.node_handle_at(index as int),
                None => index >= self@.len(),
            },
    {
        proof {
            use_type_invariant(&*self);
        }
        let r = self.inner.get_node(index);
        proof {
            if r is Some {
                self.inner.lemma_handle_position(index);
            }
        }
        r
    }

    /// The handle standing at a position.
    pub closed spec fn node_handle_at(&self, i: int) -> usize {
        self.inner.slot_seq()[i]
    }

    /// The handle names a node of this array.
    pub closed spec fn valid_node(&self, handle: usize) -> bool {
        self.inner.slot_in_list(handle)
    }

    /// The position of the node a handle names.
    pub closed spec fn node_position(&self, handle: usize) -> int {
        self.inner.slot_position(handle)
    }

    /// Reads the element at a handle.
    pub fn node_value(&self, handle: usize) -> (r: &JsonValue)
        requires
            self.valid_node(handle),
        ensures
            0 <= self.node_position(handle) < self@.len(),
            r@ == self@[self.node_position(handle)],
    {
        proof {
            use_type_invariant(&*self);
            self.inner.lemma_slot_position(handle);
        }
        self.inner.node_element(handle)
    }

    /// Removes exactly the node a handle names and hands its element back.
    pub fn remove_node(&mut self, handle: usize) -> (r: JsonValue)
        requires
            old(self).valid_node(handle),
        ensures
            0 <= old(self).node_position(handle) < old(self)@.len(),
            r@ == old(self)@[old(self).node_position(handle)],
            final(self)@ == old(self)@.remove(old(self).node_position(handle)),
    {
        proof {
            use_type_invariant(&*self);
            self.inner.lemma_slot_position(handle);
        }
        let mut tmp = Array::new();
        core::mem::swap(&mut tmp, self);
        let Array { inner: mut inner0, vw: Ghost(vw0) } = tmp;
        let ghost k = inner0.slot_position(handle);
        let r = inner0.remove_node(handle);
        let next = Array { inner: inner0, vw: Ghost(vw0.remove(k)) };
        *self = next;
        r
    }

    /// Replaces the element at a position, handing the old element back;
    /// out of range, the array stays as it is and the new value is dropped.
    pub fn replace(&mut self, index: usize, value: JsonValue) -> (r: Option<JsonValue>)
        ensures
            match r {
                Some(v) => {
                    &&& index < old(self)@.len()
                    &&& v@ == old(self)@[index as int]
                    &&& final(self)@ == old(self)@.update(index as int, value@)
                },
                None => index >= old(self)@.len() && final(self)@ == old(self)@,
            },
    {
        proof {
            use_type_invariant(&*self);
        }
        let ghost vv = value@;
        let mut tmp = Array::new();
        core::mem::swap(&mut tmp, self);
        let Array { inner: mut inner0, vw: Ghost(vw0) } = tmp;
        let r = if index < inner0.len() {
            Some(inner0.replace(index, value))
        } else {
            None
        };
        let ghost vw1 = if index < vw0.len() {
            vw0.update(index as int, vv)
        } else {
            vw0
        };
        let next = Array { inner: inner0, vw: Ghost(vw1) };
        *self = next;
        r
    }

    /// Replaces the element at exactly the node a handle names, handing the
    /// old element back.  Every position is kept, and every handle — this
    /// one included — keeps naming the node it named.
    pub fn replace_node(&mut self, handle: usize, value: JsonValue) -> (r: JsonValue)
        requires
            old(self).valid_node(handle),
        ensures
            0 <= old(self).node_position(handle) < old(self)@.len(),
            r@ == old(self)@[old(self).node_position(handle)],
            final(self)@ == old(self)@.update(old(self).node_position(handle), value@),
            final(self).valid_node(handle),
            final(self).node_position(handle) == old(self).node_position(handle),
    {
        proof {
            use_type_invariant(&*self);
            self.inner.lemma_slot_position(handle);
        }
        let ghost vv = value@;
        let ghost k = self.inner.slot_position(handle);
        let mut tmp = Array::new();
        core::mem::swap(&mut tmp, self);
        let Array { inner: mut inner0, vw: Ghost(vw0) } = tmp;
        let r = inner0.replace_node(handle, value);
        proof {
            inner0.lemma_handle_position(k as usize);
        }
        let next = Array { inner: inner0, vw: Ghost(vw0.update(k, vv)) };
        *self = next;
        r
    }
}

/// Element-wise [`value_eq`] over two sequences of values.
pub open spec fn seq_value_eq(x: Seq<ValueView>, y: Seq<ValueView>) -> bool {
    x.len() == y.len() && forall|i: int|
        0 <= i < x.len() ==> value_eq(#[trigger] x[i], #[trigger] y[i])
}

/// Element-wise equality over two sequences of key–value pairs.
pub open spec fn seq_pair_eq(
    x: Seq<(Seq<char>, ValueView)>,
    y: Seq<(Seq<char>, ValueView)>,
) -> bool {
    x.len() == y.len() && forall|i: int|
        0 <= i < x.len() ==> (#[trigger] x[i]).0 == (#[trigger] y[i]).0 && value_eq(
            x[i].1,
            y[i].1,
        )
}

/// The position of the first pair that carries the key, or the length of the
/// sequence when no pair does.
pub open spec fn key_index(s: Seq<(Seq<char>, ValueView)>, key: Seq<char>) -> int
    decreases s.len(),
{
    if s.len() == 0 {
        0
    } else if s[0].0 == key {
        0
    } else {
        1 + key_index(s.skip(1), key)
    }
}

/// Some pair of the sequence carries the key.
pub open spec fn has_key(s: Seq<(Seq<char>, ValueView)>, key: Seq<char>) -> bool {
    key_index(s, key) < s.len()
}

/// `key_index` names the first match: no earlier pair carries the key, and
/// the pair there does when one exists at all.
pub proof fn lemma_key_index(s: Seq<(Seq<char>, ValueView)>, key: Seq<char>)
    ensures
        0 <= key_index(s, key) <= s.len(),
        forall|j: int| 0 <= j < key_index(s, key) ==> (#[trigger] s[j]).0 != key,
        key_index(s, key) < s.len() ==> s[key_index(s, key)].0 == key,
    decreases s.len(),
{
    if s.len() > 0 && s[0].0 != key {
        lemma_key_index(s.skip(1), key);
        assert forall|j: int| 0 <= j < key_index(s, key) implies (#[trigger] s[j]).0 != key by {
            if j > 0 {
                assert(s.skip(1)[j - 1] == s[j]);
            }
        }
        if key_index(s, key) < s.len() {
            assert(s.skip(1)[key_index(s, key) - 1] == s[key_index(s, key)]);
        }
    }
}

/// The first match is at `i` exactly when nothing before `i` matches and
/// `i` does.
pub proof fn lemma_key_index_is(s: Seq<(Seq<char>, ValueView)>, key: Seq<char>, i: int)
    requires
        0 <= i <= s.len(),
        forall|j: int| 0 <= j < i ==> (#[trigger] s[j]).0 != key,
        i < s.len() ==> s[i].0 == key,
    ensures
        i < s.len() ==> key_index(s, key) == i,
        i == s.len() ==> key_index(s, key) >= s.len(),
    decreases i,
{
    if i == 0 {
        if s.len() > 0 && s[0].0 != key {
            lemma_key_index(s.skip(1), key);
        }
    } else {
        assert(s[0].0 != key);
        assert forall|j: int| 0 <= j < i - 1 implies (#[trigger] s.skip(1)[j]).0 != key by {
            assert(s.skip(1)[j] == s[j + 1]);
        }
        if i - 1 < s.skip(1).len() {
            assert(s.skip(1)[i - 1] == s[i]);
        }
        lemma_key_index_is(s.skip(1), key, i - 1);
    }
}

/// Compares two string slices by their bytes.
pub(crate) fn str_eq(a: &str, b: &str) -> (r: bool)
    ensures
        r == (a@ == b@),
{
    broadcast use vstd::utf8::encode_utf8_decode_utf8;

    let ab = a.as_bytes();
    let bb = b.as_bytes();
    if ab.len() != bb.len() {
        return false;
    }
    let n = ab.len();
    let mut i: usize = 0;
    while i < n
        invariant
            0 <= i <= n,
            n == ab@.len() == bb@.len(),
            ab@ == vstd::utf8::encode_utf8(a@),
            bb@ == vstd::utf8::encode_utf8(b@),
            forall|j: int| 0 <= j < i ==> ab@[j] == bb@[j],
        decreases n - i,
    {
        if ab[i] != bb[i] {
            proof {
                assert(ab@[i as int] != bb@[i as int]);
            }
            return false;
        }
        i = i + 1;
    }
    proof {
        assert(ab@ =~= bb@);
        assert(vstd::utf8::decode_utf8(vstd::utf8::encode_utf8(a@)) == a@);
        assert(vstd::utf8::decode_utf8(vstd::utf8::encode_utf8(b@)) == b@);
    }
    true
}

impl Object {
    /// The list and the view tell the same story.
    #[verifier::type_invariant]
    closed spec fn inv(&self) -> bool {
        &&& self.inner.wf()
        &&& self.vw@.len() == self.inner@.len()
        &&& forall|i: int|
            0 <= i < self.inner@.len() ==> (#[trigger] self.inner@[i]).0@ == self.vw@[i].0
                && self.inner@[i].1@ == self.vw@[i].1
    }

    /// Creates an empty object.
    pub fn new() -> (r: Object)
        ensures
            r@ == Seq::<(Seq<char>, ValueView)>::empty(),
    {
        Object { inner: LinkedList::new(), vw: Ghost(Seq::empty()) }
    }

    /// The number of key–value pairs.
    pub fn len(&self) -> (r: usize)
        ensures
            r == self@.len(),
    {
        proof {
            use_type_invariant(&*self);
        }
        self.inner.len()
    }

    /// Whether the object holds no pair.
    pub fn is_empty(&self) -> (r: bool)
        ensures
            r == (self@.len() == 0),
    {
        proof {
            use_type_invariant(&*self);
        }
        self.inner.is_empty()
    }

    /// Appends a key–value pair at the end, without deduplication.
    pub fn insert(&mut self, key: String, value: JsonValue)
        ensures
            final(self)@ == old(self)@.push((key@, value@)),
    {
        proof {
            use_type_invariant(&*self);
        }
        let ghost pv = (key@, value@);
        let mut tmp = Object::new();
        core::mem::swap(&mut tmp, self);
        let Object { inner: mut inner0, vw: Ghost(vw0) } = tmp;
        inner0.push_back((key, value));
        let next = Object { inner: inner0, vw: Ghost(vw0.push(pv)) };
        *self = next;
    }

    /// Reads the pair at a position.
    pub fn get_pair(&self, index: usize) -> (r: Option<&(String, JsonValue)>)
        ensures
            match r {
                Some(p) => index < self@.len() && p.0@ == self@[index as int].0 && p.1@ == self@[
                    index as int
                ].1,
                None => index >= self@.len(),
            },
    {
        proof {
            use_type_invariant(&*self);
        }
        if index < self.inner.len() {
            Some(self.inner.get(index))
        } else {
            None
        }
    }

    /// The position of the first pair that carries the key, if any.
    fn find(&self, key: &str) -> (r: Option<usize>)
        ensures
            match r {
                Some(i) => i == key_index(self@, key@) && i < self@.len(),
                None => !has_key(self@, key@),
            },
    {
        proof {
            use_type_invariant(&*self);
        }
        let n = self.inner.len();
        let mut it = self.inner.iter();
        let mut i: usize = 0;
        loop
            invariant
                self.inv(),
                0 <= i <= n,
                n == self@.len(),
                self.inner.iter_wf(it),
                it.spec_index() == i,
                forall|j: int| 0 <= j < i ==> (#[trigger] self@[j]).0 != key@,
            decreases n - i,
        {
            match it.next(&self.inner) {
                Some(p) => {
                    if str_eq(p.0.as_str(), key) {
                        proof {
                            lemma_key_index_is(self@, key@, i as int);
                        }
                        return Some(i);
                    }
                    i = i + 1;
                },
                None => {
                    proof {
                        lemma_key_index_is(self@, key@, i as int);
                        lemma_key_index(self@, key@);
                    }
                    return None;
                },
            }
        }
    }

    /// Checks whether the key is present.
    pub fn contains_key(&self, key: &str) -> (r: bool)
        ensures
            r == has_key(self@, key@),
    {
        proof {
            lemma_key_index(self@, key@);
        }
        match self.find(key) {
            Some(_) => true,
            None => false,
        }
    }

    /// Reads the value under the key: the first match in insertion order.
    pub fn get(&self, key: &str) -> (r: Option<&JsonValue>)
        ensures
            match r {
                Some(v) => has_key(self@, key@) && v@ == self@[key_index(self@, key@)].1,
                None => !has_key(self@, key@),
            },
    {
        proof {
            use_type_invariant(&*self);
        }
        match self.find(key) {
            Some(i) => {
                let p = self.inner.get(i);
                Some(&p.1)
            },
            None => None,
        }
    }

    /// Removes the first pair under the key and hands its value back.
    pub fn remove(&mut self, key: &str) -> (r: Option<JsonValue>)
        ensures
            match r {
                Some(v) => {
                    &&& has_key(old(self)@, key@)
                    &&& v@ == old(self)@[key_index(old(self)@, key@)].1
                    &&& final(self)@ == old(self)@.remove(key_index(old(self)@, key@))
                },
                None => !has_key(old(self)@, key@) && final(self)@ == old(self)@,
            },
    {
        proof {
            use_type_invariant(&*self);
        }
        let found = self.find(key);
        match found {
            Some(i) => {
                let mut tmp = Object::new();
                core::mem::swap(&mut tmp, self);
                let Object { inner: mut inner0, vw: Ghost(vw0) } = tmp;
                let pair = inner0.remove(i);
                let next = Object { inner: inner0, vw: Ghost(vw0.remove(i as int)) };
                *self = next;
                Some(pair.1)
            },
            None => None,
        }
    }

    /// The handle of the node of the first pair under the key.
    pub fn get_node(&self, key: &str) -> (r: Option<usize>)
        ensures
            match r {
                Some(h) => has_key(self@, key@) && self.node_position(h) == key_index(
                    self@,
                    key@,
                ),
                None => !has_key(self@, key@),
            },
    {
        proof {
            use_type_invariant(&*self);
        }
        match self.find(key) {
            Some(i) => {
                let r = self.inner.get_node(i);
                proof {
                    self.inner.lemma_handle_position(i);
                }
                r
            },
            None => None,
        }
    }

    /// The handle names a node of this object.
    pub closed spec fn valid_node(&self, handle: usize) -> bool {
        self.inner.slot_in_list(handle)
    }

    /// The position of the node a handle names.
    pub closed spec fn node_position(&self, handle: usize) -> int {
        self.inner.slot_position(handle)
    }

    /// Reads the pair at a handle.
    pub fn node_pair(&self, handle: usize) -> (r: &(String, JsonValue))
        requires
            self.valid_node(handle),
        ensures
            0 <= self.node_position(handle) < self@.len(),
            r.0@ == self@[self.node_position(handle)].0,
            r.1@ == self@[self.node_position(handle)].1,
    {
        proof {
            use_type_invariant(&*self);
            self.inner.lemma_slot_position(handle);
        }
        self.inner.node_element(handle)
    }

    /// Removes exactly the node a handle names and hands its value back.
    pub fn remove_node(&mut self, handle: usize) -> (r: JsonValue)
        requires
            old(self).valid_node(handle),
        ensures
            0 <= old(self).node_position(handle) < old(self)@.len(),
            r@ == old(self)@[old(self).node_position(handle)].1,
            final(self)@ == old(self)@.remove(old(self).node_position(handle)),
    {
        proof {
            use_type_invariant(&*self);
            self.inner.lemma_slot_position(handle);
        }
        let mut tmp = Object::new();
        core::mem::swap(&mut tmp, self);
        let Object { inner: mut inner0, vw: Ghost(vw0) } = tmp;
        let ghost k = inner0.slot_position(handle);
        let pair = inner0.remove_node(handle);
        let next = Object { inner: inner0, vw: Ghost(vw0.remove(k)) };
        *self = next;
        pair.1
    }

    /// Sets the value under a key: the first pair that carries the key has
    /// its value overwritten, and a missing key is appended as a new pair at
    /// the end.
    pub fn set(&mut self, key: &str, value: JsonValue)
        ensures
            has_key(old(self)@, key@) ==> final(self)@ == old(self)@.update(
                key_index(old(self)@, key@),
                (key@, value@),
            ),
            !has_key(old(self)@, key@) ==> final(self)@ == old(self)@.push((key@, value@)),
    {
        proof {
            use_type_invariant(&*self);
        }
        let ghost vv = value@;
        let found = self.find(key);
        match found {
            Some(i) => {
                let mut tmp = Object::new();
                core::mem::swap(&mut tmp, self);
                let Object { inner: mut inner0, vw: Ghost(vw0) } = tmp;
                let _prev = inner0.replace(i, (key.to_owned(), value));
                let next = Object { inner: inner0, vw: Ghost(vw0.update(i as int, (key@, vv))) };
                *self = next;
            },
            None => {
                self.insert(key.to_owned(), value);
            },
        }
    }

    /// Replaces the value of the pair at exactly the node a handle names,
    /// keeping its key, and hands the old value back.  Every position is
    /// kept, and every handle — this one included — keeps naming the node it
    /// named.
    pub fn replace_node(&mut self, handle: usize, value: JsonValue) -> (r: JsonValue)
        requires
            old(self).valid_node(handle),
        ensures
            0 <= old(self).node_position(handle) < old(self)@.len(),
            r@ == old(self)@[old(self).node_position(handle)].1,
            final(self)@ == old(self)@.update(
                old(self).node_position(handle),
                (old(self)@[old(self).node_position(handle)].0, value@),
            ),
            final(self).valid_node(handle),
            final(self).node_position(handle) == old(self).node_position(handle),
    {
        proof {
            use_type_invariant(&*self);
            self.inner.lemma_slot_position(handle);
        }
        let key = {
            let p = self.inner.node_element(handle);
            p.0.clone()
        };
        let ghost vv = value@;
        let ghost k = self.inner.slot_position(handle);
        let mut tmp = Object::new();
        core::mem::swap(&mut tmp, self);
        let Object { inner: mut inner0, vw: Ghost(vw0) } = tmp;
        let pair = inner0.replace_node(handle, (key, value));
        proof {
            inner0.lemma_handle_position(k as usize);
        }
        let next = Object { inner: inner0, vw: Ghost(vw0.update(k, (vw0[k].0, vv))) };
        *self = next;
        pair.1
    }
}

impl JsonValue {
    /// Creates a null value.
    pub fn new_null() -> (r: JsonValue)
        ensures
            r@ == ValueView::Null,
    {
        JsonValue::Null
    }

    /// Creates a boolean value.
    pub fn new_boolean(boolean: bool) -> (r: JsonValue)
        ensures
            r@ == ValueView::Boolean(boolean),
    {
        JsonValue::Boolean(boolean)
    }

    /// Creates a numerical value.
    pub fn new_number(number: Number) -> (r: JsonValue)
        ensures
            r@ == ValueView::Number(number@),
    {
        JsonValue::Number(number)
    }

    /// Creates a string value.
    pub fn new_string(str: &str) -> (r: JsonValue)
        ensures
            r@ == ValueView::String(str@),
    {
        JsonValue::String(str.to_owned())
    }

    /// Creates an array value.
    pub fn new_array(array: Array) -> (r: JsonValue)
        ensures
            r@ == ValueView::Array(array@),
    {
        JsonValue::Array(array)
    }

    /// Creates an object value.
    pub fn new_object(object: Object) -> (r: JsonValue)
        ensures
            r@ == ValueView::Object(object@),
    {
        JsonValue::Object(object)
    }

    /// Determines whether the value is null.
    pub fn is_null(&self) -> (r: bool)
        ensures
            r == (self@ is Null),
    {
        matches!(*self, JsonValue::Null)
    }

    /// Determines whether the value is a boolean.
    pub fn is_boolean(&self) -> (r: bool)
        ensures
            r == (self@ is Boolean),
    {
        matches!(*self, JsonValue::Boolean(_))
    }

    /// Determines whether the value is the boolean `true`.
    pub fn is_true(&self) -> (r: bool)
        ensures
            r == (self@ == ValueView::Boolean(true)),
    {
        match *self {
            JsonValue::Boolean(x) => x,
            _ => false,
        }
    }

    /// Determines whether the value is the boolean `false`.
    pub fn is_false(&self) -> (r: bool)
        ensures
            r == (self@ == ValueView::Boolean(false)),
    {
        match *self {
            JsonValue::Boolean(x) => !x,
            _ => false,
        }
    }

    /// Determines whether the value is a number.
    pub fn is_number(&self) -> (r: bool)
        ensures
            r == (self@ is Number),
    {
        matches!(*self, JsonValue::Number(_))
    }

    /// Determines whether the value is a string.
    pub fn is_string(&self) -> (r: bool)
        ensures
            r == (self@ is String),
    {
        matches!(*self, JsonValue::String(_))
    }

    /// Determines whether the value is an array.
    pub fn is_array(&self) -> (r: bool)
        ensures
            r == (self@ is Array),
    {
        matches!(*self, JsonValue::Array(_))
    }

    /// Determines whether the value is an object.
    pub fn is_object(&self) -> (r: bool)
        ensures
            r == (self@ is Object),
    {
        matches!(*self, JsonValue::Object(_))
    }

    /// Borrows the boolean inside, or fails with a type transform error.
    pub fn try_as_boolean(&self) -> (r: Result<&bool, Error>)
        ensures
            match r {
                Ok(b) => self@ == ValueView::Boolean(*b),
                Err(e) => !(self@ is Boolean) && e is TypeTransform,
            },
    {
        match self {
            JsonValue::Boolean(boolean) => Ok(boolean),
            _ => Err(Error::TypeTransform),
        }
    }

    /// Borrows the number inside, or fails with a type transform error.
    pub fn try_as_number(&self) -> (r: Result<&Number, Error>)
        ensures
            match r {
                Ok(n) => self@ == ValueView::Number(n@),
                Err(e) => !(self@ is Number) && e is TypeTransform,
            },
    {
        match self {
            JsonValue::Number(number) => Ok(number),
            _ => Err(Error::TypeTransform),
        }
    }

    /// Borrows the string inside, or fails with a type transform error.
    pub fn try_as_string(&self) -> (r: Result<&String, Error>)
        ensures
            match r {
                Ok(s) => self@ == ValueView::String(s@),
                Err(e) => !(self@ is String) && e is TypeTransform,
            },
    {
        match self {
            JsonValue::String(string) => Ok(string),
            _ => Err(Error::TypeTransform),
        }
    }

    /// Borrows the array inside, or fails with a type transform error.
    pub fn try_as_array(&self) -> (r: Result<&Array, Error>)
        ensures
            match r {
                Ok(a) => self@ == ValueView::Array(a@),
                Err(e) => !(self@ is Array) && e is TypeTransform,
            },
    {
        match self {
            JsonValue::Array(array) => Ok(array),
            _ => Err(Error::TypeTransform),
        }
    }

    /// Borrows the object inside, or fails with a type transform error.
    pub fn try_as_object(&self) -> (r: Result<&Object, Error>)
        ensures
            match r {
                Ok(o) => self@ == ValueView::Object(o@),
                Err(e) => !(self@ is Object) && e is TypeTransform,
            },
    {
        match self {
            JsonValue::Object(object) => Ok(object),
            _ => Err(Error::TypeTransform),
        }
    }

    /// Takes the boolean out, or fails with a type transform error.
    pub fn try_into_boolean(self) -> (r: Result<bool, Error>)
        ensures
            match r {
                Ok(b) => self@ == ValueView::Boolean(b),
                Err(e) => !(self@ is Boolean) && e is TypeTransform,
            },
    {
        match self {
            JsonValue::Boolean(boolean) => Ok(boolean),
            _ => Err(Error::TypeTransform),
        }
    }

    /// Takes the number out, or fails with a type transform error.
    pub fn try_into_number(self) -> (r: Result<Number, Error>)
        ensures
            match r {
                Ok(n) => self@ == ValueView::Number(n@),
                Err(e) => !(self@ is Number) && e is TypeTransform,
            },
    {
        match self {
            JsonValue::Number(number) => Ok(number),
            _ => Err(Error::TypeTransform),
        }
    }

    /// Takes the string out, or fails with a type transform error.
    pub fn try_into_string(self) -> (r: Result<String, Error>)
        ensures
            match r {
                Ok(s) => self@ == ValueView::String(s@),
                Err(e) => !(self@ is String) && e is TypeTransform,
            },
    {
        match self {
            JsonValue::String(string) => Ok(string),
            _ => Err(Error::TypeTransform),
        }
    }

    /// Takes the array out, or fails with a type transform error.
    pub fn try_into_array(self) -> (r: Result<Array, Error>)
        ensures
            match r {
                Ok(a) => self@ == ValueView::Array(a@),
                Err(e) => !(self@ is Array) && e is TypeTransform,
            },
    {
        match self {
            JsonValue::Array(array) => Ok(array),
            _ => Err(Error::TypeTransform),
        }
    }

    /// Takes the object out, or fails with a type transform error.
    pub fn try_into_object(self) -> (r: Result<Object, Error>)
        ensures
            match r {
                Ok(o) => self@ == ValueView::Object(o@),
                Err(e) => !(self@ is Object) && e is TypeTransform,
            },
    {
        match self {
            JsonValue::Object(object) => Ok(object),
            _ => Err(Error::TypeTransform),
        }
    }

    /// Writes the element at an index, materializing structure as indexed
    /// assignment does: a non-array value first becomes an empty array, an
    /// index inside the array overwrites the element there, and an index at
    /// or past the end extends the array with nulls up to the index and puts
    /// the new element there.
    pub fn set_index(&mut self, index: usize, value: JsonValue)
        ensures
            final(self)@ is Array,
            old(self)@ matches ValueView::Array(elems) ==> final(self)@ == ValueView::Array(
                if index < elems.len() {
                    elems.update(index as int, value@)
                } else {
                    elems + Seq::new((index - elems.len()) as nat, |q: int| ValueView::Null)
                        + seq![value@]
                },
            ),
            !(old(self)@ is Array) ==> final(self)@ == ValueView::Array(
                Seq::new(index as nat, |q: int| ValueView::Null) + seq![value@],
            ),
    {
        let mut tmp = JsonValue::Null;
        core::mem::swap(&mut tmp, self);
        let mut a = match tmp {
            JsonValue::Array(arr) => arr,
            _ => Array::new(),
        };
        if index < a.len() {
            let _prev = a.replace(index, value);
        } else {
            let ghost elems0 = a@;
            let mut n = a.len();
            proof {
                assert(a@ =~= elems0 + Seq::new(
                    (n - elems0.len()) as nat,
                    |q: int| ValueView::Null,
                ));
            }
            while n < index
                invariant
                    elems0.len() <= n <= index,
                    n <= usize::MAX,
                    a@ == elems0 + Seq::new((n - elems0.len()) as nat, |q: int| ValueView::Null),
                decreases index - n,
            {
                a.push(JsonValue::new_null());
                n = n + 1;
                proof {
                    assert(a@ =~= elems0 + Seq::new(
                        (n - elems0.len()) as nat,
                        |q: int| ValueView::Null,
                    ));
                }
            }
            a.push(value);
            proof {
                assert(a@ =~= elems0 + Seq::new(
                    (index - elems0.len()) as nat,
                    |q: int| ValueView::Null,
                ) + seq![value@]);
                if !(old(self)@ is Array) {
                    assert(a@ =~= Seq::new(index as nat, |q: int| ValueView::Null) + seq![
                        value@,
                    ]);
                }
            }
        }
        *self = JsonValue::Array(a);
    }

    /// Writes the value under a key, materializing structure as keyed
    /// assignment does: a non-object value becomes a one-pair object, the
    /// first pair that carries the key has its value overwritten, and a
    /// missing key is appended as a new pair at the end.
    pub fn set_key(&mut self, key: &str, value: JsonValue)
        ensures
            final(self)@ is Object,
            old(self)@ matches ValueView::Object(pairs) ==> final(self)@ == ValueView::Object(
                if has_key(pairs, key@) {
                    pairs.update(key_index(pairs, key@), (key@, value@))
                } else {
                    pairs.push((key@, value@))
                },
            ),
            !(old(self)@ is Object) ==> final(self)@ == ValueView::Object(
                seq![(key@, value@)],
            ),
    {
        let mut tmp = JsonValue::Null;
        core::mem::swap(&mut tmp, self);
        match tmp {
            JsonValue::Object(mut o) => {
                o.set(key, value);
                *self = JsonValue::Object(o);
            },
            _ => {
                let mut o = Object::new();
                o.insert(key.to_owned(), value);
                proof {
                    assert(o@ =~= seq![(key@, value@)]);
                }
                *self = JsonValue::Object(o);
            },
        }
    }

    /// Removes the element at an index, when the value is an array that
    /// holds that index; any other value stays untouched and nothing is
    /// handed back.
    pub fn remove_index(&mut self, index: usize) -> (r: Option<JsonValue>)
        ensures
            match r {
                Some(v) => old(self)@ matches ValueView::Array(elems) && index < elems.len()
                    && v@ == elems[index as int] && final(self)@ == ValueView::Array(
                    elems.remove(index as int),
                ),
                None => final(self)@ == old(self)@ && (old(self)@ matches ValueView::Array(elems)
                    ==> index >= elems.len()),
            },
    {
        let mut tmp = JsonValue::Null;
        core::mem::swap(&mut tmp, self);
        match tmp {
            JsonValue::Array(mut a) => {
                let r = a.remove(index);
                *self = JsonValue::Array(a);
                r
            },
            other => {
                *self = other;
                None
            },
        }
    }

    /// Removes the first pair under a key, when the value is an object that
    /// carries the key; any other value stays untouched and nothing is
    /// handed back.
    pub fn remove_key(&mut self, key: &str) -> (r: Option<JsonValue>)
        ensures
            match r {
                Some(v) => old(self)@ matches ValueView::Object(pairs) && has_key(pairs, key@)
                    && v@ == pairs[key_index(pairs, key@)].1 && final(self)@ == ValueView::Object(
                    pairs.remove(key_index(pairs, key@)),
                ),
                None => final(self)@ == old(self)@ && (old(self)@ matches ValueView::Object(pairs)
                    ==> !has_key(pairs, key@)),
            },
    {
        let mut tmp = JsonValue::Null;
        core::mem::swap(&mut tmp, self);
        match tmp {
            JsonValue::Object(mut o) => {
                let r = o.remove(key);
                *self = JsonValue::Object(o);
                r
            },
            other => {
                *self = other;
                None
            },
        }
    }
}

/// An element of an array view sits below the view itself.
pub(crate) proof fn lemma_arr_dec(s: Seq<ValueView>, i: int)
    requires
        0 <= i < s.len(),
    ensures
        decreases_to!(ValueView::Array(s) => s[i]),
{
    let g = ValueView::Array(s);
    match g {
        ValueView::Array(t) => {
            assert(decreases_to!(g => t));
            assert(decreases_to!(t => t[i]));
        },
        _ => {},
    }
}

/// The value of a pair of an object view sits below the view itself.
pub(crate) proof fn lemma_obj_dec(s: Seq<(Seq<char>, ValueView)>, i: int)
    requires
        0 <= i < s.len(),
    ensures
        decreases_to!(ValueView::Object(s) => s[i].1),
{
    let g = ValueView::Object(s);
    match g {
        ValueView::Object(t) => {
            assert(decreases_to!(g => t));
            assert(decreases_to!(t => t[i]));
            assert(decreases_to!(t[i] => t[i].1));
        },
        _ => {},
    }
}

/// Whether two values denote the same document, computed.
fn eq_value(a: &JsonValue, b: &JsonValue) -> (r: bool)
    ensures
        r == value_eq(a@, b@),
    decreases a@, 1int,
{
    match (a, b) {
        (JsonValue::Null, JsonValue::Null) => true,
        (JsonValue::Boolean(x), JsonValue::Boolean(y)) => *x == *y,
        (JsonValue::Number(x), JsonValue::Number(y)) => x == y,
        (JsonValue::String(x), JsonValue::String(y)) => str_eq(x.as_str(), y.as_str()),
        (JsonValue::Array(x), JsonValue::Array(y)) => eq_array(x, y),
        (JsonValue::Object(x), JsonValue::Object(y)) => eq_object(x, y),
        _ => false,
    }
}

/// Whether two arrays hold pairwise equal values, computed.
fn eq_array(x: &Array, y: &Array) -> (r: bool)
    ensures
        r == seq_value_eq(x@, y@),
    decreases ValueView::Array(x@), 0int,
{
    proof {
        use_type_invariant(&*x);
        use_type_invariant(&*y);
    }
    let n = x.len();
    if n != y.len() {
        return false;
    }
    let mut i: usize = 0;
    while i < n
        invariant
            0 <= i <= n,
            n == x@.len() == y@.len(),
            forall|j: int| 0 <= j < i ==> value_eq(#[trigger] x@[j], #[trigger] y@[j]),
        decreases n - i,
    {
        let xe = match x.get(i) {
            Some(v) => v,
            None => {
                proof {
                    assert(false);
                }
                vstd::pervasive::unreached()
            },
        };
        let ye = match y.get(i) {
            Some(v) => v,
            None => {
                proof {
                    assert(false);
                }
                vstd::pervasive::unreached()
            },
        };
        proof {
            lemma_arr_dec(x@, i as int);
        }
        if !eq_value(xe, ye) {
            return false;
        }
        i = i + 1;
    }
    true
}

/// Whether two objects hold pairwise equal keys and values, computed.
fn eq_object(x: &Object, y: &Object) -> (r: bool)
    ensures
        r == seq_pair_eq(x@, y@),
    decreases ValueView::Object(x@), 0int,
{
    proof {
        use_type_invariant(&*x);
        use_type_invariant(&*y);
    }
    let n = x.len();
    if n != y.len() {
        return false;
    }
    let mut i: usize = 0;
    while i < n
        invariant
            0 <= i <= n,
            n == x@.len() == y@.len(),
            forall|j: int|
                0 <= j < i ==> (#[trigger] x@[j]).0 == (#[trigger] y@[j]).0 && value_eq(
                    x@[j].1,
                    y@[j].1,
                ),
        decreases n - i,
    {
        let xe = match x.get_pair(i) {
            Some(v) => v,
            None => {
                proof {
                    assert(false);
                }
                vstd::pervasive::unreached()
            },
        };
        let ye = match y.get_pair(i) {
            Some(v) => v,
            None => {
                proof {
                    assert(false);
                }
                vstd::pervasive::unreached()
            },
        };
        if !str_eq(xe.0.as_str(), ye.0.as_str()) {
            return false;
        }
        proof {
            lemma_obj_dec(x@, i as int);
        }
        if !eq_value(&xe.1, &ye.1) {
            return false;
        }
        i = i + 1;
    }
    true
}

impl PartialEq for JsonValue {
    /// Values compare structurally, except that numbers compare by the
    /// decimal value they denote.
    fn eq(&self, other: &JsonValue) -> (r: bool) {
        eq_value(self, other)
    }
}

impl vstd::std_specs::cmp::PartialEqSpecImpl for JsonValue {
    open spec fn obeys_eq_spec() -> bool {
        true
    }

    open spec fn eq_spec(&self, other: &JsonValue) -> bool {
        value_eq(self@, other@)
    }
}

impl PartialEq for Array {
    /// Arrays compare element by element, under the value equality.
    fn eq(&self, other: &Array) -> (r: bool) {
        eq_array(self, other)
    }
}

impl vstd::std_specs::cmp::PartialEqSpecImpl for Array {
    open spec fn obeys_eq_spec() -> bool {
        true
    }

    open spec fn eq_spec(&self, other: &Array) -> bool {
        seq_value_eq(self@, other@)
    }
}

impl PartialEq for Object {
    /// Objects compare pair by pair, in order, under the value equality.
    fn eq(&self, other: &Object) -> (r: bool) {
        eq_object(self, other)
    }
}

impl vstd::std_specs::cmp::PartialEqSpecImpl for Object {
    open spec fn obeys_eq_spec() -> bool {
        true
    }

    open spec fn eq_spec(&self, other: &Object) -> bool {
        seq_pair_eq(self@, other@)
    }
}

/// A copy of the value with the same content.
fn clone_value(v: &JsonValue) -> (r: JsonValue)
    ensures
        r@ == v@,
    decreases v@, 1int,
{
    match v {
        JsonValue::Null => JsonValue::Null,
        JsonValue::Boolean(b) => JsonValue::Boolean(*b),
        JsonValue::Number(n) => JsonValue::Number(n.clone()),
        JsonValue::String(s) => JsonValue::String(s.clone()),
        JsonValue::Array(a) => JsonValue::Array(clone_array(a)),
        JsonValue::Object(o) => JsonValue::Object(clone_object(o)),
    }
}

/// A copy of the array with the same content.
fn clone_array(a: &Array) -> (r: Array)
    ensures
        r@ == a@,
    decreases ValueView::Array(a@), 0int,
{
    proof {
        use_type_invariant(&*a);
    }
    let n = a.len();
    let mut out = Array::new();
    let mut i: usize = 0;
    while i < n
        invariant
            0 <= i <= n,
            n == a@.len(),
            out@ == a@.subrange(0, i as int),
        decreases n - i,
    {
        let e = match a.get(i) {
            Some(v) => v,
            None => {
                proof {
                    assert(false);
                }
                vstd::pervasive::unreached()
            },
        };
        proof {
            lemma_arr_dec(a@, i as int);
        }
        let c = clone_value(e);
        out.push(c);
        proof {
            assert(out@ =~= a@.subrange(0, i + 1));
        }
        i = i + 1;
    }
    proof {
        assert(out@ =~= a@);
    }
    out
}

/// A copy of the object with the same content.
fn clone_object(o: &Object) -> (r: Object)
    ensures
        r@ == o@,
    decreases ValueView::Object(o@), 0int,
{
    proof {
        use_type_invariant(&*o);
    }
    let n = o.len();
    let mut out = Object::new();
    let mut i: usize = 0;
    while i < n
        invariant
            0 <= i <= n,
            n == o@.len(),
            out@ == o@.subrange(0, i as int),
        decreases n - i,
    {
        let e = match o.get_pair(i) {
            Some(v) => v,
            None => {
                proof {
                    assert(false);
                }
                vstd::pervasive::unreached()
            },
        };
        proof {
            lemma_obj_dec(o@, i as int);
        }
        let ck = e.0.clone();
        let cv = clone_value(&e.1);
        out.insert(ck, cv);
        proof {
            assert(out@ =~= o@.subrange(0, i + 1));
        }
        i = i + 1;
    }
    proof {
        assert(out@ =~= o@);
    }
    out
}

/// Removal through a node handle matches removal by recomputed position.
///
/// [`Array::get_node`] hands out a handle whose recomputed position is the
/// position it was obtained at, and [`Array::remove_node`] removes the
/// element at the handle's recomputed position.  So for a handle that names
/// position `i`, what handle removal takes out and leaves behind is exactly
/// what positional removal at `i` takes out and leaves behind: one element
/// gone, the rest in their relative order.
pub proof fn lemma_remove_by_handle(a: Array, h: usize, i: usize)
    requires
        i < a@.len(),
        a.valid_node(h),
        a.node_position(h) == i,
    ensures
        a@.remove(a.node_position(h)) == a@.remove(i as int),
        a@[a.node_position(h)] == a@[i as int],
        a@.remove(i as int).len() == a@.len() - 1,
        forall|k: int| 0 <= k < i ==> a@.remove(i as int)[k] == a@[k],
        forall|k: int| i <= k < a@.len() - 1 ==> a@.remove(i as int)[k] == a@[k + 1],
{
}

impl Clone for JsonValue {
    /// A value with the same content.
    fn clone(&self) -> (r: Self)
        ensures
            r@ == self@,
    {
        clone_value(self)
    }
}

impl Clone for Array {
    /// An array with the same content.
    fn clone(&self) -> (r: Self)
        ensures
            r@ == self@,
    {
        clone_array(self)
    }
}

impl Clone for Object {
    /// An object with the same content.
    fn clone(&self) -> (r: Self)
        ensures
            r@ == self@,
    {
        clone_object(self)
    }
}

/// The nesting height of a value: scalars stand at one, a container stands
/// one above its deepest element.
pub open spec fn height(v: ValueView) -> int
    decreases v, 1int, 0int,
{
    match v {
        ValueView::Array(s) => 1 + heights(s, s.len() as int),
        ValueView::Object(s) => 1 + pair_heights(s, s.len() as int),
        _ => 1,
    }
}

/// The deepest height among the first `i` elements.
pub open spec fn heights(s: Seq<ValueView>, i: int) -> int
    decreases s, 0int, i,
{
    if i <= 0 || i > s.len() {
        0
    } else {
        let rest = heights(s, i - 1);
        let h = height(s[i - 1]);
        if h > rest {
            h
        } else {
            rest
        }
    }
}

/// The deepest height among the values of the first `i` pairs.
pub open spec fn pair_heights(s: Seq<(Seq<char>, ValueView)>, i: int) -> int
    decreases s, 0int, i,
{
    if i <= 0 || i > s.len() {
        0
    } else {
        let rest = pair_heights(s, i - 1);
        let h = height(s[i - 1].1);
        if h > rest {
            h
        } else {
            rest
        }
    }
}

/// The running maximum of heights never goes below zero.
pub proof fn lemma_heights_nonneg(s: Seq<ValueView>, i: int)
    ensures
        heights(s, i) >= 0,
    decreases i,
{
    if 0 < i <= s.len() {
        lemma_heights_nonneg(s, i - 1);
    }
}

/// The running maximum of pair heights never goes below zero.
pub proof fn lemma_pair_heights_nonneg(s: Seq<(Seq<char>, ValueView)>, i: int)
    ensures
        pair_heights(s, i) >= 0,
    decreases i,
{
    if 0 < i <= s.len() {
        lemma_pair_heights_nonneg(s, i - 1);
    }
}

/// Every height is positive.
pub proof fn lemma_height_pos(v: ValueView)
    ensures
        height(v) >= 1,
{
    match v {
        ValueView::Array(s) => {
            lemma_heights_nonneg(s, s.len() as int);
        },
        ValueView::Object(s) => {
            lemma_pair_heights_nonneg(s, s.len() as int);
        },
        _ => {},
    }
}

/// The running maximum covers each of the first `i` elements.
pub proof fn lemma_heights_ge(s: Seq<ValueView>, i: int, j: int)
    requires
        0 <= j < i <= s.len(),
    ensures
        heights(s, i) >= height(s[j]),
        heights(s, i) >= 0,
    decreases i,
{
    lemma_heights_nonneg(s, i);
    if j < i - 1 {
        lemma_heights_ge(s, i - 1, j);
    }
}

/// The running maximum covers the value of each of the first `i` pairs.
pub proof fn lemma_pair_heights_ge(s: Seq<(Seq<char>, ValueView)>, i: int, j: int)
    requires
        0 <= j < i <= s.len(),
    ensures
        pair_heights(s, i) >= height(s[j].1),
        pair_heights(s, i) >= 0,
    decreases i,
{
    lemma_pair_heights_nonneg(s, i);
    if j < i - 1 {
        lemma_pair_heights_ge(s, i - 1, j);
    }
}

/// The tree with every number in its canonical spelling: what parsing a
/// rendering of the tree hands back.
pub open spec fn canon_view(v: ValueView) -> ValueView
    decreases v, 1int, 0int,
{
    match v {
        ValueView::Number(n) => ValueView::Number(crate::number::canon_num(n)),
        ValueView::Array(s) => ValueView::Array(canon_views(s, s.len() as int)),
        ValueView::Object(s) => ValueView::Object(canon_pairs(s, s.len() as int)),
        _ => v,
    }
}

/// The first `i` elements, each with its numbers in canonical spelling.
pub open spec fn canon_views(s: Seq<ValueView>, i: int) -> Seq<ValueView>
    decreases s, 0int, i,
{
    if i <= 0 || i > s.len() {
        Seq::empty()
    } else {
        canon_views(s, i - 1).push(canon_view(s[i - 1]))
    }
}

/// The first `i` pairs, each value with its numbers in canonical spelling.
pub open spec fn canon_pairs(s: Seq<(Seq<char>, ValueView)>, i: int) -> Seq<
    (Seq<char>, ValueView),
>
    decreases s, 0int, i,
{
    if i <= 0 || i > s.len() {
        Seq::empty()
    } else {
        canon_pairs(s, i - 1).push((s[i - 1].0, canon_view(s[i - 1].1)))
    }
}

/// The canonical prefix holds one canonical element per original element.
pub proof fn lemma_canon_views_at(s: Seq<ValueView>, i: int)
    requires
        0 <= i <= s.len(),
    ensures
        canon_views(s, i).len() == i,
        forall|j: int| 0 <= j < i ==> #[trigger] canon_views(s, i)[j] == canon_view(s[j]),
    decreases i,
{
    if i > 0 {
        lemma_canon_views_at(s, i - 1);
    }
}

/// The canonical prefix holds one canonical pair per original pair, with its
/// key kept.
pub proof fn lemma_canon_pairs_at(s: Seq<(Seq<char>, ValueView)>, i: int)
    requires
        0 <= i <= s.len(),
    ensures
        canon_pairs(s, i).len() == i,
        forall|j: int| 0 <= j < i ==> #[trigger] canon_pairs(s, i)[j] == (
            s[j].0,
            canon_view(s[j].1),
        ),
    decreases i,
{
    if i > 0 {
        lemma_canon_pairs_at(s, i - 1);
    }
}

/// Canonical spelling keeps each value's kind.
pub proof fn lemma_canon_kind(v: ValueView)
    ensures
        (canon_view(v) is Array) == (v is Array),
        (canon_view(v) is Object) == (v is Object),
{
    match v {
        ValueView::Number(_) => {},
        ValueView::Array(_) => {},
        ValueView::Object(_) => {},
        _ => {},
    }
}

/// An array of well-formed elements is a well-formed tree.
pub(crate) proof fn lemma_wf_arr(s: Seq<ValueView>)
    requires
        forall|j: int| 0 <= j < s.len() ==> view_wf(#[trigger] s[j]),
    ensures
        view_wf(ValueView::Array(s)),
{
    let v = ValueView::Array(s);
    match v {
        ValueView::Array(t) => {
            assert(forall|j: int| 0 <= j < t.len() ==> view_wf(#[trigger] t[j]));
        },
        _ => {},
    }
}

/// An object of well-formed values is a well-formed tree, and the converse.
pub(crate) proof fn lemma_wf_obj(s: Seq<(Seq<char>, ValueView)>)
    requires
        forall|j: int| 0 <= j < s.len() ==> view_wf((#[trigger] s[j]).1),
    ensures
        view_wf(ValueView::Object(s)),
{
    let v = ValueView::Object(s);
    match v {
        ValueView::Object(t) => {
            assert(forall|j: int| 0 <= j < t.len() ==> view_wf((#[trigger] t[j]).1));
        },
        _ => {},
    }
}

/// The elements of a well-formed array tree are well formed.
pub(crate) proof fn lemma_wf_arr_elems(s: Seq<ValueView>)
    requires
        view_wf(ValueView::Array(s)),
    ensures
        forall|j: int| 0 <= j < s.len() ==> view_wf(#[trigger] s[j]),
{
    let v = ValueView::Array(s);
    match v {
        ValueView::Array(t) => {
            assert(forall|j: int| 0 <= j < t.len() ==> view_wf(#[trigger] t[j]));
        },
        _ => {},
    }
}

/// The values of a well-formed object tree are well formed.
pub(crate) proof fn lemma_wf_obj_elems(s: Seq<(Seq<char>, ValueView)>)
    requires
        view_wf(ValueView::Object(s)),
    ensures
        forall|j: int| 0 <= j < s.len() ==> view_wf((#[trigger] s[j]).1),
{
    let v = ValueView::Object(s);
    match v {
        ValueView::Object(t) => {
            assert(forall|j: int| 0 <= j < t.len() ==> view_wf((#[trigger] t[j]).1));
        },
        _ => {},
    }
}

/// Two arrays of element-wise equal documents are equal documents.
pub(crate) proof fn lemma_value_eq_arr(x: Seq<ValueView>, y: Seq<ValueView>)
    requires
        x.len() == y.len(),
        forall|j: int| 0 <= j < x.len() ==> value_eq(#[trigger] x[j], #[trigger] y[j]),
    ensures
        value_eq(ValueView::Array(x), ValueView::Array(y)),
{
    let a = ValueView::Array(x);
    let b = ValueView::Array(y);
    match (a, b) {
        (ValueView::Array(s), ValueView::Array(t)) => {
            assert(s.len() == t.len() && forall|j: int|
                0 <= j < s.len() ==> value_eq(#[trigger] s[j], #[trigger] t[j]));
        },
        _ => {},
    }
}

/// Two objects of pair-wise equal keys and equal document values are equal
/// documents.
pub(crate) proof fn lemma_value_eq_obj(
    x: Seq<(Seq<char>, ValueView)>,
    y: Seq<(Seq<char>, ValueView)>,
)
    requires
        x.len() == y.len(),
        forall|j: int|
            0 <= j < x.len() ==> (#[trigger] x[j]).0 == (#[trigger] y[j]).0 && value_eq(
                x[j].1,
                y[j].1,
            ),
    ensures
        value_eq(ValueView::Object(x), ValueView::Object(y)),
{
    let a = ValueView::Object(x);
    let b = ValueView::Object(y);
    match (a, b) {
        (ValueView::Object(s), ValueView::Object(t)) => {
            assert(s.len() == t.len() && forall|j: int|
                0 <= j < s.len() ==> (#[trigger] s[j]).0 == (#[trigger] t[j]).0 && value_eq(
                    s[j].1,
                    t[j].1,
                ));
        },
        _ => {},
    }
}

/// Canonical spelling preserves well-formedness and height, and denotes the
/// same document.
pub proof fn lemma_canon_props(v: ValueView)
    requires
        view_wf(v),
    ensures
        view_wf(canon_view(v)),
        height(canon_view(v)) == height(v),
        value_eq(canon_view(v), v),
    decreases v, 1int, 0int,
{
    match v {
        ValueView::Number(n) => {
            assert(number_eq_full(crate::number::canon_num(n), n));
        },
        ValueView::Array(s) => {
            let n = s.len() as int;
            let cs = canon_views(s, n);
            lemma_canon_views_at(s, n);
            lemma_wf_arr_elems(s);
            lemma_canon_views_props(s, n);
            lemma_wf_arr(cs);
            lemma_value_eq_arr(cs, s);
        },
        ValueView::Object(s) => {
            let n = s.len() as int;
            let cs = canon_pairs(s, n);
            lemma_canon_pairs_at(s, n);
            lemma_wf_obj_elems(s);
            lemma_canon_pairs_props(s, n);
            lemma_wf_obj(cs);
            lemma_value_eq_obj(cs, s);
        },
        _ => {},
    }
}

/// Element-wise, the canonical elements are well formed, keep their heights
/// (so the running maxima agree), and denote the same documents.
proof fn lemma_canon_views_props(s: Seq<ValueView>, i: int)
    requires
        0 <= i <= s.len(),
        forall|j: int| 0 <= j < s.len() ==> view_wf(#[trigger] s[j]),
    ensures
        forall|j: int| 0 <= j < i ==> view_wf(#[trigger] canon_views(s, s.len() as int)[j]),
        forall|j: int| 0 <= j < i ==> height(#[trigger] canon_views(s, s.len() as int)[j])
            == height(s[j]),
        forall|j: int| 0 <= j < i ==> value_eq(#[trigger] canon_views(s, s.len() as int)[j], s[j]),
        heights(canon_views(s, s.len() as int), i) == heights(s, i),
    decreases ValueView::Array(s), 0int, i,
{
    lemma_canon_views_at(s, s.len() as int);
    if i > 0 {
        lemma_canon_views_props(s, i - 1);
        lemma_arr_dec(s, i - 1);
        lemma_canon_props(s[i - 1]);
    }
}

/// Pair-wise, the canonical values are well formed, keep their heights (so
/// the running maxima agree), and denote the same documents.
proof fn lemma_canon_pairs_props(s: Seq<(Seq<char>, ValueView)>, i: int)
    requires
        0 <= i <= s.len(),
        forall|j: int| 0 <= j < s.len() ==> view_wf((#[trigger] s[j]).1),
    ensures
        forall|j: int| 0 <= j < i ==> view_wf((#[trigger] canon_pairs(s, s.len() as int)[j]).1),
        forall|j: int| 0 <= j < i ==> height((#[trigger] canon_pairs(s, s.len() as int)[j]).1)
            == height(s[j].1),
        forall|j: int| 0 <= j < i ==> value_eq(
            (#[trigger] canon_pairs(s, s.len() as int)[j]).1,
            s[j].1,
        ),
        pair_heights(canon_pairs(s, s.len() as int), i) == pair_heights(s, i),
    decreases ValueView::Object(s), 0int, i,
{
    lemma_canon_pairs_at(s, s.len() as int);
    if i > 0 {
        lemma_canon_pairs_props(s, i - 1);
        lemma_obj_dec(s, i - 1);
        lemma_canon_props(s[i - 1].1);
    }
}

/// Relies on `String::from_utf8`: it succeeds exactly on valid UTF-8 input
/// and decodes it.
#[verifier::external_body]
pub(crate) fn bytes_to_string(v: Vec<u8>) -> (r: Result<String, Error>)
    ensures
        match r {
            Ok(s) => vstd::utf8::valid_utf8(v@) && s@ == vstd::utf8::decode_utf8(v@),
            Err(e) => !vstd::utf8::valid_utf8(v@) && e is Utf8Transform,
        },
{
    match String::from_utf8(v) {
        Ok(s) => Ok(s),
        Err(_) => Err(Error::Utf8Transform),
    }
}

} // verus!
