//! A doubly-linked list kept in an index arena.
//!
//! Nodes live in a growable slot array; links are slot indices, so a node
//! handle is a validated index instead of a pointer.  The virtual position
//! (before the head / after the tail) is the sentinel index [`NIL`].
//! Positional removal and insertion at a handle stay O(1), and a handle held
//! across other operations keeps naming the same node.

use vstd::pervasive::VecAdditionalExecFns;
use vstd::prelude::*;

verus! {

broadcast use vstd::std_specs::vec::axiom_spec_len;

/// Sentinel slot index that stands for "no node": the virtual position.
pub const NIL: usize = usize::MAX;

/// One cell of the arena: the payload and the two neighbour links.
pub struct Node<T> {
    prev: usize,
    next: usize,
    element: T,
}

impl<T> Node<T> {
    /// The payload the node carries.
    pub closed spec fn spec_element(&self) -> T {
        self.element
    }

    /// Creates an unlinked node around an element.
    pub fn new(element: T) -> (r: Node<T>)
        ensures
            r.spec_element() == element,
    {
        Node { prev: NIL, next: NIL, element }
    }

    /// Retrieves the member inside the node.
    pub fn into_element(self) -> (r: T)
        ensures
            r == self.spec_element(),
    {
        self.element
    }

    /// Reads the member inside the node.
    pub fn element(&self) -> (r: &T)
        ensures
            *r == self.spec_element(),
    {
        &self.element
    }
}

/// A doubly-linked list of `T`, backed by an arena of slots.
///
/// The view of a list is the sequence of its elements, front to back.
pub struct LinkedList<T> {
    slots: Vec<Option<Node<T>>>,
    head: usize,
    tail: usize,
    len: usize,
    free: Vec<usize>,
    order: Ghost<Seq<usize>>,
}

impl<T> View for LinkedList<T> {
    type V = Seq<T>;

    closed spec fn view(&self) -> Seq<T> {
        Seq::new(self.order@.len(), |k: int| self.slots@[self.order@[k] as int].unwrap().element)
    }
}

impl<T> LinkedList<T> {
    /// The slot index that holds the `k`-th element.
    pub closed spec fn slot_seq(&self) -> Seq<usize> {
        self.order@
    }

    /// The node stored in slot `s`.
    closed spec fn spec_node(&self, s: int) -> Node<T> {
        self.slots@[s].unwrap()
    }

    /// Slot `s` holds a node of this list.
    pub closed spec fn valid_slot(&self, s: int) -> bool {
        &&& 0 <= s < self.slots@.len()
        &&& self.slots@[s] is Some
    }

    /// The links of the `k`-th node agree with its position.
    closed spec fn wf_at(&self, k: int) -> bool {
        let s = self.order@[k] as int;
        &&& self.valid_slot(s)
        &&& self.spec_node(s).prev == if k == 0 { NIL } else { self.order@[k - 1] }
        &&& self.spec_node(s).next == if k == self.order@.len() - 1 { NIL } else {
            self.order@[k + 1]
        }
    }

    /// The order names distinct live slots whose links mirror it.
    closed spec fn wf_order(&self) -> bool {
        &&& forall|k: int| 0 <= k < self.order@.len() ==> #[trigger] self.wf_at(k)
        &&& forall|k1: int, k2: int|
            0 <= k1 < self.order@.len() && 0 <= k2 < self.order@.len() && k1 != k2
                ==> #[trigger] self.order@[k1] != #[trigger] self.order@[k2]
    }

    /// Every slot on the free list is empty, and no slot is listed twice.
    closed spec fn wf_free(&self) -> bool {
        &&& forall|j: int|
            0 <= j < self.free@.len()
                ==> #[trigger] self.free@[j] < self.slots@.len()
                    && self.slots@[self.free@[j] as int] is None
        &&& forall|j1: int, j2: int|
            0 <= j1 < self.free@.len() && 0 <= j2 < self.free@.len() && j1 != j2
                ==> #[trigger] self.free@[j1] != #[trigger] self.free@[j2]
    }

    /// The whole structure is consistent: every node sits in a live slot,
    /// links mirror the order, the ends agree with `head`/`tail`, the length
    /// counter is the number of nodes, and every free slot is empty.
    pub closed spec fn wf(&self) -> bool {
        &&& self.slots@.len() <= usize::MAX
        &&& self.len == self.order@.len()
        &&& self.wf_order()
        &&& self.wf_free()
        &&& self.head == if self.order@.len() == 0 { NIL } else { self.order@[0] }
        &&& self.tail == if self.order@.len() == 0 { NIL } else {
            self.order@[self.order@.len() - 1]
        }
    }

    /// The position of the node in slot `s`, meaningful when `s` is one of
    /// the list's slots.
    pub closed spec fn slot_position(&self, s: usize) -> int {
        choose|k: int| 0 <= k < self.order@.len() && self.order@[k] == s
    }

    /// Creates an empty list.
    pub fn new() -> (r: LinkedList<T>)
        ensures
            r.wf(),
            r@ == Seq::<T>::empty(),
    {
        let r = LinkedList {
            slots: Vec::new(),
            head: NIL,
            tail: NIL,
            len: 0,
            free: Vec::new(),
            order: Ghost(Seq::empty()),
        };
        proof {
            assert(r@ =~= Seq::<T>::empty());
        }
        r
    }

    /// The number of elements.
    pub fn len(&self) -> (r: usize)
        requires
            self.wf(),
        ensures
            r == self@.len(),
    {
        self.len
    }

    /// Whether the list holds no element.
    pub fn is_empty(&self) -> (r: bool)
        requires
            self.wf(),
        ensures
            r == (self@.len() == 0),
    {
        self.len == 0
    }

    /// The length never exceeds the number of slots.
    proof fn lemma_len_le_slots(&self)
        requires
            self.wf_order(),
        ensures
            self.order@.len() <= self.slots@.len(),
    {
        let m = self.order@.map_values(|x: usize| x as int);
        let s = m.to_set();
        assert(m.no_duplicates()) by {
            assert forall|k1: int, k2: int|
                0 <= k1 < m.len() && 0 <= k2 < m.len() && k1 != k2 implies m[k1] != m[k2] by {
                assert(self.order@[k1] != self.order@[k2]);
            }
        }
        m.unique_seq_to_set();
        let range = vstd::set_lib::set_int_range(0, self.slots@.len() as int);
        assert(s.subset_of(range)) by {
            assert forall|x: int| s.contains(x) implies range.contains(x) by {
                let k = choose|k: int| 0 <= k < m.len() && m[k] == x;
                assert(self.wf_at(k));
            }
        }
        vstd::set_lib::lemma_int_range(0, self.slots@.len() as int);
        vstd::set_lib::lemma_len_subset(s, range);
    }

    /// With an empty slot present, the length is strictly below the slot count.
    proof fn lemma_len_lt_slots(&self, e: usize)
        requires
            self.wf_order(),
            e < self.slots@.len(),
            self.slots@[e as int] is None,
        ensures
            self.order@.len() < self.slots@.len(),
    {
        let m = self.order@.map_values(|x: usize| x as int);
        let s = m.to_set();
        assert(m.no_duplicates()) by {
            assert forall|k1: int, k2: int|
                0 <= k1 < m.len() && 0 <= k2 < m.len() && k1 != k2 implies m[k1] != m[k2] by {
                assert(self.order@[k1] != self.order@[k2]);
            }
        }
        m.unique_seq_to_set();
        let range = vstd::set_lib::set_int_range(0, self.slots@.len() as int).remove(e as int);
        assert(s.subset_of(range)) by {
            assert forall|x: int| s.contains(x) implies range.contains(x) by {
                let k = choose|k: int| 0 <= k < m.len() && m[k] == x;
                assert(self.wf_at(k));
            }
        }
        vstd::set_lib::lemma_int_range(0, self.slots@.len() as int);
        assert(vstd::set_lib::set_int_range(0, self.slots@.len() as int).contains(e as int));
        vstd::set_lib::lemma_len_subset(s, range);
    }

    /// Puts a fresh node into an empty slot and returns that slot's index.
    ///
    /// Only the slot array and the free list change; the node is not yet
    /// linked into the order.
    fn alloc_slot(&mut self, node: Node<T>) -> (s: usize)
        requires
            old(self).wf(),
        ensures
            final(self).order@ == old(self).order@,
            final(self).head == old(self).head,
            final(self).tail == old(self).tail,
            final(self).len == old(self).len,
            s < final(self).slots@.len(),
            final(self).slots@.len() <= usize::MAX,
            final(self).slots@[s as int] == Some(node),
            !old(self).valid_slot(s as int),
            old(self).order@.len() < final(self).slots@.len(),
            old(self).slots@.len() <= final(self).slots@.len(),
            forall|t: int|
                0 <= t < final(self).slots@.len() && t != s
                    ==> #[trigger] final(self).slots@[t] == if t < old(self).slots@.len() {
                        old(self).slots@[t]
                    } else {
                        Option::<Node<T>>::None
                    },
            final(self).wf_free(),
            forall|j: int|
                0 <= j < final(self).free@.len() ==> #[trigger] final(self).free@[j] != s,
    {
        let popped = self.free.pop();
        proof {
            assert forall|k: int| 0 <= k < self.order@.len() implies #[trigger] self.wf_at(k) by {
                assert(old(self).wf_at(k));
            }
            assert(self.wf_order());
        }
        match popped {
            Some(s) => {
                proof {
                    assert(old(self).free@[old(self).free@.len() - 1] == s);
                    self.lemma_len_lt_slots(s);
                }
                self.slots.set(s, Some(node));
                proof {
                    assert forall|j: int| 0 <= j < self.free@.len() implies #[trigger] self.free@[j]
                        < self.slots@.len() && self.slots@[self.free@[j] as int] is None
                        && self.free@[j] != s by {
                        assert(old(self).free@[j] != old(self).free@[old(self).free@.len() - 1]);
                    }
                }
                s
            },
            None => {
                proof {
                    self.lemma_len_le_slots();
                }
                self.slots.push(Some(node));
                let nslots = self.slots.len();
                nslots - 1
            },
        }
    }

    /// Rewrites the `next` link of the node in slot `s`.
    fn set_next(&mut self, s: usize, next: usize)
        requires
            old(self).valid_slot(s as int),
        ensures
            final(self).slots@.len() == old(self).slots@.len(),
            final(self).slots@[s as int] == Some(
                Node {
                    next,
                    prev: old(self).spec_node(s as int).prev,
                    element: old(self).spec_node(s as int).element,
                },
            ),
            forall|t: int|
                0 <= t < final(self).slots@.len() && t != s ==> #[trigger] final(self).slots@[t]
                    == old(self).slots@[t],
            final(self).head == old(self).head,
            final(self).tail == old(self).tail,
            final(self).len == old(self).len,
            final(self).free@ == old(self).free@,
            final(self).order@ == old(self).order@,
    {
        let mut taken: Option<Node<T>> = None;
        self.slots.set_and_swap(s, &mut taken);
        match taken {
            Some(node) => {
                self.slots.set(s, Some(Node { next, prev: node.prev, element: node.element }));
            },
            None => {},
        }
    }

    /// Rewrites the `prev` link of the node in slot `s`.
    fn set_prev(&mut self, s: usize, prev: usize)
        requires
            old(self).valid_slot(s as int),
        ensures
            final(self).slots@.len() == old(self).slots@.len(),
            final(self).slots@[s as int] == Some(
                Node {
                    prev,
                    next: old(self).spec_node(s as int).next,
                    element: old(self).spec_node(s as int).element,
                },
            ),
            forall|t: int|
                0 <= t < final(self).slots@.len() && t != s ==> #[trigger] final(self).slots@[t]
                    == old(self).slots@[t],
            final(self).head == old(self).head,
            final(self).tail == old(self).tail,
            final(self).len == old(self).len,
            final(self).free@ == old(self).free@,
            final(self).order@ == old(self).order@,
    {
        let mut taken: Option<Node<T>> = None;
        self.slots.set_and_swap(s, &mut taken);
        match taken {
            Some(node) => {
                self.slots.set(s, Some(Node { prev, next: node.next, element: node.element }));
            },
            None => {},
        }
    }

    /// Appends an element at the tail.
    ///
    /// Existing handles survive: the slot sequence grows by one at the end
    /// and keeps its old entries in place.
    pub fn push_back(&mut self, value: T)
        requires
            old(self).wf(),
        ensures
            final(self).wf(),
            final(self)@ == old(self)@.push(value),
            final(self).slot_seq().len() == old(self).slot_seq().len() + 1,
            final(self).slot_seq().drop_last() == old(self).slot_seq(),
    {
        let ghost n0 = old(self).order@.len() as int;
        let old_tail = self.tail;
        let node = Node { prev: old_tail, next: NIL, element: value };
        let s = self.alloc_slot(node);
        proof {
            assert forall|k: int| 0 <= k < n0 implies old(self).order@[k] != s && #[trigger] old(
                self,
            ).valid_slot(old(self).order@[k] as int) by {
                assert(old(self).wf_at(k));
            }
        }
        if old_tail == NIL {
            self.head = s;
        } else {
            proof {
                assert(old(self).wf_at(n0 - 1));
                assert(self.order@[n0 - 1] == old_tail);
                assert(self.valid_slot(old_tail as int));
            }
            self.set_next(old_tail, s);
        }
        let cap = self.slots.len();
        proof {
            assert(self.len < cap);
        }
        self.tail = s;
        self.len = self.len + 1;
        proof {
            let ghost tailslot: usize = old(self).tail;
            if n0 >= 1 {
                assert(old(self).wf_at(n0 - 1));
                assert(tailslot == old(self).order@[n0 - 1]);
                assert(old(self).valid_slot(tailslot as int));
                assert(tailslot != s);
                assert(self.slots@[tailslot as int] == Some(
                    Node {
                        next: s,
                        prev: old(self).spec_node(tailslot as int).prev,
                        element: old(self).spec_node(tailslot as int).element,
                    },
                ));
            }
            assert(self.slots@[s as int] == Some(node));
            assert forall|t: int|
                0 <= t < old(self).slots@.len() && t != s && (n0 == 0 || t != tailslot)
                    implies #[trigger] self.slots@[t] == old(self).slots@[t] by {}
            self.order@ = self.order@.push(s);
            let n = self.order@.len() as int;
            assert(n == n0 + 1);
            assert forall|k: int| 0 <= k < n implies #[trigger] self.wf_at(k)
                && self@[k] == old(self)@.push(value)[k] by {
                assert(self.order@[k] == if k < n0 { old(self).order@[k] } else { s });
                if k < n0 - 1 {
                    assert(old(self).wf_at(k));
                    assert(old(self).order@[k] != old(self).order@[n0 - 1]);
                    assert(old(self).order@[k] != s);
                    assert(self.slots@[self.order@[k] as int] == old(self).slots@[self.order@[k]
                        as int]);
                } else if k == n0 - 1 {
                    assert(old(self).wf_at(k));
                    assert(self.order@[k] == tailslot);
                } else {
                    assert(k == n - 1 && self.order@[k] == s);
                    if n0 >= 1 {
                        assert(old(self).wf_at(n0 - 1));
                    }
                }
            }
            assert forall|k1: int, k2: int|
                0 <= k1 < n && 0 <= k2 < n && k1 != k2 implies #[trigger] self.order@[k1]
                != #[trigger] self.order@[k2] by {
                if k1 < n0 && k2 < n0 {
                    assert(old(self).order@[k1] != old(self).order@[k2]);
                }
            }
            assert forall|j: int| 0 <= j < self.free@.len() implies #[trigger] self.free@[j]
                < self.slots@.len() && self.slots@[self.free@[j] as int] is None by {
                assert(self.free@[j] != s);
                if n0 >= 1 {
                    assert(old(self).wf_at(n0 - 1));
                    assert(self.free@[j] != tailslot);
                }
            }
            assert forall|k: int| 0 <= k < self@.len() implies #[trigger] self@[k] == old(
                self,
            )@.push(value)[k] by {
                assert(self.order@[k] == if k < n0 { old(self).order@[k] } else { s });
                if k < n0 - 1 {
                    assert(old(self).wf_at(k));
                    assert(old(self).order@[k] != old(self).order@[n0 - 1]);
                    assert(old(self).order@[k] != s);
                    assert(self.slots@[self.order@[k] as int] == old(self).slots@[self.order@[k]
                        as int]);
                } else if k == n0 - 1 {
                    assert(old(self).wf_at(k));
                    assert(self.order@[k] == tailslot);
                }
            }
            assert(self@ =~= old(self)@.push(value));
            assert(self.order@.drop_last() =~= old(self).order@);
        }
    }

    /// Reads the `next` link of the node in slot `s`.
    fn node_next(&self, s: usize) -> (r: usize)
        requires
            self.valid_slot(s as int),
        ensures
            r == self.spec_node(s as int).next,
    {
        match &self.slots[s] {
            Some(node) => node.next,
            None => {
                proof {
                    assert(false);
                }
                vstd::pervasive::unreached()
            },
        }
    }

    /// Reads the element of the node in slot `s`.
    fn node_element_ref(&self, s: usize) -> (r: &T)
        requires
            self.valid_slot(s as int),
        ensures
            *r == self.spec_node(s as int).element,
    {
        match &self.slots[s] {
            Some(node) => &node.element,
            None => {
                proof {
                    assert(false);
                }
                vstd::pervasive::unreached()
            },
        }
    }

    /// Reads the `prev` link of the node in slot `s`.
    fn node_prev(&self, s: usize) -> (r: usize)
        requires
            self.valid_slot(s as int),
        ensures
            r == self.spec_node(s as int).prev,
    {
        match &self.slots[s] {
            Some(node) => node.prev,
            None => {
                proof {
                    assert(false);
                }
                vstd::pervasive::unreached()
            },
        }
    }

    /// Finds the slot of the `index`-th node, walking from whichever end of
    /// the list is closer.
    fn slot_at(&self, index: usize) -> (s: usize)
        requires
            self.wf(),
            index < self@.len(),
        ensures
            s == self.slot_seq()[index as int],
            self.valid_slot(s as int),
    {
        let len = self.len;
        let s = if index >= (len - 1) / 2 {
            let mut steps = len - 1 - index;
            let mut cur = self.tail;
            let ghost mut j: int = len - 1;
            while steps != 0
                invariant
                    self.wf(),
                    index < self@.len(),
                    j == index + steps,
                    index <= j < self@.len(),
                    cur == self.slot_seq()[j],
                decreases steps,
            {
                proof {
                    assert(self.wf_at(j));
                }
                let node_prev = self.node_prev(cur);
                cur = node_prev;
                steps = steps - 1;
                proof {
                    j = j - 1;
                }
            }
            cur
        } else {
            let mut steps = index;
            let mut cur = self.head;
            let ghost mut j: int = 0;
            while steps != 0
                invariant
                    self.wf(),
                    index < self@.len(),
                    j == index - steps,
                    0 <= j <= index,
                    cur == self.slot_seq()[j],
                decreases steps,
            {
                proof {
                    assert(self.wf_at(j));
                }
                let node_next = self.node_next(cur);
                cur = node_next;
                steps = steps - 1;
                proof {
                    j = j + 1;
                }
            }
            cur
        };
        proof {
            assert(self.wf_at(index as int));
        }
        s
    }

    /// Reads the element at a position.
    pub fn get(&self, index: usize) -> (r: &T)
        requires
            self.wf(),
            index < self@.len(),
        ensures
            *r == self@[index as int],
    {
        let s = self.slot_at(index);
        match &self.slots[s] {
            Some(node) => &node.element,
            None => {
                proof {
                    assert(false);
                }
                vstd::pervasive::unreached()
            },
        }
    }

    /// A slot that currently holds one of the list's nodes.
    pub closed spec fn slot_in_list(&self, s: usize) -> bool {
        exists|k: int| 0 <= k < self.order@.len() && self.order@[k] == s
    }

    /// The slot sequence has one entry per element.
    pub proof fn lemma_slot_seq_len(&self)
        ensures
            self.slot_seq().len() == self@.len(),
    {
    }

    /// A handle in the list names a real position: the position is within
    /// bounds, and the slot sequence holds the handle there.
    pub proof fn lemma_slot_position(&self, s: usize)
        requires
            self.wf(),
            self.slot_in_list(s),
        ensures
            0 <= self.slot_position(s) < self@.len(),
            self@.len() <= usize::MAX,
            self.slot_seq()[self.slot_position(s)] == s,
    {
        let k = choose|k: int| 0 <= k < self.order@.len() && self.order@[k] == s;
        assert(0 <= self.slot_position(s) < self.order@.len() && self.order@[self.slot_position(s)]
            == s);
    }

    /// A handle obtained at a position keeps naming that position until the
    /// list around it changes: recomputing the position of the handle of the
    /// `index`-th node gives `index` back.
    pub proof fn lemma_handle_position(&self, index: usize)
        requires
            self.wf(),
            index < self@.len(),
        ensures
            self.slot_in_list(self.slot_seq()[index as int]),
            self.slot_position(self.slot_seq()[index as int]) == index,
    {
        let s = self.order@[index as int];
        assert(self.slot_in_list(s));
        let k = self.slot_position(s);
        assert(0 <= k < self.order@.len() && self.order@[k] == s);
        if k != index {
            assert(self.order@[k] != self.order@[index as int]);
        }
    }

    /// Returns the handle of the node at a position, if the position is in
    /// range.
    pub fn get_node(&self, index: usize) -> (r: Option<usize>)
        requires
            self.wf(),
        ensures
            match r {
                Some(s) => index < self@.len() && s == self.slot_seq()[index as int]
                    && self.slot_in_list(s),
                None => index >= self@.len(),
            },
    {
        if index < self.len {
            let s = self.slot_at(index);
            proof {
                assert(self.slot_in_list(s));
            }
            Some(s)
        } else {
            None
        }
    }

    /// Reads the element of the node a handle names.
    pub fn node_element(&self, s: usize) -> (r: &T)
        requires
            self.wf(),
            self.slot_in_list(s),
        ensures
            *r == self@[self.slot_position(s)],
    {
        proof {
            let k = self.slot_position(s);
            assert(0 <= k < self.order@.len() && self.order@[k] == s);
            assert(self.wf_at(k));
        }
        match &self.slots[s] {
            Some(node) => &node.element,
            None => {
                proof {
                    assert(false);
                }
                vstd::pervasive::unreached()
            },
        }
    }

    /// Removes the node a handle names and hands its element back.
    ///
    /// Exactly the named node leaves the list; every other element keeps its
    /// relative position, and the other handles survive: the slot sequence
    /// loses exactly the removed entry.
    pub fn remove_node(&mut self, s: usize) -> (r: T)
        requires
            old(self).wf(),
            old(self).slot_in_list(s),
        ensures
            final(self).wf(),
            final(self)@ == old(self)@.remove(old(self).slot_position(s)),
            r == old(self)@[old(self).slot_position(s)],
            final(self).slot_seq() == old(self).slot_seq().remove(old(self).slot_position(s)),
    {
        proof {
            let k = old(self).slot_position(s);
            assert(0 <= k < self.order@.len() && self.order@[k] == s);
        }
        self.unlink(s)
    }

    /// Removes the element at a position and hands it back.
    ///
    /// Handles of the other nodes survive: the slot sequence loses exactly
    /// the entry at the position.
    pub fn remove(&mut self, index: usize) -> (r: T)
        requires
            old(self).wf(),
            index < old(self)@.len(),
        ensures
            final(self).wf(),
            final(self)@ == old(self)@.remove(index as int),
            r == old(self)@[index as int],
            final(self).slot_seq() == old(self).slot_seq().remove(index as int),
    {
        let s = self.slot_at(index);
        proof {
            self.lemma_handle_position(index);
        }
        self.unlink(s)
    }

    /// Pops the element at the tail.
    ///
    /// Handles of the other nodes survive: the slot sequence loses exactly
    /// its last entry.
    pub fn pop_back(&mut self) -> (r: Option<T>)
        requires
            old(self).wf(),
        ensures
            final(self).wf(),
            match r {
                Some(v) => old(self)@.len() > 0 && v == old(self)@.last() && final(self)@ == old(
                    self,
                )@.drop_last() && final(self).slot_seq() == old(self).slot_seq().drop_last(),
                None => old(self)@.len() == 0 && final(self)@ == old(self)@
                    && final(self).slot_seq() == old(self).slot_seq(),
            },
    {
        if self.len == 0 {
            return None;
        }
        let index = self.len - 1;
        let r = self.remove(index);
        proof {
            assert(final(self)@ =~= old(self)@.drop_last());
            assert(final(self).slot_seq() =~= old(self).slot_seq().drop_last());
        }
        Some(r)
    }

    /// Reads the element at the tail.
    pub fn back(&self) -> (r: Option<&T>)
        requires
            self.wf(),
        ensures
            match r {
                Some(v) => self@.len() > 0 && *v == self@.last(),
                None => self@.len() == 0,
            },
    {
        if self.len == 0 {
            None
        } else {
            Some(self.get(self.len - 1))
        }
    }

    /// Unlinks the node in slot `s` from the chain and hands its element
    /// back; the slot is put on the free list.
    fn unlink(&mut self, s: usize) -> (r: T)
        requires
            old(self).wf(),
            old(self).slot_in_list(s),
        ensures
            final(self).wf(),
            final(self)@ == old(self)@.remove(old(self).slot_position(s)),
            r == old(self)@[old(self).slot_position(s)],
            final(self).slot_seq() == old(self).slot_seq().remove(old(self).slot_position(s)),
    {
        let ghost k = old(self).slot_position(s);
        let ghost n0 = old(self).order@.len() as int;
        proof {
            assert(0 <= k < n0 && self.order@[k] == s);
            assert(self.wf_at(k));
            if k >= 1 {
                assert(self.wf_at(k - 1));
            }
            if k < n0 - 1 {
                assert(self.wf_at(k + 1));
            }
            assert forall|j: int| 0 <= j < n0 implies #[trigger] old(self).wf_at(j)
                && old(self).valid_slot(old(self).order@[j] as int) by {}
        }
        let ghost ps: usize = if k >= 1 { old(self).order@[k - 1] } else { NIL };
        let ghost ns: usize = if k < n0 - 1 { old(self).order@[k + 1] } else { NIL };
        let nslots = self.slots.len();
        proof {
            assert(s < nslots);
            if k >= 1 {
                assert(ps < nslots);
            }
            if k < n0 - 1 {
                assert(ns < nslots);
            }
        }
        let prev = self.node_prev(s);
        let next = self.node_next(s);
        proof {
            assert(prev == ps && next == ns);
            if k >= 1 {
                assert(old(self).order@[k - 1] != old(self).order@[k]);
                assert(old(self).valid_slot(ps as int));
            }
            if k < n0 - 1 {
                assert(old(self).order@[k + 1] != old(self).order@[k]);
                assert(old(self).valid_slot(ns as int));
            }
            if k >= 1 && k < n0 - 1 {
                assert(old(self).order@[k - 1] != old(self).order@[k + 1]);
            }
        }
        proof {
            assert(ps != s);
            assert(ns != s);
            assert(k >= 1 && k < n0 - 1 ==> ps != ns);
        }
        if prev == NIL {
            self.head = next;
        } else {
            self.set_next(prev, next);
        }
        let ghost mid1 = *self;
        proof {
            assert(mid1.slots@.len() == old(self).slots@.len());
            assert forall|t: int|
                0 <= t < mid1.slots@.len() && (k == 0 || t != ps)
                    implies #[trigger] mid1.slots@[t] == old(self).slots@[t] by {}
            if k >= 1 {
                assert(mid1.slots@[ps as int] == Some(
                    Node {
                        next: ns,
                        prev: old(self).spec_node(ps as int).prev,
                        element: old(self).spec_node(ps as int).element,
                    },
                ));
            }
            assert(self.valid_slot(s as int));
            if k < n0 - 1 {
                assert(self.valid_slot(ns as int));
            }
        }
        if next == NIL {
            self.tail = prev;
        } else {
            self.set_prev(next, prev);
        }
        let ghost mid2 = *self;
        proof {
            assert(mid2.slots@.len() == old(self).slots@.len());
            assert forall|t: int|
                0 <= t < mid2.slots@.len() && (k == 0 || t != ps) && (k == n0 - 1 || t != ns)
                    implies #[trigger] mid2.slots@[t] == old(self).slots@[t] by {
                assert(mid1.slots@[t] == old(self).slots@[t]);
            }
            if k >= 1 {
                assert(mid2.slots@[ps as int] == mid1.slots@[ps as int]);
            }
            if k < n0 - 1 {
                assert(mid2.slots@[ns as int] == Some(
                    Node {
                        prev: ps,
                        next: mid1.spec_node(ns as int).next,
                        element: mid1.spec_node(ns as int).element,
                    },
                ));
                assert(mid1.slots@[ns as int] == old(self).slots@[ns as int]);
            }
            assert(s < self.slots@.len());
        }
        let mut taken: Option<Node<T>> = None;
        self.slots.set_and_swap(s, &mut taken);
        self.free.push(s);
        self.len = self.len - 1;
        let ghost oldorder = old(self).order@;
        proof {
            assert(self.slots@ == mid2.slots@.update(s as int, Option::<Node<T>>::None));
            self.order@ = oldorder.remove(k);
            let n = self.order@.len() as int;
            assert(n == n0 - 1);
            // where each remaining position comes from
            assert forall|j: int| 0 <= j < n implies #[trigger] self.order@[j] == oldorder[
                if j < k {
                    j
                } else {
                    j + 1
                }
            ] by {}
            // the slot array relative to entry
            assert forall|t: int|
                0 <= t < self.slots@.len() && t != s && (k == 0 || t != ps) && (k == n0 - 1 || t
                    != ns) implies #[trigger] self.slots@[t] == old(self).slots@[t] by {
                assert(mid2.slots@[t] == old(self).slots@[t]);
            }
            assert(self.slots@[s as int] is None);
            if k >= 1 {
                assert(self.slots@[ps as int] == mid2.slots@[ps as int]);
                assert(self.slots@[ps as int] == Some(
                    Node {
                        next: ns,
                        prev: old(self).spec_node(ps as int).prev,
                        element: old(self).spec_node(ps as int).element,
                    },
                ));
            }
            if k < n0 - 1 {
                assert(self.slots@[ns as int] == mid2.slots@[ns as int]);
                assert(self.slots@[ns as int] == Some(
                    Node {
                        prev: ps,
                        next: old(self).spec_node(ns as int).next,
                        element: old(self).spec_node(ns as int).element,
                    },
                ));
            }
            assert forall|j: int| 0 <= j < n implies #[trigger] self.wf_at(j) by {
                let o = if j < k { j } else { j + 1 };
                assert(old(self).wf_at(o));
                assert(self.order@[j] == oldorder[o]);
                if j >= 1 {
                    assert(self.order@[j - 1] == oldorder[if j - 1 < k { j - 1 } else { j }]);
                }
                if j < n - 1 {
                    assert(self.order@[j + 1] == oldorder[if j + 1 < k { j + 1 } else { j + 2 }]);
                }
                if o >= 1 {
                    assert(old(self).wf_at(o - 1));
                }
                if o < n0 - 1 {
                    assert(old(self).wf_at(o + 1));
                }
                assert(oldorder[o] != s);
                if o != k - 1 && o != k + 1 {
                    assert(oldorder[o] != ps || k == 0);
                    assert(oldorder[o] != ns || k == n0 - 1);
                    assert(self.slots@[oldorder[o] as int] == old(self).slots@[oldorder[o] as int]);
                }
            }
            assert forall|k1: int, k2: int|
                0 <= k1 < n && 0 <= k2 < n && k1 != k2 implies #[trigger] self.order@[k1]
                != #[trigger] self.order@[k2] by {
                let o1 = if k1 < k { k1 } else { k1 + 1 };
                let o2 = if k2 < k { k2 } else { k2 + 1 };
                assert(oldorder[o1] != oldorder[o2]);
            }
            assert forall|j: int| 0 <= j < self.free@.len() implies #[trigger] self.free@[j]
                < self.slots@.len() && self.slots@[self.free@[j] as int] is None by {
                if j < self.free@.len() - 1 {
                    assert(old(self).free@[j] != s);
                    assert(old(self).free@[j] != ps || k == 0);
                    assert(old(self).free@[j] != ns || k == n0 - 1);
                }
            }
            assert forall|j1: int, j2: int|
                0 <= j1 < self.free@.len() && 0 <= j2 < self.free@.len() && j1 != j2
                    implies #[trigger] self.free@[j1] != #[trigger] self.free@[j2] by {
                if j1 < self.free@.len() - 1 && j2 < self.free@.len() - 1 {
                    assert(old(self).free@[j1] != old(self).free@[j2]);
                }
            }
            // head and tail
            if k == 0 {
                if n0 == 1 {
                    assert(self.head == NIL);
                } else {
                    assert(self.head == ns && self.order@[0] == oldorder[1]);
                }
            }
            if k == n0 - 1 {
                if n0 == 1 {
                    assert(self.tail == NIL);
                } else {
                    assert(self.tail == ps);
                }
            }
            assert forall|j: int| 0 <= j < self@.len() implies #[trigger] self@[j] == old(
                self,
            )@.remove(k)[j] by {
                let o = if j < k { j } else { j + 1 };
                assert(old(self).wf_at(o));
                assert(self.order@[j] == oldorder[o]);
                assert(oldorder[o] != s);
                if o != k - 1 && o != k + 1 {
                    assert(oldorder[o] != ps || k == 0);
                    assert(oldorder[o] != ns || k == n0 - 1);
                    assert(self.slots@[oldorder[o] as int] == old(self).slots@[oldorder[o] as int]);
                }
            }
            assert(self@ =~= old(self)@.remove(k));
        }
        match taken {
            Some(node) => node.element,
            None => {
                proof {
                    assert(false);
                }
                vstd::pervasive::unreached()
            },
        }
    }

    /// Replaces the element of the node a handle names, handing the old
    /// element back.  Links and positions stay as they are.
    pub fn replace_node(&mut self, s: usize, value: T) -> (r: T)
        requires
            old(self).wf(),
            old(self).slot_in_list(s),
        ensures
            final(self).wf(),
            final(self)@ == old(self)@.update(old(self).slot_position(s), value),
            r == old(self)@[old(self).slot_position(s)],
            final(self).slot_seq() == old(self).slot_seq(),
    {
        let ghost k = old(self).slot_position(s);
        proof {
            assert(0 <= k < self.order@.len() && self.order@[k] == s);
            assert(self.wf_at(k));
        }
        let mut taken: Option<Node<T>> = None;
        self.slots.set_and_swap(s, &mut taken);
        let r = match taken {
            Some(node) => {
                self.slots.set(s, Some(Node { prev: node.prev, next: node.next, element: value }));
                node.element
            },
            None => {
                proof {
                    assert(false);
                }
                vstd::pervasive::unreached()
            },
        };
        proof {
            assert forall|j: int| 0 <= j < self.order@.len() implies #[trigger] self.wf_at(j) by {
                assert(old(self).wf_at(j));
                if j != k {
                    assert(old(self).order@[j] != old(self).order@[k]);
                }
            }
            assert forall|j: int| 0 <= j < self@.len() implies #[trigger] self@[j] == old(
                self,
            )@.update(k, value)[j] by {
                assert(old(self).wf_at(j));
                if j != k {
                    assert(old(self).order@[j] != old(self).order@[k]);
                }
            }
            assert forall|j: int| 0 <= j < self.free@.len() implies #[trigger] self.free@[j]
                < self.slots@.len() && self.slots@[self.free@[j] as int] is None by {
                assert(old(self).free@[j] != s);
            }
            assert(self@ =~= old(self)@.update(k, value));
        }
        r
    }

    /// Replaces the element at a position, handing the old element back.
    /// All handles survive: the slot sequence does not change.
    pub fn replace(&mut self, index: usize, value: T) -> (r: T)
        requires
            old(self).wf(),
            index < old(self)@.len(),
        ensures
            final(self).wf(),
            final(self)@ == old(self)@.update(index as int, value),
            r == old(self)@[index as int],
            final(self).slot_seq() == old(self).slot_seq(),
    {
        let s = self.slot_at(index);
        proof {
            self.lemma_handle_position(index);
        }
        self.replace_node(s, value)
    }

    /// An iterator that starts before the first element.
    pub fn iter(&self) -> (r: Iter)
        requires
            self.wf(),
        ensures
            self.iter_wf(r),
            r.spec_index() == 0,
    {
        proof {
            if self.order@.len() > 0 {
                assert(self.wf_at(0));
            }
        }
        Iter { slot: self.head, index: 0 }
    }

    /// The iterator names the `index`-th node, or the end of this list.
    pub closed spec fn iter_wf(&self, it: Iter) -> bool {
        if it.slot == NIL {
            it.index == self.order@.len()
        } else {
            &&& it.index < self.order@.len()
            &&& self.order@[it.index as int] == it.slot
        }
    }

    /// A cursor over this list stands on its `index`-th node or on the
    /// virtual position.
    pub closed spec fn cursor_wf(&self, c: Cursor) -> bool {
        c.slot == NIL || (c.index < self.order@.len() && self.order@[c.index as int] == c.slot)
    }

    /// A cursor on the first node (or on the virtual position of an empty
    /// list).
    pub fn cursor_front(&self) -> (r: Cursor)
        requires
            self.wf(),
        ensures
            self.cursor_wf(r),
            if self@.len() == 0 {
                r.spec_at() is None
            } else {
                r.spec_at() == Some(0int)
            },
    {
        proof {
            if self.order@.len() > 0 {
                assert(self.wf_at(0));
            }
        }
        Cursor { index: 0, slot: self.head }
    }

    /// A cursor on the last node (or on the virtual position of an empty
    /// list).
    pub fn cursor_back(&self) -> (r: Cursor)
        requires
            self.wf(),
        ensures
            self.cursor_wf(r),
            if self@.len() == 0 {
                r.spec_at() is None
            } else {
                r.spec_at() == Some(self@.len() - 1)
            },
    {
        proof {
            if self.order@.len() > 0 {
                assert(self.wf_at(self.order@.len() - 1));
            }
        }
        if self.len == 0 {
            Cursor { index: 0, slot: NIL }
        } else {
            Cursor { index: self.len - 1, slot: self.tail }
        }
    }
}

/// A position while walking a list front to back.
pub struct Iter {
    slot: usize,
    index: usize,
}

impl Iter {
    /// How many elements were handed out so far.
    pub closed spec fn spec_index(&self) -> int {
        self.index as int
    }

    /// Hands out the next element, or `None` at the end of the list.
    pub fn next<'a, T>(&mut self, list: &'a LinkedList<T>) -> (r: Option<&'a T>)
        requires
            list.wf(),
            list.iter_wf(*old(self)),
        ensures
            list.iter_wf(*final(self)),
            match r {
                Some(v) => {
                    &&& old(self).spec_index() < list@.len()
                    &&& *v == list@[old(self).spec_index()]
                    &&& final(self).spec_index() == old(self).spec_index() + 1
                },
                None => {
                    &&& old(self).spec_index() == list@.len()
                    &&& *final(self) == *old(self)
                },
            },
    {
        if self.slot == NIL {
            None
        } else {
            proof {
                assert(list.wf_at(self.index as int));
                if self.index + 1 < list.order@.len() {
                    assert(list.wf_at(self.index + 1));
                }
            }
            let s = self.slot;
            self.slot = list.node_next(s);
            self.index = self.index + 1;
            let r = list.node_element_ref(s);
            Some(r)
        }
    }
}

/// A position inside a list: an index and the node under it, or the virtual
/// position off either end.
pub struct Cursor {
    index: usize,
    slot: usize,
}

impl Cursor {
    /// The position the cursor stands on, or `None` for the virtual position.
    pub closed spec fn spec_at(&self) -> Option<int> {
        if self.slot == NIL {
            None
        } else {
            Some(self.index as int)
        }
    }

    /// The handle of the node the cursor stands on.
    pub closed spec fn spec_slot(&self) -> usize {
        self.slot
    }

    /// The position the cursor points to, or `None` on the virtual position.
    pub fn index<T>(&self, list: &LinkedList<T>) -> (r: Option<usize>)
        requires
            list.wf(),
            list.cursor_wf(*self),
        ensures
            match r {
                Some(i) => self.spec_at() == Some(i as int),
                None => self.spec_at() is None,
            },
    {
        if self.slot == NIL {
            None
        } else {
            Some(self.index)
        }
    }

    /// Moves one step towards the tail; off the tail it lands on the virtual
    /// position, and from there it re-enters at the head.
    pub fn move_next<T>(&mut self, list: &LinkedList<T>)
        requires
            list.wf(),
            list.cursor_wf(*old(self)),
        ensures
            list.cursor_wf(*final(self)),
            final(self).spec_at() == match old(self).spec_at() {
                None => if list@.len() == 0 {
                    Option::<int>::None
                } else {
                    Option::<int>::Some(0int)
                },
                Some(i) => if i + 1 == list@.len() {
                    Option::<int>::None
                } else {
                    Option::<int>::Some(i + 1)
                },
            },
    {
        if self.slot == NIL {
            self.slot = list.head;
            self.index = 0;
            proof {
                if list.order@.len() > 0 {
                    assert(list.wf_at(0));
                }
            }
        } else {
            proof {
                assert(list.wf_at(self.index as int));
                if self.index + 1 < list.order@.len() {
                    assert(list.wf_at(self.index + 1));
                }
            }
            let s = self.slot;
            self.slot = list.node_next(s);
            self.index = self.index + 1;
        }
    }

    /// Moves one step towards the head; off the head it lands on the virtual
    /// position, and from there it re-enters at the tail.
    pub fn move_prev<T>(&mut self, list: &LinkedList<T>)
        requires
            list.wf(),
            list.cursor_wf(*old(self)),
        ensures
            list.cursor_wf(*final(self)),
            final(self).spec_at() == match old(self).spec_at() {
                None => if list@.len() == 0 {
                    Option::<int>::None
                } else {
                    Option::<int>::Some(list@.len() - 1)
                },
                Some(i) => if i == 0 {
                    Option::<int>::None
                } else {
                    Option::<int>::Some(i - 1)
                },
            },
    {
        if self.slot == NIL {
            self.slot = list.tail;
            self.index = if list.len == 0 {
                0
            } else {
                list.len - 1
            };
            proof {
                if list.order@.len() > 0 {
                    assert(list.wf_at(list.order@.len() - 1));
                }
            }
        } else {
            proof {
                assert(list.wf_at(self.index as int));
                if self.index >= 1 {
                    assert(list.wf_at(self.index - 1));
                }
            }
            let s = self.slot;
            self.slot = list.node_prev(s);
            self.index = if self.index == 0 {
                0
            } else {
                self.index - 1
            };
        }
    }

    /// Reads the element under the cursor.
    pub fn current<'a, T>(&self, list: &'a LinkedList<T>) -> (r: Option<&'a T>)
        requires
            list.wf(),
            list.cursor_wf(*self),
        ensures
            match r {
                Some(v) => {
                    &&& self.spec_at() is Some
                    &&& 0 <= self.spec_at().unwrap() < list@.len()
                    &&& *v == list@[self.spec_at().unwrap()]
                },
                None => self.spec_at() is None,
            },
    {
        if self.slot == NIL {
            None
        } else {
            proof {
                assert(list.wf_at(self.index as int));
            }
            Some(list.node_element_ref(self.slot))
        }
    }

    /// The handle of the node under the cursor.
    pub fn current_node<T>(&self, list: &LinkedList<T>) -> (r: Option<usize>)
        requires
            list.wf(),
            list.cursor_wf(*self),
        ensures
            match r {
                Some(s) => {
                    &&& self.spec_at() is Some
                    &&& list.slot_in_list(s)
                    &&& list.slot_position(s) == self.spec_at().unwrap()
                },
                None => self.spec_at() is None,
            },
    {
        if self.slot == NIL {
            None
        } else {
            proof {
                assert(list.wf_at(self.index as int));
                list.lemma_handle_position(self.index);
            }
            Some(self.slot)
        }
    }

    /// Removes the node under the cursor and hands its element back; the
    /// cursor advances to the node that followed, or to the virtual position
    /// when the removed node was the last.  On the virtual position nothing
    /// happens.
    pub fn remove_current<T>(&mut self, list: &mut LinkedList<T>) -> (r: Option<T>)
        requires
            old(list).wf(),
            old(list).cursor_wf(*old(self)),
        ensures
            final(list).wf(),
            final(list).cursor_wf(*final(self)),
            match r {
                Some(v) => {
                    &&& old(self).spec_at() is Some
                    &&& 0 <= old(self).spec_at().unwrap() < old(list)@.len()
                    &&& v == old(list)@[old(self).spec_at().unwrap()]
                    &&& final(list)@ == old(list)@.remove(old(self).spec_at().unwrap())
                    &&& final(list).slot_seq() == old(list).slot_seq().remove(
                        old(self).spec_at().unwrap(),
                    )
                    &&& final(self).spec_at() == (if old(self).spec_at().unwrap()
                        < final(list)@.len() {
                        Some(old(self).spec_at().unwrap())
                    } else {
                        Option::<int>::None
                    })
                },
                None => {
                    &&& old(self).spec_at() is None
                    &&& *final(list) == *old(list)
                    &&& *final(self) == *old(self)
                },
            },
    {
        if self.slot == NIL {
            return None;
        }
        let ghost i = self.index as int;
        proof {
            assert(list.wf_at(i));
            list.lemma_handle_position(self.index);
            if i + 1 < list.order@.len() {
                assert(list.wf_at(i + 1));
            }
        }
        let s = self.slot;
        let next = list.node_next(s);
        let v = list.remove_node(s);
        self.slot = next;
        proof {
            if next != NIL {
                assert(list.slot_seq()[i] == old(list).slot_seq().remove(i)[i]);
                assert(old(list).slot_seq().remove(i)[i] == old(list).slot_seq()[i + 1]);
            }
        }
        Some(v)
    }
}

impl<T> Default for LinkedList<T> {
    /// An empty list.
    fn default() -> (r: LinkedList<T>)
        ensures
            r.wf(),
            r@ == Seq::<T>::empty(),
    {
        LinkedList::new()
    }
}

} // verus!
