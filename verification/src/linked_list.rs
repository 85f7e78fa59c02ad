//! The container: an arena of nodes, the chain through it, the edit cursor and
//! the two draining marks.

use vstd::prelude::*;
use crate::laws::lemma_drain_step;
use crate::model::shift_for_insert;
use crate::model::ListModel;
use crate::node::Node;
use crate::node::NodeId;

verus! {

/// A doubly linked sequence of `T`.
///
/// The nodes stand in `slots`; a node's identifier is its index there. Slots
/// that hold no node of the chain are listed in `free` and are used again
/// before the arena grows.
pub struct LinkedList<T> {
    slots: Vec<Node<T>>,
    free: Vec<NodeId>,
    head: NodeId,
    tail: NodeId,
    current: NodeId,
    forward_iter: NodeId,
    backward_iter: NodeId,
    itered: bool,
    /// The nodes in chain order, from the front guard to the back guard.
    chain: Ghost<Seq<NodeId>>,
    /// The places of `current`, `forward_iter` and `backward_iter` in `chain`.
    cursor_at: Ghost<int>,
    forward_at: Ghost<int>,
    backward_at: Ghost<int>,
}

impl<T> View for LinkedList<T> {
    type V = ListModel<T>;

    closed spec fn view(&self) -> ListModel<T> {
        ListModel {
            elems: Seq::new(
                (self.chain@.len() - 2) as nat,
                |i: int| self.slots[self.chain@[i + 1].0 as int].data.unwrap(),
            ),
            cursor: self.cursor_at@,
            forward: self.forward_at@,
            backward: self.backward_at@,
            exhausted: self.itered,
        }
    }
}

impl<T> LinkedList<T> {
    /// The nodes of the chain in order: the front guard, the elements, the
    /// back guard.
    pub closed spec fn nodes(&self) -> Seq<NodeId> {
        self.chain@
    }

    /// The number of slots that the arena holds.
    pub closed spec fn arena_len(&self) -> nat {
        self.slots@.len()
    }

    /// The number of slots that hold no node of the chain: those of removed
    /// nodes that no insertion has used again yet.
    pub closed spec fn spare(&self) -> nat {
        self.free@.len()
    }

    /// What `spare` is after one insertion: a spare slot is used before the
    /// arena grows.
    pub open spec fn spare_after_insert(&self) -> nat {
        if self.spare() > 0 {
            (self.spare() - 1) as nat
        } else {
            0
        }
    }

    /// The node at place `i` of the chain stands in the arena, its links lead
    /// to its neighbours on the chain, and it holds a payload unless it is a
    /// guard.
    spec fn node_ok(&self, i: int) -> bool {
        let c = self.chain@;
        let node = self.slots[c[i].0 as int];
        &&& c[i].0 < self.slots.len()
        &&& i < c.len() - 1 ==> node.next == c[i + 1]
        &&& 0 < i ==> node.prev == c[i - 1]
        &&& 0 < i < c.len() - 1 ==> node.data.is_some()
    }

    /// The `k`-th free slot is in the arena and not on the chain.
    spec fn free_ok(&self, k: int) -> bool {
        &&& self.free[k].0 < self.slots.len()
        &&& !self.chain@.contains(self.free[k])
    }

    /// The chain is sound: it runs from the front guard to the back guard
    /// without meeting a node twice, next and prev links agree along it, every
    /// node between the guards holds a payload, and every slot of the arena is
    /// either on the chain or listed as free, never both.
    pub closed spec fn inv(&self) -> bool {
        let c = self.chain@;
        &&& c.len() >= 2
        &&& c[0] == self.head
        &&& c[c.len() - 1] == self.tail
        &&& c.no_duplicates()
        &&& forall|i: int| 0 <= i < c.len() ==> #[trigger] self.node_ok(i)
        &&& forall|k: int| 0 <= k < self.free.len() ==> #[trigger] self.free_ok(k)
        &&& self.free@.no_duplicates()
        &&& c.len() + self.free.len() == self.slots.len()
        &&& 0 <= self.cursor_at@ < c.len()
        &&& c[self.cursor_at@] == self.current
        &&& 0 <= self.forward_at@ < c.len()
        &&& c[self.forward_at@] == self.forward_iter
        &&& 0 <= self.backward_at@ < c.len()
        &&& c[self.backward_at@] == self.backward_iter
    }

    /// The list is sound, and its nodes and its model agree.
    pub open spec fn wf(&self) -> bool {
        &&& self.inv()
        &&& self@.wf()
        &&& self.nodes().len() == self@.len() + 2
        &&& self.nodes().no_duplicates()
        &&& self.arena_len() == self.nodes().len() + self.spare()
    }

    /// The place of `node` on the chain, for a node that is on it.
    pub open spec fn position_of(&self, node: NodeId) -> int {
        self.nodes().index_of(node)
    }

    /// Whether a new node can be put right before `target`: any node of the
    /// chain but the front guard.
    pub open spec fn admits_before(&self, target: NodeId) -> bool {
        self.nodes().contains(target) && target != self.nodes()[0]
    }

    /// Whether a new node can be put right after `target`: any node of the
    /// chain but the back guard.
    pub open spec fn admits_after(&self, target: NodeId) -> bool {
        self.nodes().contains(target) && target != self.nodes()[self@.back()]
    }

    /// The guards bound the chain. No insertion takes the front guard as the
    /// node to put something before, nor the back guard as the node to put
    /// something after, while every other node of the chain is taken; and
    /// wherever a node is put in, the front guard stays first and the back
    /// guard last.
    pub proof fn lemma_guards_bound_the_chain(&self)
        requires
            self.wf(),
        ensures
            !self.admits_before(self.nodes()[0]),
            !self.admits_after(self.nodes()[self@.back()]),
            forall|i: int| 1 <= i <= self@.back() ==> self.admits_before(#[trigger] self.nodes()[i]),
            forall|i: int| 0 <= i < self@.back() ==> self.admits_after(#[trigger] self.nodes()[i]),
            forall|at: int, id: NodeId|
                1 <= at <= self@.back() ==> (#[trigger] self.nodes().insert(at, id)).first()
                    == self.nodes().first() && self.nodes().insert(at, id).last()
                    == self.nodes().last(),
    {
        let c = self.nodes();
        assert forall|i: int| 1 <= i <= self@.back() implies self.admits_before(#[trigger] c[i]) by {
            assert(c.contains(c[i]));
        }
        assert forall|i: int| 0 <= i < self@.back() implies self.admits_after(#[trigger] c[i]) by {
            assert(c.contains(c[i]));
        }
    }

    /// On a sound list a node's place is the one index that holds it.
    pub proof fn lemma_position(&self, i: int)
        requires
            self.wf(),
            0 <= i < self.nodes().len(),
        ensures
            self.nodes().contains(self.nodes()[i]),
            self.position_of(self.nodes()[i]) == i,
    {
        let c = self.nodes();
        assert(c.contains(c[i]));
        let j = c.index_of(c[i]);
        assert(0 <= j < c.len() && c[j] == c[i]);
    }

    /// A list whose arena and chain are those of the sound list `before`, and
    /// whose cursor and marks stand on that chain, is sound.
    proof fn lemma_same_chain(&self, before: &Self)
        requires
            before.inv(),
            self.slots == before.slots,
            self.free == before.free,
            self.chain == before.chain,
            self.head == before.head,
            self.tail == before.tail,
            0 <= self.cursor_at@ < self.chain@.len(),
            self.chain@[self.cursor_at@] == self.current,
            0 <= self.forward_at@ < self.chain@.len(),
            self.chain@[self.forward_at@] == self.forward_iter,
            0 <= self.backward_at@ < self.chain@.len(),
            self.chain@[self.backward_at@] == self.backward_iter,
        ensures
            self.inv(),
            self@.elems == before@.elems,
            self.nodes() == before.nodes(),
            self.spare() == before.spare(),
            self.arena_len() == before.arena_len(),
    {
        assert forall|i: int| 0 <= i < self.chain@.len() implies #[trigger] self.node_ok(i) by {
            assert(before.node_ok(i));
        }
        assert forall|k: int| 0 <= k < self.free.len() implies #[trigger] self.free_ok(k) by {
            assert(before.free_ok(k));
        }
        assert(self@.elems =~= before@.elems);
    }

    /// The list differs from `before` only in the payload of the element at
    /// place `at`.
    spec fn payload_changed_from(&self, before: &Self, at: int) -> bool {
        let slot = before.chain@[at].0 as int;
        &&& 0 < at < before.chain@.len() - 1
        &&& self.slots.len() == before.slots.len()
        &&& forall|s: int|
            0 <= s < before.slots.len() && s != slot ==> #[trigger] self.slots[s] == before.slots[s]
        &&& self.slots[slot].next == before.slots[slot].next
        &&& self.slots[slot].prev == before.slots[slot].prev
        &&& self.slots[slot].data.is_some()
        &&& self.free == before.free
        &&& self.chain == before.chain
        &&& self.head == before.head
        &&& self.tail == before.tail
        &&& self.current == before.current
        &&& self.forward_iter == before.forward_iter
        &&& self.backward_iter == before.backward_iter
        &&& self.itered == before.itered
        &&& self.cursor_at == before.cursor_at
        &&& self.forward_at == before.forward_at
        &&& self.backward_at == before.backward_at
    }

    /// A list that differs from the sound list `before` only in the payload of
    /// the element at place `at` is sound, and its model differs in that
    /// payload alone.
    proof fn lemma_payload_changed(&self, before: &Self, at: int)
        requires
            before.inv(),
            self.payload_changed_from(before, at),
            before.cursor_at@ == at,
        ensures
            self.inv(),
            self.nodes() == before.nodes(),
            self@ == before@.with_payload(self.slots[before.chain@[at].0 as int].data.unwrap()),
    {
        let c = before.chain@;
        assert forall|i: int| 0 <= i < c.len() implies #[trigger] self.node_ok(i) by {
            assert(before.node_ok(i));
            if i != at {
                assert(c[i] != c[at]);
            }
        }
        assert forall|k: int| 0 <= k < self.free.len() implies #[trigger] self.free_ok(k) by {
            assert(before.free_ok(k));
        }
        let want = before@.elems.update(at - 1, self.slots[c[at].0 as int].data.unwrap());
        assert forall|i: int| 0 <= i < want.len() implies self@.elems[i] == want[i] by {
            assert(before.node_ok(i + 1));
            if i + 1 != at {
                assert(c[i + 1] != c[at]);
            }
        }
        assert(self@.elems =~= want);
    }

    /// An empty list: the two guards linked to each other, the cursor and the
    /// forward mark on the front guard, the backward mark on the back guard.
    pub fn new() -> (list: Self)
        ensures
            list.wf(),
            list@ == ListModel::<T>::empty(),
            list.spare() == 0,
    {
        let mut head = Node::guard();
        let mut tail = Node::guard();
        head.set_next(NodeId(1));
        tail.set_prev(NodeId(0));
        let mut slots: Vec<Node<T>> = Vec::new();
        slots.push(head);
        slots.push(tail);
        let ghost chain: Seq<NodeId> = Seq::empty().push(NodeId(0)).push(NodeId(1));
        let list = LinkedList {
            slots,
            free: Vec::new(),
            head: NodeId(0),
            tail: NodeId(1),
            current: NodeId(0),
            forward_iter: NodeId(0),
            backward_iter: NodeId(1),
            itered: false,
            chain: Ghost(chain),
            cursor_at: Ghost(0),
            forward_at: Ghost(0),
            backward_at: Ghost(1),
        };
        proof {
            assert(list@.elems =~= Seq::<T>::empty());
        }
        list
    }

    /// What the arena looks like once a node that holds `data` has been put at
    /// place `at` of the chain of `before`, in slot `id`.
    spec fn spliced_from(&self, before: &Self, at: int, id: NodeId, data: T) -> bool {
        let c = before.chain@;
        let left = c[at - 1];
        let right = c[at];
        &&& 1 <= at < c.len()
        &&& !c.contains(id)
        &&& self.head == before.head
        &&& self.tail == before.tail
        &&& self.itered == before.itered
        &&& self.current == id
        &&& self.forward_iter == before.forward_iter
        &&& self.backward_iter == before.backward_iter
        &&& self.chain@ == c.insert(at, id)
        &&& self.cursor_at@ == at
        &&& self.forward_at@ == shift_for_insert(before.forward_at@, at)
        &&& self.backward_at@ == shift_for_insert(before.backward_at@, at)
        &&& id.0 < self.slots.len()
        &&& self.slots.len() >= before.slots.len()
        &&& self.slots.len() + before.free.len() == before.slots.len() + self.free.len() + 1
        &&& self.free.len() <= before.free.len()
        &&& forall|k: int| 0 <= k < self.free.len() ==> #[trigger] self.free[k] == before.free[k]
        &&& forall|k: int| 0 <= k < self.free.len() ==> #[trigger] self.free[k] != id
        &&& self.slots[id.0 as int].next == right
        &&& self.slots[id.0 as int].prev == left
        &&& self.slots[id.0 as int].data == Some(data)
        &&& forall|s: int|
            0 <= s < before.slots.len() && s != id.0 ==> (#[trigger] self.slots[s]).data
                == before.slots[s].data
        &&& forall|s: int|
            0 <= s < before.slots.len() && s != id.0 && s != left.0 ==> (#[trigger] self.slots[s]).next
                == before.slots[s].next
        &&& forall|s: int|
            0 <= s < before.slots.len() && s != id.0 && s != right.0 ==> (#[trigger] self.slots[s]).prev
                == before.slots[s].prev
        &&& self.slots[left.0 as int].next == id
        &&& self.slots[right.0 as int].prev == id
    }

    /// Splicing a node into a sound chain leaves a sound chain.
    proof fn lemma_spliced_inv(&self, before: &Self, at: int, id: NodeId, data: T)
        requires
            before.inv(),
            self.spliced_from(before, at, id, data),
        ensures
            self.inv(),
    {
        let c = before.chain@;
        let d = self.chain@;
        assert(d.len() == c.len() + 1);
        assert(before.node_ok(at - 1) && before.node_ok(at));
        assert forall|i: int| 0 <= i < d.len() implies #[trigger] self.node_ok(i) by {
            if i < at {
                assert(before.node_ok(i));
                assert(d[i] == c[i]);
                assert(c.contains(c[i]));
                if i < at - 1 {
                    assert(c[i] != c[at - 1]);
                }
                assert(c[i] != c[at]);
            } else if i > at {
                assert(before.node_ok(i - 1));
                assert(d[i] == c[i - 1]);
                assert(c.contains(c[i - 1]));
                if i > at + 1 {
                    assert(c[i - 1] != c[at]);
                }
                assert(c[i - 1] != c[at - 1]);
            }
        }
        assert(d.no_duplicates()) by {
            assert forall|i: int, j: int| 0 <= i < d.len() && 0 <= j < d.len() && i != j implies d[i]
                != d[j] by {
                let ci = if i < at { i } else { i - 1 };
                let cj = if j < at { j } else { j - 1 };
                if i != at {
                    assert(d[i] == c[ci] && c.contains(c[ci]));
                }
                if j != at {
                    assert(d[j] == c[cj] && c.contains(c[cj]));
                }
            }
        }
        assert forall|k: int| 0 <= k < self.free.len() implies #[trigger] self.free_ok(k) by {
            assert(before.free_ok(k));
            assert(self.free[k] == before.free[k]);
            if d.contains(self.free[k]) {
                let j = d.index_of(self.free[k]);
                let cj = if j < at { j } else { j - 1 };
                assert(j != at);
                assert(d[j] == c[cj] && c.contains(c[cj]));
            }
        }
        assert(self.free@.no_duplicates()) by {
            assert forall|i: int, j: int|
                0 <= i < self.free.len() && 0 <= j < self.free.len() && i != j implies self.free[i]
                != self.free[j] by {
                assert(self.free[i] == before.free[i] && self.free[j] == before.free[j]);
            }
        }
        assert(d[0] == c[0]);
        assert(d[d.len() - 1] == c[c.len() - 1]);
        assert(d[self.forward_at@] == c[before.forward_at@]);
        assert(d[self.backward_at@] == c[before.backward_at@]);
    }

    /// Splicing a node in at place `at` puts its payload at that place of the
    /// model and moves nothing else.
    proof fn lemma_spliced_view(&self, before: &Self, at: int, id: NodeId, data: T)
        requires
            before.inv(),
            self.spliced_from(before, at, id, data),
        ensures
            self@ == before@.insert_at(at, data),
    {
        let c = before.chain@;
        let d = self.chain@;
        let want = before@.elems.insert(at - 1, data);
        assert(self@.elems.len() == want.len());
        assert forall|i: int| 0 <= i < want.len() implies self@.elems[i] == want[i] by {
            if i + 1 < at {
                assert(d[i + 1] == c[i + 1]);
                assert(c.contains(c[i + 1]));
                assert(before.node_ok(i + 1));
            } else if i + 1 > at {
                assert(d[i + 1] == c[i]);
                assert(c.contains(c[i]));
                assert(before.node_ok(i));
            } else {
                assert(d[i + 1] == id);
            }
        }
        assert(self@.elems =~= want);
    }

    /// Puts a new node that holds `data` between `left` and `right`, two
    /// neighbours on the chain, and moves the cursor onto it. `at` is the place
    /// of `right`, which becomes the place of the new node.
    fn link_between(&mut self, left: NodeId, right: NodeId, data: T, Ghost(at): Ghost<int>)
        requires
            old(self).wf(),
            1 <= at < old(self).nodes().len(),
            old(self).nodes()[at - 1] == left,
            old(self).nodes()[at] == right,
        ensures
            final(self).wf(),
            final(self)@ == old(self)@.insert_at(at, data),
            final(self).nodes() == old(self).nodes().insert(at, final(self).nodes()[at]),
            !old(self).nodes().contains(final(self).nodes()[at]),
            final(self).spare() == old(self).spare_after_insert(),
    {
        let ghost before = *self;
        let ghost c = self.chain@;
        proof {
            assert(self.node_ok(at - 1) && self.node_ok(at));
            if self.free.len() > 0 {
                assert(self.free_ok(self.free.len() - 1));
            }
        }
        let mut node = Node::new(data);
        node.set_next(right);
        node.set_prev(left);
        let new_node = if self.free.len() > 0 {
            let id = self.free.pop().unwrap();
            assert(id == before.free[before.free.len() - 1]);
            self.slots[id.0] = node;
            id
        } else {
            let id = NodeId(self.slots.len());
            self.slots.push(node);
            id
        };
        assert(!c.contains(new_node)) by {
            if c.contains(new_node) {
                let j = c.index_of(new_node);
                assert(before.node_ok(j));
            }
        }
        self.slots[left.0].set_next(new_node);
        self.slots[right.0].set_prev(new_node);
        self.current = new_node;
        self.chain = Ghost(c.insert(at, new_node));
        self.cursor_at = Ghost(at);
        self.forward_at = Ghost(shift_for_insert(self.forward_at@, at));
        self.backward_at = Ghost(shift_for_insert(self.backward_at@, at));
        proof {
            assert(self.spliced_from(&before, at, new_node, data));
            self.lemma_spliced_inv(&before, at, new_node, data);
            self.lemma_spliced_view(&before, at, new_node, data);
            assert(self.chain@[at] == new_node);
        }
    }

    /// Puts a new node that holds `data` right before `target` and moves the
    /// cursor onto it. Nothing can stand before the front guard.
    pub fn insert_before(&mut self, target: NodeId, data: T)
        requires
            old(self).wf(),
            old(self).admits_before(target),
        ensures
            final(self).wf(),
            final(self)@ == old(self)@.insert_before(old(self).position_of(target), data),
            final(self).nodes() == old(self).nodes().insert(
                old(self).position_of(target),
                final(self).nodes()[old(self).position_of(target)],
            ),
            !old(self).nodes().contains(final(self).nodes()[old(self).position_of(target)]),
            final(self).spare() == old(self).spare_after_insert(),
    {
        let ghost at = self.chain@.index_of(target);
        proof {
            assert(self.node_ok(at));
        }
        let left = self.slots[target.0].get_prev();
        self.link_between(left, target, data, Ghost(at));
    }

    /// Puts a new node that holds `data` right after `target` and moves the
    /// cursor onto it. Nothing can stand after the back guard.
    pub fn insert_after(&mut self, target: NodeId, data: T)
        requires
            old(self).wf(),
            old(self).admits_after(target),
        ensures
            final(self).wf(),
            final(self)@ == old(self)@.insert_after(old(self).position_of(target), data),
            final(self).nodes() == old(self).nodes().insert(
                old(self).position_of(target) + 1,
                final(self).nodes()[old(self).position_of(target) + 1],
            ),
            !old(self).nodes().contains(final(self).nodes()[old(self).position_of(target) + 1]),
            final(self).spare() == old(self).spare_after_insert(),
    {
        let ghost at = self.chain@.index_of(target);
        proof {
            assert(self.node_ok(at));
        }
        let right = self.slots[target.0].get_next();
        self.link_between(target, right, data, Ghost(at + 1));
    }

    /// What the arena looks like once the node at place `at` of the chain of
    /// `before`, an element, has been unlinked and its slot given back.
    spec fn unlinked_from(&self, before: &Self, at: int) -> bool {
        let c = before.chain@;
        let left = c[at - 1];
        let gone = c[at];
        let right = c[at + 1];
        &&& 0 < at < c.len() - 1
        &&& self.head == before.head
        &&& self.tail == before.tail
        &&& self.itered == before.itered
        &&& self.current == left
        &&& self.forward_iter == (if before.forward_iter == gone {
            right
        } else {
            before.forward_iter
        })
        &&& self.backward_iter == (if before.backward_iter == gone {
            left
        } else {
            before.backward_iter
        })
        &&& self.chain@ == c.remove(at)
        &&& self.cursor_at@ == at - 1
        &&& self.forward_at@ == before@.remove_at(at).forward
        &&& self.backward_at@ == before@.remove_at(at).backward
        &&& self.slots.len() == before.slots.len()
        &&& self.free@ == before.free@.push(gone)
        &&& forall|s: int|
            0 <= s < before.slots.len() && s != gone.0 ==> (#[trigger] self.slots[s]).data
                == before.slots[s].data
        &&& forall|s: int|
            0 <= s < before.slots.len() && s != gone.0 && s != left.0 ==> (#[trigger] self.slots[s]).next
                == before.slots[s].next
        &&& forall|s: int|
            0 <= s < before.slots.len() && s != gone.0 && s != right.0 ==> (#[trigger] self.slots[s]).prev
                == before.slots[s].prev
        &&& self.slots[left.0 as int].next == right
        &&& self.slots[left.0 as int].prev == before.slots[left.0 as int].prev
        &&& self.slots[right.0 as int].prev == left
        &&& self.slots[right.0 as int].next == before.slots[right.0 as int].next
    }

    /// Unlinking an element from a sound chain leaves a sound chain.
    proof fn lemma_unlinked_inv(&self, before: &Self, at: int)
        requires
            before.inv(),
            self.unlinked_from(before, at),
        ensures
            self.inv(),
    {
        let c = before.chain@;
        let d = self.chain@;
        assert(d.len() == c.len() - 1);
        assert(before.node_ok(at - 1) && before.node_ok(at) && before.node_ok(at + 1));
        assert(c[at - 1] != c[at] && c[at + 1] != c[at] && c[at - 1] != c[at + 1]);
        assert forall|i: int| 0 <= i < d.len() implies #[trigger] self.node_ok(i) by {
            if i < at {
                assert(before.node_ok(i));
                assert(d[i] == c[i]);
                assert(c[i] != c[at] && c[i] != c[at + 1]);
                if i < at - 1 {
                    assert(c[i] != c[at - 1]);
                    assert(d[i + 1] == c[i + 1]);
                }
            } else {
                assert(before.node_ok(i + 1));
                assert(d[i] == c[i + 1]);
                assert(c[i + 1] != c[at] && c[i + 1] != c[at - 1]);
                if i > at {
                    assert(c[i + 1] != c[at + 1]);
                    assert(d[i - 1] == c[i]);
                }
            }
        }
        assert(d.no_duplicates()) by {
            assert forall|i: int, j: int| 0 <= i < d.len() && 0 <= j < d.len() && i != j implies d[i]
                != d[j] by {
                let ci = if i < at { i } else { i + 1 };
                let cj = if j < at { j } else { j + 1 };
                assert(d[i] == c[ci] && d[j] == c[cj]);
            }
        }
        assert forall|k: int| 0 <= k < self.free.len() implies #[trigger] self.free_ok(k) by {
            if k < before.free.len() {
                assert(before.free_ok(k));
                assert(self.free[k] == before.free[k]);
            } else {
                assert(self.free[k] == c[at]);
            }
            if d.contains(self.free[k]) {
                let j = d.index_of(self.free[k]);
                let cj = if j < at { j } else { j + 1 };
                assert(d[j] == c[cj] && c.contains(c[cj]));
            }
        }
        assert(self.free@.no_duplicates()) by {
            assert forall|i: int, j: int|
                0 <= i < self.free.len() && 0 <= j < self.free.len() && i != j implies self.free[i]
                != self.free[j] by {
                if i < before.free.len() {
                    assert(before.free_ok(i));
                }
                if j < before.free.len() {
                    assert(before.free_ok(j));
                }
                assert(c.contains(c[at]));
            }
        }
        let f = before.forward_at@;
        let b = before.backward_at@;
        assert(d[self.forward_at@] == self.forward_iter) by {
            if f > at {
                assert(c[f] != c[at]);
            } else if f < at {
                assert(c[f] != c[at]);
            }
        }
        assert(d[self.backward_at@] == self.backward_iter) by {
            if b > at {
                assert(c[b] != c[at]);
            } else if b < at {
                assert(c[b] != c[at]);
            }
        }
    }

    /// Unlinking the element at place `at` takes its payload out of the model
    /// and moves nothing else.
    proof fn lemma_unlinked_view(&self, before: &Self, at: int)
        requires
            before.inv(),
            self.unlinked_from(before, at),
        ensures
            self@ == before@.remove_at(at),
    {
        let c = before.chain@;
        let d = self.chain@;
        let want = before@.elems.remove(at - 1);
        assert(self@.elems.len() == want.len());
        assert forall|i: int| 0 <= i < want.len() implies self@.elems[i] == want[i] by {
            if i + 1 < at {
                assert(d[i + 1] == c[i + 1]);
                assert(before.node_ok(i + 1));
                assert(c[i + 1] != c[at]);
            } else {
                assert(d[i + 1] == c[i + 2]);
                assert(before.node_ok(i + 2));
                assert(c[i + 2] != c[at]);
            }
        }
        assert(self@.elems =~= want);
    }

    /// Unlinks `node` unless it is a guard, moves the cursor to its former
    /// predecessor and hands out its payload. A mark that stood on the node
    /// moves on in its own direction.
    pub fn remove_node(&mut self, node: NodeId) -> (out: Option<T>)
        requires
            old(self).wf(),
            old(self).nodes().contains(node),
        ensures
            final(self).wf(),
            final(self)@ == old(self)@.remove_at(old(self).position_of(node)),
            out == old(self)@.removed_at(old(self).position_of(node)),
            final(self).nodes() == (if old(self)@.on_element(old(self).position_of(node)) {
                old(self).nodes().remove(old(self).position_of(node))
            } else {
                old(self).nodes()
            }),
            final(self).spare() == (if old(self)@.on_element(old(self).position_of(node)) {
                old(self).spare() + 1
            } else {
                old(self).spare()
            }),
    {
        let ghost before = *self;
        let ghost c = self.chain@;
        let ghost at = c.index_of(node);
        if node != self.tail && node != self.head {
            proof {
                assert(self.node_ok(at - 1) && self.node_ok(at) && self.node_ok(at + 1));
                assert(c[at - 1] != c[at] && c[at + 1] != c[at] && c[at - 1] != c[at + 1]);
            }
            let prev = self.slots[node.0].get_prev();
            let next = self.slots[node.0].get_next();
            let data = self.slots[node.0].data.take();
            self.slots[prev.0].set_next(next);
            self.slots[next.0].set_prev(prev);
            self.current = prev;
            if self.forward_iter == node {
                self.forward_iter = next;
            }
            if self.backward_iter == node {
                self.backward_iter = prev;
            }
            self.free.push(node);
            self.chain = Ghost(c.remove(at));
            self.cursor_at = Ghost(at - 1);
            self.forward_at = Ghost(before@.remove_at(at).forward);
            self.backward_at = Ghost(before@.remove_at(at).backward);
            proof {
                assert(self.unlinked_from(&before, at));
                self.lemma_unlinked_inv(&before, at);
                self.lemma_unlinked_view(&before, at);
            }
            data
        } else {
            None
        }
    }

    /// Removes the node under the cursor, unless that is a guard, and hands
    /// out its payload. The cursor moves to the former predecessor.
    pub fn remove(&mut self) -> (out: Option<T>)
        requires
            old(self).wf(),
        ensures
            final(self).wf(),
            final(self)@ == old(self)@.remove(),
            out == old(self)@.get(),
            final(self).nodes() == (if old(self)@.on_element(old(self)@.cursor) {
                old(self).nodes().remove(old(self)@.cursor)
            } else {
                old(self).nodes()
            }),
            final(self).spare() == (if old(self)@.on_element(old(self)@.cursor) {
                old(self).spare() + 1
            } else {
                old(self).spare()
            }),
    {
        proof {
            self.lemma_position(self.cursor_at@);
        }
        self.remove_node(self.current)
    }

    /// Puts `data` in front of all elements and moves the cursor onto it. The
    /// forward mark goes to the new element, and so does the backward mark if
    /// the list was empty.
    pub fn prepend(&mut self, data: T)
        requires
            old(self).wf(),
        ensures
            final(self).wf(),
            final(self)@ == old(self)@.prepend(data),
            final(self).nodes() == old(self).nodes().insert(1, final(self).nodes()[1]),
            !old(self).nodes().contains(final(self).nodes()[1]),
            final(self).spare() == old(self).spare_after_insert(),
    {
        let was_empty = self.is_empty();
        proof {
            self.lemma_position(0);
        }
        self.insert_after(self.head, data);
        let ghost mid = *self;
        if was_empty {
            self.backward_iter = self.current;
            self.backward_at = self.cursor_at;
        }
        self.forward_iter = self.current;
        self.forward_at = self.cursor_at;
        proof {
            self.lemma_same_chain(&mid);
        }
    }

    /// Puts `data` right after the cursor and moves the cursor onto it. The
    /// cursor must not stand on the back guard.
    pub fn insert(&mut self, data: T)
        requires
            old(self).wf(),
            old(self)@.cursor != old(self)@.back(),
        ensures
            final(self).wf(),
            final(self)@ == old(self)@.insert(data),
            final(self).nodes() == old(self).nodes().insert(
                old(self)@.cursor + 1,
                final(self).nodes()[old(self)@.cursor + 1],
            ),
            !old(self).nodes().contains(final(self).nodes()[old(self)@.cursor + 1]),
            final(self).spare() == old(self).spare_after_insert(),
    {
        proof {
            self.lemma_position(self.cursor_at@);
        }
        self.insert_after(self.current, data);
    }

    /// Puts `data` behind all elements and moves the cursor onto it. The
    /// backward mark goes to the new element, and so does the forward mark if
    /// the list was empty.
    pub fn append(&mut self, data: T)
        requires
            old(self).wf(),
        ensures
            final(self).wf(),
            final(self)@ == old(self)@.append(data),
            final(self).nodes() == old(self).nodes().insert(
                old(self)@.back(),
                final(self).nodes()[old(self)@.back()],
            ),
            !old(self).nodes().contains(final(self).nodes()[old(self)@.back()]),
            final(self).spare() == old(self).spare_after_insert(),
    {
        let was_empty = self.is_empty();
        proof {
            self.lemma_position(self.chain@.len() - 1);
        }
        self.insert_before(self.tail, data);
        let ghost mid = *self;
        if was_empty {
            self.forward_iter = self.current;
            self.forward_at = self.cursor_at;
        }
        self.backward_iter = self.current;
        self.backward_at = self.cursor_at;
        proof {
            self.lemma_same_chain(&mid);
        }
    }

    /// Replaces the payload under the cursor by `data`: the node there is
    /// removed and a new one put in its place, under the cursor again, and a
    /// mark that stood on the old node stands on the new one. All other
    /// elements keep their places. Nothing happens while the cursor stands on
    /// a guard.
    pub fn edit(&mut self, data: T)
        requires
            old(self).wf(),
        ensures
            final(self).wf(),
            final(self)@ == old(self)@.edit(data),
            old(self)@.on_element(old(self)@.cursor) ==> final(self).nodes() == old(
                self,
            ).nodes().update(old(self)@.cursor, final(self).nodes()[old(self)@.cursor]),
            !old(self)@.on_element(old(self)@.cursor) ==> final(self).nodes() == old(self).nodes(),
            final(self).spare() == old(self).spare(),
    {
        if self.current != self.tail && self.current != self.head {
            let forward_here = self.forward_iter == self.current;
            let backward_here = self.backward_iter == self.current;
            self.remove();
            self.insert(data);
            let ghost mid = *self;
            if forward_here {
                self.forward_iter = self.current;
                self.forward_at = self.cursor_at;
            }
            if backward_here {
                self.backward_iter = self.current;
                self.backward_at = self.cursor_at;
            }
            proof {
                let at = old(self)@.cursor;
                self.lemma_same_chain(&mid);
                assert(self@.elems =~= old(self)@.elems.update(at - 1, data));
                assert(self.nodes() =~= old(self).nodes().update(at, self.nodes()[at]));
            }
        }
    }

    /// The payload under the cursor, or nothing while the cursor stands on a
    /// guard.
    pub fn get(&self) -> (out: Option<&T>)
        requires
            self.wf(),
        ensures
            match out {
                Some(payload) => self@.get() == Some(*payload),
                None => self@.get().is_none(),
            },
    {
        proof {
            self.lemma_position(self.cursor_at@);
            assert(self.node_ok(self.cursor_at@));
        }
        if self.current == self.head || self.current == self.tail {
            None
        } else {
            self.slots[self.current.0].data.as_ref()
        }
    }

    /// The payload under the cursor, to be changed in place, or nothing while
    /// the cursor stands on a guard. What the caller writes becomes the
    /// payload at that place; nothing else changes.
    pub fn get_mut(&mut self) -> (out: Option<&mut T>)
        requires
            old(self).wf(),
        ensures
            final(self).wf(),
            final(self).nodes() == old(self).nodes(),
            final(self).spare() == old(self).spare(),
            match out {
                Some(payload) => old(self)@.get() == Some(*payload) && final(self)@ == old(
                    self,
                )@.with_payload(*final(payload)),
                None => old(self)@.get().is_none() && final(self)@ == old(self)@,
            },
    {
        proof {
            self.lemma_position(self.cursor_at@);
            assert(self.node_ok(self.cursor_at@));
        }
        if self.current == self.head || self.current == self.tail {
            None
        } else {
            proof {
                let before = *self;
                let at = self.cursor_at@;
                assert forall|after: Self| after.payload_changed_from(&before, at) implies #[trigger] after.inv()
                    && after.nodes() == before.nodes() && after.spare() == before.spare()
                    && after.arena_len() == before.arena_len() && after@ == before@.with_payload(
                    after.slots[before.chain@[at].0 as int].data.unwrap(),
                ) by {
                    after.lemma_payload_changed(&before, at);
                }
            }
            self.slots[self.current.0].data.as_mut()
        }
    }

    /// Yields the element under the forward mark and removes it from the
    /// list, or yields nothing once draining is over or while the list is
    /// empty. Draining is over after the draw on which both marks stood on the
    /// same element. Where an element is owed, the forward mark must stand on
    /// one.
    pub fn next(&mut self) -> (out: Option<T>)
        requires
            old(self).wf(),
            old(self)@.front_draw_defined(),
        ensures
            final(self).wf(),
            final(self)@ == old(self)@.draw_front(),
            out == old(self)@.front_drawn(),
            out.is_some() == old(self)@.draw_owed(),
            final(self).nodes() == (if old(self)@.draw_owed() {
                old(self).nodes().remove(old(self)@.forward)
            } else {
                old(self).nodes()
            }),
            final(self).spare() == (if old(self)@.draw_owed() {
                old(self).spare() + 1
            } else {
                old(self).spare()
            }),
    {
        proof {
            self.lemma_position(self.forward_at@);
        }
        if self.itered || self.is_empty() {
            None
        } else {
            if self.backward_iter == self.forward_iter {
                self.itered = true;
            }
            proof {
                self.lemma_same_chain(old(self));
            }
            self.remove_node(self.forward_iter)
        }
    }

    /// Yields the element under the backward mark and removes it from the
    /// list, or yields nothing once draining is over or while the list is
    /// empty. Draining is over after the draw on which both marks stood on the
    /// same element. Where an element is owed, the backward mark must stand on
    /// one.
    pub fn next_back(&mut self) -> (out: Option<T>)
        requires
            old(self).wf(),
            old(self)@.back_draw_defined(),
        ensures
            final(self).wf(),
            final(self)@ == old(self)@.draw_back(),
            out == old(self)@.back_drawn(),
            out.is_some() == old(self)@.draw_owed(),
            final(self).nodes() == (if old(self)@.draw_owed() {
                old(self).nodes().remove(old(self)@.backward)
            } else {
                old(self).nodes()
            }),
            final(self).spare() == (if old(self)@.draw_owed() {
                old(self).spare() + 1
            } else {
                old(self).spare()
            }),
    {
        proof {
            self.lemma_position(self.backward_at@);
        }
        if self.itered || self.is_empty() {
            None
        } else {
            if self.backward_iter == self.forward_iter {
                self.itered = true;
            }
            proof {
                self.lemma_same_chain(old(self));
            }
            self.remove_node(self.backward_iter)
        }
    }

    /// Draws from the front until no element is owed, and hands out what
    /// came, in the order in which it came. Each of the draws must find the
    /// forward mark on an element.
    pub fn drain(&mut self) -> (out: Vec<T>)
        requires
            old(self).wf(),
            old(self)@.drain_defined(),
        ensures
            final(self).wf(),
            out@ == old(self)@.drained(),
            final(self)@ == old(self)@.after_drain(),
            !final(self)@.draw_owed(),
            final(self).nodes() == old(self)@.drain_chain(old(self).nodes()),
            final(self).spare() == old(self).spare() + out@.len(),
    {
        let mut out: Vec<T> = Vec::new();
        loop
            invariant
                self.wf(),
                old(self)@.drain_defined(),
                self@.drain_defined(),
                old(self)@.drained() == out@ + self@.drained(),
                old(self)@.after_drain() == self@.after_drain(),
                old(self)@.drain_chain(old(self).nodes()) == self@.drain_chain(self.nodes()),
                self.spare() == old(self).spare() + out@.len(),
            decreases self@.elems.len(),
        {
            let ghost before = self@;
            proof {
                lemma_drain_step(before, self.nodes());
            }
            match self.next() {
                Some(value) => {
                    proof {
                        assert(out@.push(value) + self@.drained() =~= out@ + before.drained());
                    }
                    out.push(value);
                },
                None => {
                    proof {
                        assert(out@ + self@.drained() =~= out@);
                    }
                    return out;
                },
            }
        }
    }

    /// The payloads from front to back, read along the next links from the
    /// front guard to the back guard. The list is left as it is.
    pub fn elements(&self) -> (out: Vec<&T>)
        requires
            self.wf(),
        ensures
            out@.len() == self@.len(),
            forall|i: int| 0 <= i < out@.len() ==> *#[trigger] out@[i] == self@.elems[i],
    {
        let mut out: Vec<&T> = Vec::new();
        proof {
            assert(self.node_ok(0));
        }
        let mut node = self.slots[self.head.0].get_next();
        let ghost mut at: int = 1;
        while node != self.tail
            invariant
                self.inv(),
                1 <= at < self.chain@.len(),
                self.chain@[at] == node,
                out@.len() == at - 1,
                forall|i: int| 0 <= i < out@.len() ==> *#[trigger] out@[i] == self@.elems[i],
            decreases self.chain@.len() - at,
        {
            proof {
                assert(self.node_ok(at));
            }
            let payload = self.slots[node.0].data.as_ref().unwrap();
            out.push(payload);
            node = self.slots[node.0].get_next();
            proof {
                at = at + 1;
            }
        }
        out
    }

    /// The front guard.
    pub fn front_guard(&self) -> (node: NodeId)
        requires
            self.wf(),
        ensures
            node == self.nodes()[0],
    {
        self.head
    }

    /// The back guard.
    pub fn back_guard(&self) -> (node: NodeId)
        requires
            self.wf(),
        ensures
            node == self.nodes()[self@.back()],
    {
        self.tail
    }

    /// The node under the cursor.
    pub fn cursor(&self) -> (node: NodeId)
        requires
            self.wf(),
        ensures
            node == self.nodes()[self@.cursor],
    {
        self.current
    }

    /// Whether the list holds no element: the front guard's next link leads
    /// straight to the back guard.
    pub fn is_empty(&self) -> (empty: bool)
        requires
            self.wf(),
        ensures
            empty == self@.is_empty(),
    {
        proof {
            assert(self.node_ok(0));
        }
        self.slots[self.head.0].get_next() == self.tail
    }

    /// Moves the cursor one node on, unless it stands on the back guard.
    pub fn forward(&mut self)
        requires
            old(self).wf(),
        ensures
            final(self).wf(),
            final(self)@ == old(self)@.forward(),
            final(self).nodes() == old(self).nodes(),
            final(self).spare() == old(self).spare(),
    {
        proof {
            assert(self.node_ok(self.cursor_at@));
        }
        if self.current != self.tail {
            self.current = self.slots[self.current.0].get_next();
            self.cursor_at = Ghost(self.cursor_at@ + 1);
        }
        proof {
            self.lemma_same_chain(old(self));
        }
    }

    /// Moves the cursor one node back, unless it stands on the front guard.
    pub fn backward(&mut self)
        requires
            old(self).wf(),
        ensures
            final(self).wf(),
            final(self)@ == old(self)@.backward(),
            final(self).nodes() == old(self).nodes(),
            final(self).spare() == old(self).spare(),
    {
        proof {
            assert(self.node_ok(self.cursor_at@));
        }
        if self.current != self.head {
            self.current = self.slots[self.current.0].get_prev();
            self.cursor_at = Ghost(self.cursor_at@ - 1);
        }
        proof {
            self.lemma_same_chain(old(self));
        }
    }

    /// Puts the cursor on the front guard, before all elements.
    pub fn begin(&mut self)
        requires
            old(self).wf(),
        ensures
            final(self).wf(),
            final(self)@ == old(self)@.begin(),
            final(self).nodes() == old(self).nodes(),
            final(self).spare() == old(self).spare(),
    {
        self.current = self.head;
        self.cursor_at = Ghost(0);
        proof {
            self.lemma_same_chain(old(self));
        }
    }

    /// Puts the cursor on the back guard, after all elements.
    pub fn end(&mut self)
        requires
            old(self).wf(),
        ensures
            final(self).wf(),
            final(self)@ == old(self)@.end(),
            final(self).nodes() == old(self).nodes(),
            final(self).spare() == old(self).spare(),
    {
        self.current = self.tail;
        self.cursor_at = Ghost(self.chain@.len() - 1);
        proof {
            self.lemma_same_chain(old(self));
        }
    }
}

} // verus!
