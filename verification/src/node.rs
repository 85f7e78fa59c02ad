//! One node of the arena.

use vstd::prelude::*;

verus! {

/// The identity of a node. Two nodes are the same node exactly if their
/// identifiers are equal; payloads play no part in it.
#[derive(Clone, Copy, Debug, PartialEq, Eq, Structural)]
pub struct NodeId(pub(crate) usize);

/// A link that leads nowhere yet.
pub closed spec fn dangling() -> NodeId {
    NodeId(usize::MAX)
}

/// A node: two links and a payload slot, which is empty in a guard and in a
/// node that is not in use.
pub(crate) struct Node<T> {
    pub(crate) next: NodeId,
    pub(crate) prev: NodeId,
    pub(crate) data: Option<T>,
}

impl<T> Node<T> {
    /// A node that holds `data` and is linked to nothing yet.
    pub(crate) fn new(data: T) -> (node: Self)
        ensures
            node.data == Some(data),
            node.next == dangling(),
            node.prev == dangling(),
    {
        Self { next: NodeId(usize::MAX), prev: NodeId(usize::MAX), data: Some(data) }
    }

    /// A node without a payload, linked to nothing yet.
    pub(crate) fn guard() -> (node: Self)
        ensures
            node.data.is_none(),
            node.next == dangling(),
            node.prev == dangling(),
    {
        Self { next: NodeId(usize::MAX), prev: NodeId(usize::MAX), data: None }
    }

    pub(crate) fn set_next(&mut self, node: NodeId)
        ensures
            final(self).next == node,
            final(self).prev == old(self).prev,
            final(self).data == old(self).data,
    {
        self.next = node
    }

    pub(crate) fn set_prev(&mut self, node: NodeId)
        ensures
            final(self).prev == node,
            final(self).next == old(self).next,
            final(self).data == old(self).data,
    {
        self.prev = node
    }

    pub(crate) fn get_next(&self) -> (node: NodeId)
        ensures
            node == self.next,
    {
        self.next
    }

    pub(crate) fn get_prev(&self) -> (node: NodeId)
        ensures
            node == self.prev,
    {
        self.prev
    }
}

} // verus!
