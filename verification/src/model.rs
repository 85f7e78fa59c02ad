//! The mathematical model of a list: what every contract of the container
//! speaks of.

use vstd::prelude::*;

verus! {

/// The abstract state of a list.
///
/// Positions are counted along the chain: `0` is the front guard, `i` in
/// `1..=len` is the `i`-th element (`elems[i - 1]`) and `len + 1` is the back
/// guard.
pub struct ListModel<T> {
    /// The payloads, front to back.
    pub elems: Seq<T>,
    /// Where the edit cursor stands.
    pub cursor: int,
    /// Where the mark that drains from the front stands.
    pub forward: int,
    /// Where the mark that drains from the back stands.
    pub backward: int,
    /// Whether draining has run to completion.
    pub exhausted: bool,
}

/// Where a position lands once a node has been spliced in at position `at`.
pub open spec fn shift_for_insert(p: int, at: int) -> int {
    if p >= at {
        p + 1
    } else {
        p
    }
}

impl<T> ListModel<T> {
    /// The state of a freshly made list.
    pub open spec fn empty() -> Self {
        ListModel { elems: Seq::empty(), cursor: 0, forward: 0, backward: 1, exhausted: false }
    }

    /// The number of elements.
    pub open spec fn len(self) -> int {
        self.elems.len() as int
    }

    /// The position of the back guard.
    pub open spec fn back(self) -> int {
        self.len() + 1
    }

    /// Whether `p` is a position of the chain, guards included.
    pub open spec fn in_chain(self, p: int) -> bool {
        0 <= p <= self.back()
    }

    /// Whether `p` is the position of an element.
    pub open spec fn on_element(self, p: int) -> bool {
        1 <= p <= self.len()
    }

    /// The cursor and both marks stand on the chain.
    pub open spec fn wf(self) -> bool {
        &&& self.in_chain(self.cursor)
        &&& self.in_chain(self.forward)
        &&& self.in_chain(self.backward)
    }

    pub open spec fn is_empty(self) -> bool {
        self.len() == 0
    }

    /// A node holding `value` is spliced in so that it stands at position `at`;
    /// the cursor moves onto it, and each mark stays on the node it was on.
    pub open spec fn insert_at(self, at: int, value: T) -> Self {
        ListModel {
            elems: self.elems.insert(at - 1, value),
            cursor: at,
            forward: shift_for_insert(self.forward, at),
            backward: shift_for_insert(self.backward, at),
            exhausted: self.exhausted,
        }
    }

    /// Splice in before the node at position `target`, which is not the front
    /// guard.
    pub open spec fn insert_before(self, target: int, value: T) -> Self {
        self.insert_at(target, value)
    }

    /// Splice in after the node at position `target`, which is not the back
    /// guard.
    pub open spec fn insert_after(self, target: int, value: T) -> Self {
        self.insert_at(target + 1, value)
    }

    /// The node at position `at` is unlinked, if it is an element. The cursor
    /// moves to its former predecessor. A mark that stood on it moves on in its
    /// own direction: the forward mark to the successor, the backward mark to
    /// the predecessor. A guard is never removed.
    pub open spec fn remove_at(self, at: int) -> Self {
        if self.on_element(at) {
            ListModel {
                elems: self.elems.remove(at - 1),
                cursor: at - 1,
                forward: if self.forward > at {
                    self.forward - 1
                } else {
                    self.forward
                },
                backward: if self.backward >= at {
                    self.backward - 1
                } else {
                    self.backward
                },
                exhausted: self.exhausted,
            }
        } else {
            self
        }
    }

    /// The payload that `remove_at` hands out.
    pub open spec fn removed_at(self, at: int) -> Option<T> {
        if self.on_element(at) {
            Some(self.elems[at - 1])
        } else {
            None
        }
    }

    /// A new last element. Both marks go to it if the list was empty, else
    /// only the backward mark.
    pub open spec fn append(self, value: T) -> Self {
        let m = self.insert_before(self.back(), value);
        ListModel {
            forward: if self.is_empty() {
                m.cursor
            } else {
                m.forward
            },
            backward: m.cursor,
            ..m
        }
    }

    /// A new first element. Both marks go to it if the list was empty, else
    /// only the forward mark.
    pub open spec fn prepend(self, value: T) -> Self {
        let m = self.insert_after(0, value);
        ListModel {
            forward: m.cursor,
            backward: if self.is_empty() {
                m.cursor
            } else {
                m.backward
            },
            ..m
        }
    }

    /// A new element right after the cursor, which is not on the back guard.
    pub open spec fn insert(self, value: T) -> Self {
        self.insert_after(self.cursor, value)
    }

    /// Remove at the cursor.
    pub open spec fn remove(self) -> Self {
        self.remove_at(self.cursor)
    }

    /// The payload under the cursor is replaced by `value`; the cursor, both
    /// marks and every other element stay as they are. Nothing happens while
    /// the cursor is on a guard.
    pub open spec fn edit(self, value: T) -> Self {
        if self.on_element(self.cursor) {
            self.with_payload(value)
        } else {
            self
        }
    }

    pub open spec fn forward(self) -> Self {
        if self.cursor != self.back() {
            ListModel { cursor: self.cursor + 1, ..self }
        } else {
            self
        }
    }

    pub open spec fn backward(self) -> Self {
        if self.cursor != 0 {
            ListModel { cursor: self.cursor - 1, ..self }
        } else {
            self
        }
    }

    pub open spec fn begin(self) -> Self {
        ListModel { cursor: 0, ..self }
    }

    pub open spec fn end(self) -> Self {
        ListModel { cursor: self.back(), ..self }
    }

    /// The payload under the cursor, if the cursor is on an element.
    pub open spec fn get(self) -> Option<T> {
        self.removed_at(self.cursor)
    }

    /// The payload under the cursor is replaced, the rest stays.
    pub open spec fn with_payload(self, value: T) -> Self {
        ListModel { elems: self.elems.update(self.cursor - 1, value), ..self }
    }

    /// Whether a draw is owed an element: draining is not over and the list
    /// is not empty.
    pub open spec fn draw_owed(self) -> bool {
        !self.exhausted && !self.is_empty()
    }

    /// A draw from the front can be made: where an element is owed, the
    /// forward mark stands on one.
    pub open spec fn front_draw_defined(self) -> bool {
        self.draw_owed() ==> self.on_element(self.forward)
    }

    /// A draw from the back can be made: where an element is owed, the
    /// backward mark stands on one.
    pub open spec fn back_draw_defined(self) -> bool {
        self.draw_owed() ==> self.on_element(self.backward)
    }

    /// The state after a draw from the front: the element under the forward
    /// mark leaves, and draining is over if both marks stood on it. Nothing
    /// changes where no element is owed.
    pub open spec fn draw_front(self) -> Self {
        if self.draw_owed() {
            ListModel {
                exhausted: self.forward == self.backward,
                ..self.remove_at(self.forward)
            }
        } else {
            self
        }
    }

    /// What a draw from the front yields.
    pub open spec fn front_drawn(self) -> Option<T> {
        if self.draw_owed() {
            Some(self.elems[self.forward - 1])
        } else {
            None
        }
    }

    /// The state after a draw from the back: the element under the backward
    /// mark leaves, and draining is over if both marks stood on it. Nothing
    /// changes where no element is owed.
    pub open spec fn draw_back(self) -> Self {
        if self.draw_owed() {
            ListModel {
                exhausted: self.forward == self.backward,
                ..self.remove_at(self.backward)
            }
        } else {
            self
        }
    }

    /// What a draw from the back yields.
    pub open spec fn back_drawn(self) -> Option<T> {
        if self.draw_owed() {
            Some(self.elems[self.backward - 1])
        } else {
            None
        }
    }

    /// Draws from the front can be repeated until none is owed: each of them
    /// finds the forward mark on an element.
    pub open spec fn drain_defined(self) -> bool
        decreases self.elems.len(),
    {
        if !self.draw_owed() {
            true
        } else if self.on_element(self.forward) {
            self.draw_front().drain_defined()
        } else {
            false
        }
    }

    /// What comes out when draws from the front are repeated until none is
    /// owed.
    pub open spec fn drained(self) -> Seq<T>
        decreases self.elems.len(),
        when self.front_draw_defined()
    {
        if self.draw_owed() {
            seq![self.elems[self.forward - 1]] + self.draw_front().drained()
        } else {
            Seq::empty()
        }
    }

    /// The state in which draws from the front, repeated until none is owed,
    /// leave the list.
    pub open spec fn after_drain(self) -> Self
        decreases self.elems.len(),
        when self.front_draw_defined()
    {
        if self.draw_owed() {
            self.draw_front().after_drain()
        } else {
            self
        }
    }

    /// What is left of `chain`, a sequence with one entry for each position of
    /// the list, once each entry of a drawn element has been taken out.
    pub open spec fn drain_chain<A>(self, chain: Seq<A>) -> Seq<A>
        decreases self.elems.len(),
        when self.front_draw_defined()
    {
        if self.draw_owed() {
            self.draw_front().drain_chain(chain.remove(self.forward))
        } else {
            chain
        }
    }
}

} // verus!
