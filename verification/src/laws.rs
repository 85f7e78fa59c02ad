//! What holds of every list, stated over the model and proved.

use vstd::prelude::*;
use crate::model::ListModel;

verus! {

/// One insertion at an end of a list.
pub enum Placement<T> {
    /// In front of all elements.
    Front(T),
    /// Behind all elements.
    Back(T),
}

/// The order in which elements stand after the placements `steps`, made one
/// after the other on an empty list: what was put in front stands before all
/// that was there, what was put behind stands after it.
pub open spec fn placed_order<T>(steps: Seq<Placement<T>>) -> Seq<T>
    decreases steps.len(),
{
    if steps.len() == 0 {
        Seq::empty()
    } else {
        match steps.last() {
            Placement::Front(value) => seq![value] + placed_order(steps.drop_last()),
            Placement::Back(value) => placed_order(steps.drop_last()).push(value),
        }
    }
}

impl<T> ListModel<T> {
    /// The marks stand where draining starts: the list is empty, or draining
    /// is not over and the forward mark is on the first element and the
    /// backward mark on the last.
    pub open spec fn marks_at_ends(self) -> bool {
        &&& self.wf()
        &&& self.is_empty() || (!self.exhausted && self.forward == 1 && self.backward
            == self.len())
    }

    /// `values` appended one after the other.
    pub open spec fn append_all(self, values: Seq<T>) -> Self
        decreases values.len(),
    {
        if values.len() == 0 {
            self
        } else {
            self.append_all(values.drop_last()).append(values.last())
        }
    }

    /// One placement made.
    pub open spec fn place(self, step: Placement<T>) -> Self {
        match step {
            Placement::Front(value) => self.prepend(value),
            Placement::Back(value) => self.append(value),
        }
    }

    /// The placements `steps` made one after the other.
    pub open spec fn place_all(self, steps: Seq<Placement<T>>) -> Self
        decreases steps.len(),
    {
        if steps.len() == 0 {
            self
        } else {
            self.place_all(steps.drop_last()).place(steps.last())
        }
    }

    /// The state after one draw, from the front or from the back.
    pub open spec fn draw(self, from_front: bool) -> Self {
        if from_front {
            self.draw_front()
        } else {
            self.draw_back()
        }
    }

    /// What one draw yields, from the front or from the back.
    pub open spec fn drawn(self, from_front: bool) -> Option<T> {
        if from_front {
            self.front_drawn()
        } else {
            self.back_drawn()
        }
    }

    /// One draw can be made, from the front or from the back.
    pub open spec fn draw_defined(self, from_front: bool) -> bool {
        if from_front {
            self.front_draw_defined()
        } else {
            self.back_draw_defined()
        }
    }

    /// Each of the draws of `draw_all` can be made.
    pub open spec fn draws_defined(self, picks: Seq<bool>) -> bool
        decreases picks.len(),
    {
        if picks.len() == 0 {
            true
        } else {
            self.draw_defined(picks.first()) && self.draw(picks.first()).draws_defined(
                picks.drop_first(),
            )
        }
    }

    /// The state after one draw for each entry of `picks`, in their order,
    /// from the front where the entry is `true`.
    pub open spec fn draw_all(self, picks: Seq<bool>) -> Self
        decreases picks.len(),
    {
        if picks.len() == 0 {
            self
        } else {
            self.draw(picks.first()).draw_all(picks.drop_first())
        }
    }

    /// What the draws of `draw_all` yield, in their order.
    pub open spec fn drawn_all(self, picks: Seq<bool>) -> Seq<Option<T>>
        decreases picks.len(),
    {
        if picks.len() == 0 {
            Seq::empty()
        } else {
            seq![self.drawn(picks.first())] + self.draw(picks.first()).drawn_all(
                picks.drop_first(),
            )
        }
    }
}

/// Every operation of the model keeps the cursor and the marks on the chain.
pub proof fn lemma_steps_keep_wf<T>(m: ListModel<T>, value: T, at: int)
    requires
        m.wf(),
    ensures
        1 <= at <= m.back() ==> m.insert_at(at, value).wf(),
        m.remove_at(at).wf(),
        m.append(value).wf(),
        m.prepend(value).wf(),
        m.cursor != m.back() ==> m.insert(value).wf(),
        m.remove().wf(),
        m.edit(value).wf(),
        m.forward().wf(),
        m.backward().wf(),
        m.begin().wf(),
        m.end().wf(),
        m.draw_front().wf(),
        m.draw_back().wf(),
{
}

/// An appended element is the last one and a prepended element the first one;
/// the elements that were there keep their order.
pub proof fn lemma_ends<T>(m: ListModel<T>, value: T)
    ensures
        m.append(value).elems == m.elems.push(value),
        m.prepend(value).elems == seq![value] + m.elems,
{
    assert(m.append(value).elems =~= m.elems.push(value));
    assert(m.prepend(value).elems =~= seq![value] + m.elems);
}

/// Placing an element at either end of a list whose marks stand at the ends
/// leaves them at the ends.
pub proof fn lemma_place_keeps_marks<T>(m: ListModel<T>, step: Placement<T>)
    requires
        m.marks_at_ends(),
        !m.exhausted,
    ensures
        m.place(step).marks_at_ends(),
        !m.place(step).exhausted,
        !m.place(step).is_empty(),
{
}

/// One draw from either end of a list that is not empty and whose marks stand
/// at the ends yields the element at that end, removes it and nothing else,
/// and leaves the marks at the ends of what remains.
pub proof fn lemma_draw_at_ends<T>(m: ListModel<T>, from_front: bool)
    requires
        m.marks_at_ends(),
        !m.is_empty(),
    ensures
        m.draw_defined(from_front),
        m.drawn(from_front) == Some(
            if from_front {
                m.elems.first()
            } else {
                m.elems.last()
            },
        ),
        m.draw(from_front).elems == (if from_front {
            m.elems.drop_first()
        } else {
            m.elems.drop_last()
        }),
        m.draw(from_front).marks_at_ends(),
{
    if from_front {
        assert(m.draw_front().elems =~= m.elems.drop_first());
    } else {
        assert(m.draw_back().elems =~= m.elems.drop_last());
    }
}

/// One step of draining: where an element is owed, the drain is one draw
/// from the front followed by the drain of what that draw leaves; where none
/// is owed, nothing comes out and nothing changes.
pub proof fn lemma_drain_step<T, A>(m: ListModel<T>, chain: Seq<A>)
    requires
        m.drain_defined(),
    ensures
        m.front_draw_defined(),
        m.draw_front().drain_defined(),
        m.draw_front().front_draw_defined(),
        m.draw_owed() ==> m.drained() == seq![m.elems[m.forward - 1]] + m.draw_front().drained(),
        m.draw_owed() ==> m.after_drain() == m.draw_front().after_drain(),
        m.draw_owed() ==> m.drain_chain(chain) == m.draw_front().drain_chain(
            chain.remove(m.forward),
        ),
        !m.draw_owed() ==> m.drained() == Seq::<T>::empty(),
        !m.draw_owed() ==> m.after_drain() == m,
        !m.draw_owed() ==> m.drain_chain(chain) == chain,
{
    let rest = m.draw_front();
    assert(rest.drain_defined());
    assert(rest.front_draw_defined()) by {
        if rest.draw_owed() {
            assert(rest.on_element(rest.forward));
        }
    }
}

/// Draining takes out what it yields and nothing else: the elements that
/// came out and those that stay are as many as there were, and as many
/// entries leave a chain that is drained along. Afterwards no draw is owed.
pub proof fn lemma_drain_counts<T, A>(m: ListModel<T>, chain: Seq<A>)
    requires
        m.drain_defined(),
        chain.len() == m.len() + 2,
    ensures
        m.drained().len() + m.after_drain().len() == m.len(),
        m.drain_chain(chain).len() == m.after_drain().len() + 2,
        !m.after_drain().draw_owed(),
    decreases m.elems.len(),
{
    lemma_drain_step(m, chain);
    if m.draw_owed() {
        lemma_drain_counts(m.draw_front(), chain.remove(m.forward));
    }
}

/// Draining a list whose marks stand on elements, the forward mark not behind
/// the backward mark, yields the elements from the one mark to the other, in
/// order. After that draining is over, and what stood outside the marks
/// stays in the list.
pub proof fn lemma_drain_between_marks<T>(m: ListModel<T>)
    requires
        m.wf(),
        !m.exhausted,
        m.on_element(m.forward),
        m.on_element(m.backward),
        m.forward <= m.backward,
    ensures
        m.drain_defined(),
        m.drained() == m.elems.subrange(m.forward - 1, m.backward),
        m.after_drain().exhausted,
        m.after_drain().elems == m.elems.subrange(0, m.forward - 1) + m.elems.subrange(
            m.backward,
            m.len(),
        ),
    decreases m.backward - m.forward,
{
    let f = m.forward;
    let b = m.backward;
    let rest = m.draw_front();
    assert(rest.elems =~= m.elems.remove(f - 1));
    if f < b {
        lemma_drain_between_marks(rest);
        assert(m.drain_defined());
        lemma_drain_step(m, m.elems);
        assert(seq![m.elems[f - 1]] + rest.elems.subrange(f - 1, b - 1) =~= m.elems.subrange(
            f - 1,
            b,
        ));
        assert(rest.elems.subrange(0, f - 1) + rest.elems.subrange(b - 1, rest.len())
            =~= m.elems.subrange(0, f - 1) + m.elems.subrange(b, m.len()));
    } else {
        assert(rest.drain_defined());
        assert(m.drain_defined());
        lemma_drain_step(m, m.elems);
        lemma_drain_step(rest, rest.elems);
        assert(seq![m.elems[f - 1]] + Seq::<T>::empty() =~= m.elems.subrange(f - 1, b));
        assert(rest.elems =~= m.elems.subrange(0, f - 1) + m.elems.subrange(b, m.len()));
    }
}

/// Draining from the front a list whose marks stand at the ends yields every
/// element, in order, and leaves the list empty and at rest: a further draw
/// from either end yields nothing.
pub proof fn lemma_drain_yields_all<T>(m: ListModel<T>)
    requires
        m.marks_at_ends(),
    ensures
        m.drain_defined(),
        m.drained() == m.elems,
        m.after_drain().is_empty(),
        m.after_drain().front_drawn().is_none(),
        m.after_drain().back_drawn().is_none(),
        m.after_drain().get().is_none(),
    decreases m.elems.len(),
{
    if m.is_empty() {
        assert(m.drained() =~= m.elems);
    } else {
        lemma_draw_at_ends(m, true);
        lemma_drain_yields_all(m.draw_front());
        assert(seq![m.elems.first()] + m.elems.drop_first() =~= m.elems);
    }
}

/// Values appended to an empty list stand in it in the order in which they
/// were appended, with the marks at the ends.
pub proof fn lemma_append_all<T>(values: Seq<T>)
    ensures
        ListModel::<T>::empty().append_all(values).elems == values,
        ListModel::<T>::empty().append_all(values).marks_at_ends(),
        !ListModel::<T>::empty().append_all(values).exhausted,
    decreases values.len(),
{
    let fresh = ListModel::<T>::empty();
    if values.len() == 0 {
        assert(fresh.append_all(values).elems =~= values);
    } else {
        lemma_append_all(values.drop_last());
        let m = fresh.append_all(values.drop_last());
        lemma_ends(m, values.last());
        assert(values.drop_last().push(values.last()) =~= values);
    }
}

/// Draining from the front a list that was made by appending `values` to an
/// empty list yields exactly `values`, in their order; after that the list
/// is empty and a further draw yields nothing.
pub proof fn lemma_appended_drains_in_order<T>(values: Seq<T>)
    ensures
        ListModel::<T>::empty().append_all(values).drain_defined(),
        ListModel::<T>::empty().append_all(values).drained() == values,
        ListModel::<T>::empty().append_all(values).after_drain().is_empty(),
        ListModel::<T>::empty().append_all(values).after_drain().front_drawn().is_none(),
{
    lemma_append_all(values);
    lemma_drain_yields_all(ListModel::<T>::empty().append_all(values));
}

/// After any run of appends and prepends on an empty list the elements stand
/// in the order that the placements imply, and draining from the front yields
/// them in that order and leaves the list empty.
pub proof fn lemma_placed_drains_in_order<T>(steps: Seq<Placement<T>>)
    ensures
        ListModel::<T>::empty().place_all(steps).elems == placed_order(steps),
        ListModel::<T>::empty().place_all(steps).marks_at_ends(),
        !ListModel::<T>::empty().place_all(steps).exhausted,
        ListModel::<T>::empty().place_all(steps).drain_defined(),
        ListModel::<T>::empty().place_all(steps).drained() == placed_order(steps),
        ListModel::<T>::empty().place_all(steps).after_drain().is_empty(),
        ListModel::<T>::empty().place_all(steps).after_drain().front_drawn().is_none(),
    decreases steps.len(),
{
    let fresh = ListModel::<T>::empty();
    if steps.len() == 0 {
        assert(fresh.place_all(steps).elems =~= placed_order(steps));
    } else {
        lemma_placed_drains_in_order(steps.drop_last());
        let m = fresh.place_all(steps.drop_last());
        lemma_place_keeps_marks(m, steps.last());
        match steps.last() {
            Placement::Front(value) => lemma_ends(m, value),
            Placement::Back(value) => lemma_ends(m, value),
        }
    }
    lemma_drain_yields_all(fresh.place_all(steps));
}

/// A list whose marks stand at the ends and from which as many draws were
/// made as it had elements, from whichever ends, is empty: every one of the
/// draws yielded an element, `get` finds nothing, and a further draw from
/// either end yields nothing.
pub proof fn lemma_drawn_out_is_empty<T>(m: ListModel<T>, picks: Seq<bool>)
    requires
        m.marks_at_ends(),
        picks.len() == m.len(),
    ensures
        m.draws_defined(picks),
        m.draw_all(picks).is_empty(),
        m.draw_all(picks).wf(),
        m.draw_all(picks).get().is_none(),
        m.draw_all(picks).front_drawn().is_none(),
        m.draw_all(picks).back_drawn().is_none(),
        m.drawn_all(picks).len() == picks.len(),
        forall|i: int| 0 <= i < picks.len() ==> (#[trigger] m.drawn_all(picks)[i]).is_some(),
    decreases picks.len(),
{
    if picks.len() > 0 {
        lemma_draw_at_ends(m, picks.first());
        let rest = m.draw(picks.first());
        lemma_drawn_out_is_empty(rest, picks.drop_first());
        assert forall|i: int| 0 <= i < picks.len() implies (#[trigger] m.drawn_all(picks)[i]).is_some() by {
            if i > 0 {
                assert(m.drawn_all(picks)[i] == rest.drawn_all(picks.drop_first())[i - 1]);
            }
        }
    }
}

/// `edit` replaces the payload under the cursor and nothing else: the
/// cursor, the marks and the length stay, and every other element keeps its
/// place. With the cursor on a guard it changes nothing.
pub proof fn lemma_edit_replaces<T>(m: ListModel<T>, value: T)
    requires
        m.wf(),
    ensures
        m.edit(value).wf(),
        m.edit(value).cursor == m.cursor,
        m.edit(value).forward == m.forward,
        m.edit(value).backward == m.backward,
        m.edit(value).exhausted == m.exhausted,
        m.edit(value).len() == m.len(),
        m.on_element(m.cursor) ==> m.edit(value).elems == m.elems.update(m.cursor - 1, value),
        m.on_element(m.cursor) ==> m.edit(value).get() == Some(value),
        !m.on_element(m.cursor) ==> m.edit(value) == m,
{
}

/// `edit` is a removal at the cursor followed by an insertion in the same
/// place: the elements and the cursor are those that the two steps leave.
pub proof fn lemma_edit_is_remove_then_insert<T>(m: ListModel<T>, value: T)
    requires
        m.wf(),
        m.on_element(m.cursor),
    ensures
        m.edit(value).elems == m.remove().insert(value).elems,
        m.edit(value).cursor == m.remove().insert(value).cursor,
{
    assert(m.edit(value).elems =~= m.remove().insert(value).elems);
}

/// After an edit on a list whose marks stand at the ends, whichever element
/// the cursor is on, draining from the front yields every element in order
/// with the new value in the edited place, and leaves the list empty.
pub proof fn lemma_edited_drains_in_order<T>(m: ListModel<T>, value: T)
    requires
        m.marks_at_ends(),
        m.on_element(m.cursor),
    ensures
        m.edit(value).marks_at_ends(),
        m.edit(value).drain_defined(),
        m.edit(value).drained() == m.elems.update(m.cursor - 1, value),
        m.edit(value).after_drain().is_empty(),
{
    lemma_drain_yields_all(m.edit(value));
}

/// Once draining is over it stays over: no operation of the list makes a
/// draw yield again, whatever is inserted afterwards.
pub proof fn lemma_exhausted_stays<T>(m: ListModel<T>, value: T)
    requires
        m.exhausted,
    ensures
        m.front_draw_defined(),
        m.back_draw_defined(),
        m.drain_defined(),
        m.front_drawn().is_none(),
        m.back_drawn().is_none(),
        m.append(value).exhausted,
        m.prepend(value).exhausted,
        m.insert(value).exhausted,
        m.remove().exhausted,
        m.edit(value).exhausted,
        m.draw_front() == m,
        m.draw_back() == m,
{
}

} // verus!
