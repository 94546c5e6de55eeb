//! Laws of the ring that speak of more than one operation: runs of pushes
//! and pops, the order in which elements come out, and what linearizing
//! leaves behind.

use crate::index::lemma_wrap;
use crate::ring::{occupied_run, Op, RingState};
use vstd::prelude::*;

verus! {

impl<T> RingState<T> {
    /// The state after the checked operations `ops`, performed in order.
    pub open spec fn apply_all(self, ops: Seq<Op<T>>) -> Self
        decreases ops.len(),
    {
        if ops.len() == 0 {
            self
        } else {
            self.apply_all(ops.drop_last()).apply(ops.last())
        }
    }

    /// The state after the elements of `values` were pushed at the back, one
    /// by one in order.
    pub open spec fn push_last_all(self, values: Seq<T>) -> Self
        decreases values.len(),
    {
        if values.len() == 0 {
            self
        } else {
            self.push_last_all(values.drop_last()).push_last(values.last())
        }
    }

    /// The state after the elements of `values` were pushed at the front, one
    /// by one in order.
    pub open spec fn push_first_all(self, values: Seq<T>) -> Self
        decreases values.len(),
    {
        if values.len() == 0 {
            self
        } else {
            self.push_first_all(values.drop_last()).push_first(values.last())
        }
    }

    /// The state after `n` elements were popped at the front.
    pub open spec fn pop_first_n(self, n: nat) -> Self
        decreases n,
    {
        if n == 0 {
            self
        } else {
            self.pop_first_n((n - 1) as nat).pop_first()
        }
    }

    /// One checked operation keeps the invariant, and keeps the slots
    /// outside the stored elements vacant if they were.
    pub proof fn lemma_apply(self, op: Op<T>)
        requires
            self.wf(),
        ensures
            self.apply(op).wf(),
            self.apply(op).cap() == self.cap(),
            self.packed() ==> self.apply(op).packed(),
    {
        match op {
            Op::PushFirst(value) => {
                if !self.full {
                    self.lemma_push_first(value);
                }
            },
            Op::PushLast(value) => {
                if !self.full {
                    self.lemma_push_last(value);
                }
            },
            Op::PopFirst => {
                if !self.is_empty() {
                    self.lemma_pop_first();
                }
            },
            Op::PopLast => {
                if !self.is_empty() {
                    self.lemma_pop_last();
                }
            },
        }
    }

    /// Whatever checked pushes and pops are performed on a valid ring, in
    /// whatever order: the length stays between 0 and the capacity, the ring
    /// counts as full exactly when the length is the capacity, and as empty
    /// exactly when the length is 0.
    pub proof fn lemma_apply_all(self, ops: Seq<Op<T>>)
        requires
            self.wf(),
        ensures
            self.apply_all(ops).wf(),
            self.apply_all(ops).cap() == self.cap(),
            0 <= self.apply_all(ops).len() <= self.cap(),
            self.apply_all(ops).full <==> self.apply_all(ops).len() == self.cap(),
            self.apply_all(ops).is_empty() <==> self.apply_all(ops).len() == 0,
            self.packed() ==> self.apply_all(ops).packed(),
        decreases ops.len(),
    {
        if ops.len() > 0 {
            self.lemma_apply_all(ops.drop_last());
            self.apply_all(ops.drop_last()).lemma_apply(ops.last());
        }
        self.apply_all(ops).lemma_len_bounds();
    }

    /// Pushing `values` at the back of a ring with room for them appends
    /// them to the contents in their order.
    pub proof fn lemma_push_last_all(self, values: Seq<T>)
        requires
            self.wf(),
            self.len() + values.len() <= self.cap(),
        ensures
            self.push_last_all(values).wf(),
            self.push_last_all(values).cap() == self.cap(),
            self.push_last_all(values).contents() == self.contents() + values,
            self.push_last_all(values).len() == self.len() + values.len(),
        decreases values.len(),
    {
        if values.len() == 0 {
            assert(self.contents() + values =~= self.contents());
            self.lemma_len_bounds();
        } else {
            let before = self.push_last_all(values.drop_last());
            self.lemma_push_last_all(values.drop_last());
            before.lemma_len_bounds();
            before.lemma_push_last(values.last());
            assert((self.contents() + values.drop_last()).push(values.last()) =~= self.contents()
                + values);
        }
    }

    /// Pushing `values` at the front of a ring with room for them puts them
    /// before the contents in reverse order.
    pub proof fn lemma_push_first_all(self, values: Seq<T>)
        requires
            self.wf(),
            self.len() + values.len() <= self.cap(),
        ensures
            self.push_first_all(values).wf(),
            self.push_first_all(values).cap() == self.cap(),
            self.push_first_all(values).contents() == values.reverse() + self.contents(),
            self.push_first_all(values).len() == self.len() + values.len(),
        decreases values.len(),
    {
        if values.len() == 0 {
            assert(values.reverse() + self.contents() =~= self.contents());
            self.lemma_len_bounds();
        } else {
            let before = self.push_first_all(values.drop_last());
            self.lemma_push_first_all(values.drop_last());
            before.lemma_len_bounds();
            before.lemma_push_first(values.last());
            assert(seq![values.last()] + (values.drop_last().reverse() + self.contents())
                =~= values.reverse() + self.contents());
        }
    }

    /// Popping `n` elements at the front of a ring that holds as many drops
    /// the first `n` elements of the contents.
    pub proof fn lemma_pop_first_n(self, n: nat)
        requires
            self.wf(),
            n <= self.len(),
        ensures
            self.pop_first_n(n).wf(),
            self.pop_first_n(n).contents() == self.contents().skip(n as int),
            self.pop_first_n(n).len() == self.len() - n,
        decreases n,
    {
        if n == 0 {
            assert(self.contents().skip(0) =~= self.contents());
        } else {
            let before = self.pop_first_n((n - 1) as nat);
            self.lemma_pop_first_n((n - 1) as nat);
            before.lemma_len_bounds();
            before.lemma_pop_first();
            assert(self.contents().skip(n - 1).drop_first() =~= self.contents().skip(n as int));
        }
    }

    /// First in, first out: after `values` were pushed at the back of an
    /// empty ring, the element that the pop after `k` pops at the front
    /// returns is `values[k]`.
    pub proof fn lemma_first_in_first_out(self, values: Seq<T>, k: nat)
        requires
            self.wf(),
            self.is_empty(),
            values.len() <= self.cap(),
            k < values.len(),
        ensures
            self.push_last_all(values).contents() == values,
            self.push_last_all(values).pop_first_n(k).wf(),
            !self.push_last_all(values).pop_first_n(k).is_empty(),
            self.push_last_all(values).pop_first_n(k).contents().first() == values[k as int],
    {
        self.lemma_len_bounds();
        assert(self.contents() =~= Seq::<T>::empty());
        self.lemma_push_last_all(values);
        assert(self.contents() + values =~= values);
        let filled = self.push_last_all(values);
        filled.lemma_pop_first_n(k);
        filled.pop_first_n(k).lemma_len_bounds();
    }

    /// Last in, first out: after `values` were pushed at the front of an
    /// empty ring, the element that the pop after `k` pops at the front
    /// returns is the one pushed `k` pushes before the last.
    pub proof fn lemma_last_in_first_out(self, values: Seq<T>, k: nat)
        requires
            self.wf(),
            self.is_empty(),
            values.len() <= self.cap(),
            k < values.len(),
        ensures
            self.push_first_all(values).contents() == values.reverse(),
            self.push_first_all(values).pop_first_n(k).wf(),
            !self.push_first_all(values).pop_first_n(k).is_empty(),
            self.push_first_all(values).pop_first_n(k).contents().first() == values[values.len()
                - 1 - k],
    {
        self.lemma_len_bounds();
        assert(self.contents() =~= Seq::<T>::empty());
        self.lemma_push_first_all(values);
        assert(values.reverse() + self.contents() =~= values.reverse());
        let filled = self.push_first_all(values);
        filled.lemma_pop_first_n(k);
        filled.pop_first_n(k).lemma_len_bounds();
    }

    /// After linearizing, the split view is a single run: its first part
    /// holds all stored elements in logical order and begins at physical
    /// index 0, its second part is empty, and the single-run view is valid
    /// and holds the same.
    pub proof fn lemma_linearize_views(self)
        requires
            self.wf(),
        ensures
            self.linearize().split_slots().0 == occupied_run(self.contents()),
            self.linearize().split_slots().1 == Seq::<Option<T>>::empty(),
            self.linearize().split_slots().0.len() == 0 <==> self.len() == 0,
            self.linearize().is_contiguous_any_order(),
            self.linearize().contiguous_slots() == occupied_run(self.contents()),
    {
        let t = self.linearize();
        self.lemma_linearize();
        t.lemma_layout();
        t.lemma_split_slots();
        assert(t.split_slots().1 =~= Seq::<Option<T>>::empty());
        assert(t.split_slots().0 + t.split_slots().1 =~= t.split_slots().0);
    }

    /// Linearizing twice is linearizing once.
    pub proof fn lemma_linearize_idempotent(self)
        requires
            self.wf(),
        ensures
            self.linearize().linearize() == self.linearize(),
    {
        let t = self.linearize();
        self.lemma_linearize();
        lemma_wrap(t.end, t.cap());
        assert(t.linearize() =~= t);
    }
}

} // verus!
