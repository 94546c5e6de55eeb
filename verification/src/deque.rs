//! The ring-buffer engine: storage, index arithmetic and every operation of
//! the deque, stated against the model in [`crate::ring`].

use crate::index::{span, step_down, step_up, valid_capacity};
use crate::ring::{
    all_occupied, duplicates, lemma_duplicates, occupied_run, slot_cloned, Op, RingState,
};
use vstd::prelude::*;

verus! {

/// The content of a slot that holds no value, whatever its index.
fn vacant<T>(_index: usize) -> (slot: Option<T>)
    ensures
        slot is None,
{
    None
}

/// Calls `core::array::from_fn` with [`vacant`], which returns `None` for
/// every index. `from_fn` builds the array from the results of the calls, one
/// per index, so every slot of the array is `None`.
#[verifier::external_body]
fn vacant_slots<T, const CAP: usize>() -> (slots: [Option<T>; CAP])
    ensures
        forall|i: int| 0 <= i < CAP ==> slots@[i] is None,
{
    core::array::from_fn(vacant)
}

/// `<[T]>::rotate_left` turns the slice in place: the first `mid` elements
/// move to the end, the others move to the front, so the element that was at
/// index `mid` becomes the first. It panics if `mid` is greater than the
/// length, which `requires` rules out.
pub assume_specification<A>[ <[A]>::rotate_left ](slice: &mut [A], mid: usize)
    requires
        mid <= old(slice)@.len(),
    ensures
        final(slice)@ == old(slice)@.subrange(mid as int, old(slice)@.len() as int) + old(
            slice,
        )@.subrange(0, mid as int),
;

/// A deque over `CAP` slots, `CAP` a power of two greater than one.
///
/// A slot holds `Some` from the push that fills it until the pop that
/// empties it. `start`, `end` and `full` say which slots those are.
#[derive(Debug)]
pub struct ArrayDequeBase<T, const CAP: usize> {
    arr: [Option<T>; CAP],
    start: usize,
    end: usize,
    full: bool,
}

impl<T, const CAP: usize> View for ArrayDequeBase<T, CAP> {
    type V = Seq<T>;

    /// The stored elements from front to back.
    open spec fn view(&self) -> Seq<T> {
        self.state().contents()
    }
}

impl<T, const CAP: usize> ArrayDequeBase<T, CAP> {
    /// The storage, the indices and the flag as a model state.
    pub closed spec fn state(&self) -> RingState<T> {
        RingState {
            slots: self.arr@,
            start: self.start as int,
            end: self.end as int,
            full: self.full,
        }
    }

    /// The invariant that every operation expects and keeps.
    pub open spec fn wf(&self) -> bool {
        self.state().cap() == CAP && self.state().wf()
    }

    /// Creates an empty deque.
    #[inline]
    pub fn new() -> (deque: Self)
        requires
            valid_capacity(CAP as int),
        ensures
            deque.wf(),
            deque.state() == RingState::<T>::empty(CAP as int),
            deque@ == Seq::<T>::empty(),
    {
        let deque = Self { arr: vacant_slots(), start: 0, end: 0, full: false };
        proof {
            deque.state().lemma_layout();
            assert(deque.state() =~= RingState::<T>::empty(CAP as int));
        }
        deque
    }

    /// Returns the number of slots.
    #[inline(always)]
    pub fn capacity(&self) -> (cap: usize)
        ensures
            cap == CAP,
    {
        CAP
    }

    /// Returns the number of stored elements.
    #[inline]
    pub fn len(&self) -> (len: usize)
        requires
            self.wf(),
        ensures
            len == self.state().len(),
            len == self@.len(),
            len <= CAP,
    {
        proof {
            self.state().lemma_len_bounds();
        }
        if self.full {
            self.capacity()
        } else {
            span(self.start, self.end, CAP)
        }
    }

    /// Returns true if no element is stored.
    #[inline]
    pub fn is_empty(&self) -> (empty: bool)
        ensures
            empty == self.state().is_empty(),
            self.wf() ==> (empty <==> self@.len() == 0),
    {
        proof {
            if self.wf() {
                self.state().lemma_len_bounds();
            }
        }
        self.start == self.end && !self.full
    }

    /// Returns true if every slot is taken.
    #[inline(always)]
    pub fn is_full(&self) -> (full: bool)
        ensures
            full == self.state().full,
            self.wf() ==> (full <==> self@.len() == CAP),
    {
        proof {
            if self.wf() {
                self.state().lemma_len_bounds();
            }
        }
        self.full
    }

    /// Returns true if `start <= end`. This holds of a full deque too,
    /// whose elements then lie in one run that need not begin with the front
    /// element.
    #[inline]
    pub fn is_contiguous_any_order(&self) -> (contiguous: bool)
        ensures
            contiguous == self.state().is_contiguous_any_order(),
    {
        self.start <= self.end
    }

    /// Returns true if the stored elements lie in one run in logical order.
    #[inline]
    pub fn is_contiguous(&self) -> (contiguous: bool)
        ensures
            contiguous == self.state().is_contiguous(),
    {
        self.start <= self.end && !self.full
    }

    /// Removes the first element and returns it. The deque must not be empty.
    #[inline]
    pub fn pop_first_unchecked(&mut self) -> (value: T)
        requires
            old(self).wf(),
            !old(self).state().is_empty(),
        ensures
            final(self).wf(),
            final(self).state() == old(self).state().pop_first(),
            value == old(self)@.first(),
            final(self)@ == old(self)@.drop_first(),
    {
        proof {
            self.state().lemma_ends();
            self.state().lemma_pop_first();
        }
        let value = self.arr[self.start].take().unwrap();
        self.start = step_up(self.start, CAP);
        self.full = false;
        assert(self.state() =~= old(self).state().pop_first());
        value
    }

    /// Removes the last element and returns it. The deque must not be empty.
    #[inline]
    pub fn pop_last_unchecked(&mut self) -> (value: T)
        requires
            old(self).wf(),
            !old(self).state().is_empty(),
        ensures
            final(self).wf(),
            final(self).state() == old(self).state().pop_last(),
            value == old(self)@.last(),
            final(self)@ == old(self)@.drop_last(),
    {
        proof {
            self.state().lemma_ends();
            self.state().lemma_pop_last();
        }
        self.end = step_down(self.end, CAP);
        self.full = false;
        let value = self.arr[self.end].take().unwrap();
        assert(self.state() =~= old(self).state().pop_last());
        value
    }

    /// Removes the first element and returns it, or `None` if the deque is
    /// empty.
    #[inline]
    pub fn pop_first(&mut self) -> (popped: Option<T>)
        requires
            old(self).wf(),
        ensures
            final(self).wf(),
            final(self).state() == old(self).state().apply(Op::PopFirst),
            (match popped {
                Some(value) => {
                    &&& old(self)@.len() > 0
                    &&& value == old(self)@.first()
                    &&& final(self).state() == old(self).state().pop_first()
                    &&& final(self)@ == old(self)@.drop_first()
                },
                None => old(self)@.len() == 0 && final(self).state() == old(self).state(),
            }),
    {
        if self.is_empty() {
            return None;
        }
        Some(self.pop_first_unchecked())
    }

    /// Removes the last element and returns it, or `None` if the deque is
    /// empty.
    #[inline]
    pub fn pop_last(&mut self) -> (popped: Option<T>)
        requires
            old(self).wf(),
        ensures
            final(self).wf(),
            final(self).state() == old(self).state().apply(Op::PopLast),
            (match popped {
                Some(value) => {
                    &&& old(self)@.len() > 0
                    &&& value == old(self)@.last()
                    &&& final(self).state() == old(self).state().pop_last()
                    &&& final(self)@ == old(self)@.drop_last()
                },
                None => old(self)@.len() == 0 && final(self).state() == old(self).state(),
            }),
    {
        if self.is_empty() {
            return None;
        }
        Some(self.pop_last_unchecked())
    }

    /// Adds an element at the front. The deque must not be full.
    #[inline]
    pub fn push_first_unchecked(&mut self, element: T)
        requires
            old(self).wf(),
            !old(self).state().full,
        ensures
            final(self).wf(),
            final(self).state() == old(self).state().push_first(element),
            final(self)@ == seq![element] + old(self)@,
    {
        proof {
            self.state().lemma_push_first(element);
        }
        self.start = step_down(self.start, CAP);
        self.arr[self.start] = Some(element);
        self.full = self.start == self.end;
        assert(self.state() =~= old(self).state().push_first(element));
    }

    /// Adds an element at the back. The deque must not be full.
    #[inline]
    pub fn push_last_unchecked(&mut self, element: T)
        requires
            old(self).wf(),
            !old(self).state().full,
        ensures
            final(self).wf(),
            final(self).state() == old(self).state().push_last(element),
            final(self)@ == old(self)@.push(element),
    {
        proof {
            self.state().lemma_push_last(element);
        }
        self.arr[self.end] = Some(element);
        self.end = step_up(self.end, CAP);
        self.full = self.start == self.end;
        assert(self.state() =~= old(self).state().push_last(element));
    }

    /// Adds an element at the front, or returns an error and leaves the
    /// deque as it is if it is full.
    #[inline]
    pub fn push_first(&mut self, element: T) -> (pushed: Result<(), &'static str>)
        requires
            old(self).wf(),
        ensures
            final(self).wf(),
            final(self).state() == old(self).state().apply(Op::PushFirst(element)),
            (match pushed {
                Ok(_) => {
                    &&& old(self)@.len() < CAP
                    &&& final(self).state() == old(self).state().push_first(element)
                    &&& final(self)@ == seq![element] + old(self)@
                },
                Err(message) => {
                    &&& old(self)@.len() == CAP
                    &&& message@ == "array is full"@
                    &&& final(self).state() == old(self).state()
                },
            }),
    {
        if self.is_full() {
            return Err("array is full");
        }
        self.push_first_unchecked(element);
        Ok(())
    }

    /// Adds an element at the back, or returns an error and leaves the deque
    /// as it is if it is full.
    #[inline]
    pub fn push_last(&mut self, element: T) -> (pushed: Result<(), &'static str>)
        requires
            old(self).wf(),
        ensures
            final(self).wf(),
            final(self).state() == old(self).state().apply(Op::PushLast(element)),
            (match pushed {
                Ok(_) => {
                    &&& old(self)@.len() < CAP
                    &&& final(self).state() == old(self).state().push_last(element)
                    &&& final(self)@ == old(self)@.push(element)
                },
                Err(message) => {
                    &&& old(self)@.len() == CAP
                    &&& message@ == "array is full"@
                    &&& final(self).state() == old(self).state()
                },
            }),
    {
        if self.is_full() {
            return Err("array is full");
        }
        self.push_last_unchecked(element);
        Ok(())
    }

    /// Returns a reference to the first element, or `None` if the deque is
    /// empty.
    #[inline]
    pub fn first(&self) -> (front: Option<&T>)
        requires
            self.wf(),
        ensures
            (match front {
                Some(value) => self@.len() > 0 && *value == self@.first(),
                None => self@.len() == 0,
            }),
    {
        if self.is_empty() {
            None
        } else {
            proof {
                self.state().lemma_ends();
            }
            self.arr[self.start].as_ref()
        }
    }

    /// Returns a mutable reference to the first element, or `None` if the
    /// deque is empty.
    #[inline]
    pub fn first_mut(&mut self) -> (front: Option<&mut T>)
        requires
            old(self).wf(),
        ensures
            final(self).wf(),
            (match front {
                Some(value) => {
                    &&& old(self)@.len() > 0
                    &&& *value == old(self)@.first()
                    &&& final(self).state() == old(self).state().with_slot(
                        old(self).state().start,
                        Some(*final(value)),
                    )
                    &&& final(self)@ == old(self)@.update(0, *final(value))
                },
                None => old(self)@.len() == 0 && final(self).state() == old(self).state(),
            }),
    {
        if self.is_empty() {
            None
        } else {
            proof {
                let pre = self.state();
                pre.lemma_ends();
                pre.lemma_layout();
                assert forall|value: T|
                    (#[trigger] pre.with_slot(pre.start, Some(value))).wf() && pre.with_slot(
                        pre.start,
                        Some(value),
                    ).contents() == pre.contents().update(0, value) by {
                    pre.lemma_with_slot(pre.start, value);
                }
            }
            self.arr[self.start].as_mut()
        }
    }

    /// Returns a reference to the last element, or `None` if the deque is
    /// empty.
    #[inline]
    pub fn last(&self) -> (back: Option<&T>)
        requires
            self.wf(),
        ensures
            (match back {
                Some(value) => self@.len() > 0 && *value == self@.last(),
                None => self@.len() == 0,
            }),
    {
        if self.is_empty() {
            None
        } else {
            proof {
                self.state().lemma_ends();
            }
            let idx = step_down(self.end, CAP);
            self.arr[idx].as_ref()
        }
    }

    /// Returns a mutable reference to the last element, or `None` if the
    /// deque is empty.
    #[inline]
    pub fn last_mut(&mut self) -> (back: Option<&mut T>)
        requires
            old(self).wf(),
        ensures
            final(self).wf(),
            (match back {
                Some(value) => {
                    &&& old(self)@.len() > 0
                    &&& *value == old(self)@.last()
                    &&& final(self).state() == old(self).state().with_slot(
                        old(self).state().last_slot(),
                        Some(*final(value)),
                    )
                    &&& final(self)@ == old(self)@.update(old(self)@.len() - 1, *final(value))
                },
                None => old(self)@.len() == 0 && final(self).state() == old(self).state(),
            }),
    {
        if self.is_empty() {
            None
        } else {
            proof {
                let pre = self.state();
                pre.lemma_ends();
                pre.lemma_layout();
                assert forall|value: T|
                    (#[trigger] pre.with_slot(pre.last_slot(), Some(value))).wf() && pre.with_slot(
                        pre.last_slot(),
                        Some(value),
                    ).contents() == pre.contents().update(pre.len() - 1, value) by {
                    pre.lemma_with_slot(pre.last_slot(), value);
                }
            }
            let idx = step_down(self.end, CAP);
            self.arr[idx].as_mut()
        }
    }

    /// Returns the stored elements as one run of slots, each of them `Some`.
    /// The deque must have `start <= end`; `linearize` brings that about.
    ///
    /// The run is in logical order unless the deque is full with its front
    /// element away from physical index 0: the run is then the whole storage
    /// in physical order.
    #[inline]
    pub fn as_slice(&self) -> (run: &[Option<T>])
        requires
            self.wf(),
            self.state().is_contiguous_any_order(),
        ensures
            run@ == self.state().contiguous_slots(),
            run@.len() == self@.len(),
            all_occupied(run@),
            !self.state().full || self.state().start == 0 ==> run@ == occupied_run(self@),
            self.state().full ==> run@ == occupied_run(
                self@.subrange(CAP - self.state().start, CAP as int) + self@.subrange(
                    0,
                    CAP - self.state().start,
                ),
            ),
    {
        proof {
            self.state().lemma_contiguous_slots();
        }
        if self.full {
            self.arr.as_slice()
        } else {
            &self.arr[self.start..self.end]
        }
    }

    /// Returns the run of [`Self::as_slice`] for writing. What the slots hold
    /// when the run is given back is what the deque then stores; a slot left
    /// at `None` breaks the invariant.
    #[inline]
    pub fn as_mut_slice(&mut self) -> (run: &mut [Option<T>])
        requires
            old(self).wf(),
            old(self).state().is_contiguous_any_order(),
        ensures
            run@ == old(self).state().contiguous_slots(),
            run@.len() == old(self)@.len(),
            all_occupied(run@),
            !old(self).state().full || old(self).state().start == 0 ==> run@ == occupied_run(
                old(self)@,
            ),
            final(self).state() == old(self).state().with_contiguous_slots(final(run)@),
            final(run)@.len() == run@.len() && all_occupied(final(run)@) ==> final(self).wf()
                && final(self)@.len() == old(self)@.len(),
    {
        proof {
            let pre = self.state();
            pre.lemma_contiguous_slots();
            assert forall|given: Seq<Option<T>>|
                given.len() == pre.len() && all_occupied(given) implies (
            #[trigger] pre.with_contiguous_slots(given)).wf() && pre.with_contiguous_slots(
                given,
            ).len() == pre.len() by {
                pre.lemma_with_contiguous_slots(given);
            }
        }
        if self.full {
            &mut self.arr
        } else {
            let (_, rest) = self.arr.split_at_mut(self.start);
            let (run, _) = rest.split_at_mut(self.end - self.start);
            run
        }
    }

    /// Returns the two runs of slots that hold the stored elements: from the
    /// front element up to the end of the storage or the back element, and
    /// from physical index 0 up to the back element if the elements wrap
    /// around. One after the other they are the elements in logical order.
    #[inline]
    pub fn as_slices(&self) -> (runs: (&[Option<T>], &[Option<T>]))
        requires
            self.wf(),
        ensures
            runs.0@ == self.state().split_slots().0,
            runs.1@ == self.state().split_slots().1,
            runs.0@ + runs.1@ == occupied_run(self@),
    {
        proof {
            self.state().lemma_split_slots();
        }
        if self.is_contiguous() {
            (self.as_slice(), &[])
        } else {
            (&self.arr[self.start..CAP], &self.arr[0..self.end])
        }
    }

    /// Returns the two runs of [`Self::as_slices`] for writing. What the
    /// slots hold when the runs are given back is what the deque then stores;
    /// a slot left at `None` breaks the invariant.
    #[inline]
    pub fn as_mut_slices(&mut self) -> (runs: (&mut [Option<T>], &mut [Option<T>]))
        requires
            old(self).wf(),
        ensures
            runs.0@ == old(self).state().split_slots().0,
            runs.1@ == old(self).state().split_slots().1,
            runs.0@ + runs.1@ == occupied_run(old(self)@),
            final(self).state() == old(self).state().with_split_slots(
                final(runs.0)@,
                final(runs.1)@,
            ),
            ({
                &&& final(runs.0)@.len() == runs.0@.len()
                &&& final(runs.1)@.len() == runs.1@.len()
                &&& all_occupied(final(runs.0)@)
                &&& all_occupied(final(runs.1)@)
            }) ==> ({
                &&& final(self).wf()
                &&& final(runs.0)@ + final(runs.1)@ == occupied_run(final(self)@)
            }),
    {
        proof {
            let pre = self.state();
            pre.lemma_split_slots();
            assert forall|head: Seq<Option<T>>, tail: Seq<Option<T>>|
                head.len() == pre.split_slots().0.len() && tail.len() == pre.split_slots().1.len()
                    && all_occupied(head) && all_occupied(tail) implies (
            #[trigger] pre.with_split_slots(head, tail)).wf() && head + tail == occupied_run(
                pre.with_split_slots(head, tail).contents(),
            ) by {
                pre.lemma_with_split_slots(head, tail);
            }
        }
        if self.is_contiguous() {
            (self.as_mut_slice(), &mut [])
        } else {
            let (low, head) = self.arr.split_at_mut(self.start);
            let (tail, _) = low.split_at_mut(self.end);
            (head, tail)
        }
    }

    /// Makes the stored elements one run that begins at physical index 0, by
    /// turning the whole storage left by `start` slots.
    #[inline]
    pub fn linearize(&mut self)
        requires
            old(self).wf(),
        ensures
            final(self).wf(),
            final(self).state() == old(self).state().linearize(),
            final(self)@ == old(self)@,
            final(self).state().start == 0,
            final(self).state().is_contiguous_any_order(),
    {
        proof {
            self.state().lemma_linearize();
            self.state().lemma_layout();
        }
        if self.start > 0 {
            self.arr.rotate_left(self.start);
            self.end = span(self.start, self.end, CAP);
            self.start = 0;
        }
        assert(self.state() =~= old(self).state().linearize());
    }

    /// Moves a single stored element to physical index 0. A deque that holds
    /// no element or more than one, or whose element is there already, is
    /// left as it is.
    #[inline]
    pub fn linearize_one(&mut self)
        requires
            old(self).wf(),
        ensures
            final(self).wf(),
            final(self).state() == old(self).state().linearize_one(),
            final(self)@ == old(self)@,
    {
        proof {
            self.state().lemma_linearize_one();
        }
        if self.len() == 1 && self.start > 0 {
            let moved = self.arr[self.start].take();
            self.arr[0] = moved;
            self.start = 0;
            self.end = 1;
        }
        assert(self.state() =~= old(self).state().linearize_one());
    }

    /// Empties the deque by resetting the indices. The storage is not
    /// touched.
    #[inline]
    pub fn clear(&mut self)
        ensures
            final(self).state() == old(self).state().clear(),
            old(self).wf() ==> final(self).wf() && final(self)@ == Seq::<T>::empty(),
    {
        proof {
            if self.wf() {
                self.state().lemma_clear();
            }
        }
        self.start = 0;
        self.end = 0;
        self.full = false;
    }

    /// Whether the slot at physical index `i` belongs to a stored element.
    #[inline]
    fn holds(&self, i: usize) -> (held: bool)
        requires
            i < CAP,
        ensures
            self.wf() ==> held == self.state().occupied(i as int),
    {
        proof {
            if self.wf() {
                self.state().lemma_layout();
            }
        }
        if self.full {
            true
        } else if self.start <= self.end {
            self.start <= i && i < self.end
        } else {
            i < self.end || self.start <= i
        }
    }
}

impl<T: Clone, const CAP: usize> Clone for ArrayDequeBase<T, CAP> {
    /// Duplicates the deque: the indices and the flag are copied, each stored
    /// element is cloned into the same slot of a fresh storage, and the other
    /// slots of the duplicate stay vacant.
    fn clone(&self) -> (copy: Self)
        ensures
            self.wf() ==> ({
                &&& duplicates(self.state(), copy.state())
                &&& copy.wf()
                &&& copy.state().packed()
                &&& copy@.len() == self@.len()
                &&& forall|k: int|
                    0 <= k < self@.len() ==> cloned::<T>(self@[k], #[trigger] copy@[k])
            }),
    {
        let mut arr: [Option<T>; CAP] = vacant_slots();
        let mut i: usize = 0;
        while i < CAP
            invariant
                i <= CAP,
                arr@.len() == CAP,
                self.wf() ==> forall|j: int|
                    0 <= j < CAP ==> if j < i && self.state().occupied(j) {
                        slot_cloned(self.arr@[j], #[trigger] arr@[j])
                    } else {
                        arr@[j] is None
                    },
            decreases CAP - i,
        {
            if self.holds(i) {
                arr[i] = self.arr[i].clone();
            }
            i += 1;
        }
        let copy = Self { arr, start: self.start, end: self.end, full: self.full };
        proof {
            if self.wf() {
                lemma_duplicates(self.state(), copy.state());
            }
        }
        copy
    }
}

impl<T: Copy, const CAP: usize> Copy for ArrayDequeBase<T, CAP> {}

impl<T, const CAP: usize> Default for ArrayDequeBase<T, CAP> {
    /// Creates an empty deque, as `new` does. It is valid if `CAP` is a
    /// power of two greater than one; with any other `CAP` no operation takes
    /// it.
    #[inline(always)]
    fn default() -> (deque: Self)
        ensures
            deque.state() == RingState::<T>::empty(CAP as int),
            valid_capacity(CAP as int) ==> deque.wf() && deque@ == Seq::<T>::empty(),
    {
        let deque = Self { arr: vacant_slots(), start: 0, end: 0, full: false };
        proof {
            assert(deque.state() =~= RingState::<T>::empty(CAP as int));
            if valid_capacity(CAP as int) {
                deque.state().lemma_layout();
            }
        }
        deque
    }
}

} // verus!
