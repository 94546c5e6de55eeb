//! The deque for plain data: element types that are `Copy` and need no
//! release. Clearing it only resets the indices.

use crate::deque::ArrayDequeBase;
use crate::index::valid_capacity;
use crate::ring::{all_occupied, duplicates, occupied_run, Op, RingState};
use vstd::prelude::*;

verus! {

/// A fixed-capacity deque for plain data (`Copy`, no `Drop`). The capacity
/// must be a power of two greater than one.
///
/// It can be stored directly on the stack. Used as a queue, elements go in
/// with `push_last` and come out with `pop_first`.
#[derive(Debug)]
pub struct ArrayDequePlain<T: Copy, const CAP: usize>(ArrayDequeBase<T, CAP>);

impl<T: Copy, const CAP: usize> View for ArrayDequePlain<T, CAP> {
    type V = Seq<T>;

    /// The stored elements from front to back.
    open spec fn view(&self) -> Seq<T> {
        self.state().contents()
    }
}

impl<T: Copy, const CAP: usize> ArrayDequePlain<T, CAP> {
    /// The storage, the indices and the flag as a model state.
    pub closed spec fn state(&self) -> RingState<T> {
        self.0.state()
    }

    /// The invariant that every operation expects and keeps.
    pub open spec fn wf(&self) -> bool {
        self.state().cap() == CAP && self.state().wf()
    }

    /// Creates an empty deque.
    #[inline(always)]
    pub fn new() -> (deque: Self)
        requires
            valid_capacity(CAP as int),
        ensures
            deque.wf(),
            deque.state() == RingState::<T>::empty(CAP as int),
            deque@ == Seq::<T>::empty(),
    {
        Self(ArrayDequeBase::new())
    }

    /// Returns the number of slots.
    #[inline(always)]
    pub fn capacity(&self) -> (cap: usize)
        ensures
            cap == CAP,
    {
        self.0.capacity()
    }

    /// Returns the number of stored elements.
    #[inline(always)]
    pub fn len(&self) -> (len: usize)
        requires
            self.wf(),
        ensures
            len == self.state().len(),
            len == self@.len(),
            len <= CAP,
    {
        self.0.len()
    }

    /// Returns true if no element is stored.
    #[inline(always)]
    pub fn is_empty(&self) -> (empty: bool)
        ensures
            empty == self.state().is_empty(),
            self.wf() ==> (empty <==> self@.len() == 0),
    {
        self.0.is_empty()
    }

    /// Returns true if every slot is taken.
    #[inline(always)]
    pub fn is_full(&self) -> (full: bool)
        ensures
            full == self.state().full,
            self.wf() ==> (full <==> self@.len() == CAP),
    {
        self.0.is_full()
    }

    /// Returns true if `start <= end`. This holds of a full deque too,
    /// whose elements then lie in one run that need not begin with the front
    /// element.
    #[inline(always)]
    pub fn is_contiguous_any_order(&self) -> (contiguous: bool)
        ensures
            contiguous == self.state().is_contiguous_any_order(),
    {
        self.0.is_contiguous_any_order()
    }

    /// Returns true if the stored elements lie in one run in logical order.
    #[inline(always)]
    pub fn is_contiguous(&self) -> (contiguous: bool)
        ensures
            contiguous == self.state().is_contiguous(),
    {
        self.0.is_contiguous()
    }

    /// Removes the first element and returns it. The deque must not be empty.
    #[inline(always)]
    pub fn pop_first_unchecked(&mut self) -> (value: T)
        requires
            old(self).wf(),
            !old(self).state().is_empty(),
        ensures
            final(self).wf(),
            final(self).state() == old(self).state().pop_first(),
            value == old(self)@.first(),
            final(self)@ == old(self)@.drop_first(),
    {
        self.0.pop_first_unchecked()
    }

    /// Removes the last element and returns it. The deque must not be empty.
    #[inline(always)]
    pub fn pop_last_unchecked(&mut self) -> (value: T)
        requires
            old(self).wf(),
            !old(self).state().is_empty(),
        ensures
            final(self).wf(),
            final(self).state() == old(self).state().pop_last(),
            value == old(self)@.last(),
            final(self)@ == old(self)@.drop_last(),
    {
        self.0.pop_last_unchecked()
    }

    /// Removes the first element and returns it, or `None` if the deque is
    /// empty.
    #[inline(always)]
    pub fn pop_first(&mut self) -> (popped: Option<T>)
        requires
            old(self).wf(),
        ensures
            final(self).wf(),
            final(self).state() == old(self).state().apply(Op::PopFirst),
            (match popped {
                Some(value) => {
                    &&& old(self)@.len() > 0
                    &&& value == old(self)@.first()
                    &&& final(self).state() == old(self).state().pop_first()
                    &&& final(self)@ == old(self)@.drop_first()
                },
                None => old(self)@.len() == 0 && final(self).state() == old(self).state(),
            }),
    {
        self.0.pop_first()
    }

    /// Removes the last element and returns it, or `None` if the deque is
    /// empty.
    #[inline(always)]
    pub fn pop_last(&mut self) -> (popped: Option<T>)
        requires
            old(self).wf(),
        ensures
            final(self).wf(),
            final(self).state() == old(self).state().apply(Op::PopLast),
            (match popped {
                Some(value) => {
                    &&& old(self)@.len() > 0
                    &&& value == old(self)@.last()
                    &&& final(self).state() == old(self).state().pop_last()
                    &&& final(self)@ == old(self)@.drop_last()
                },
                None => old(self)@.len() == 0 && final(self).state() == old(self).state(),
            }),
    {
        self.0.pop_last()
    }

    /// Adds an element at the front. The deque must not be full.
    #[inline(always)]
    pub fn push_first_unchecked(&mut self, element: T)
        requires
            old(self).wf(),
            !old(self).state().full,
        ensures
            final(self).wf(),
            final(self).state() == old(self).state().push_first(element),
            final(self)@ == seq![element] + old(self)@,
    {
        self.0.push_first_unchecked(element)
    }

    /// Adds an element at the back. The deque must not be full.
    #[inline(always)]
    pub fn push_last_unchecked(&mut self, element: T)
        requires
            old(self).wf(),
            !old(self).state().full,
        ensures
            final(self).wf(),
            final(self).state() == old(self).state().push_last(element),
            final(self)@ == old(self)@.push(element),
    {
        self.0.push_last_unchecked(element)
    }

    /// Adds an element at the front, or returns an error and leaves the
    /// deque as it is if it is full.
    #[inline(always)]
    pub fn push_first(&mut self, element: T) -> (pushed: Result<(), &'static str>)
        requires
            old(self).wf(),
        ensures
            final(self).wf(),
            final(self).state() == old(self).state().apply(Op::PushFirst(element)),
            (match pushed {
                Ok(_) => {
                    &&& old(self)@.len() < CAP
                    &&& final(self).state() == old(self).state().push_first(element)
                    &&& final(self)@ == seq![element] + old(self)@
                },
                Err(message) => {
                    &&& old(self)@.len() == CAP
                    &&& message@ == "array is full"@
                    &&& final(self).state() == old(self).state()
                },
            }),
    {
        self.0.push_first(element)
    }

    /// Adds an element at the back, or returns an error and leaves the deque
    /// as it is if it is full.
    #[inline(always)]
    pub fn push_last(&mut self, element: T) -> (pushed: Result<(), &'static str>)
        requires
            old(self).wf(),
        ensures
            final(self).wf(),
            final(self).state() == old(self).state().apply(Op::PushLast(element)),
            (match pushed {
                Ok(_) => {
                    &&& old(self)@.len() < CAP
                    &&& final(self).state() == old(self).state().push_last(element)
                    &&& final(self)@ == old(self)@.push(element)
                },
                Err(message) => {
                    &&& old(self)@.len() == CAP
                    &&& message@ == "array is full"@
                    &&& final(self).state() == old(self).state()
                },
            }),
    {
        self.0.push_last(element)
    }

    /// Returns a reference to the first element, or `None` if the deque is
    /// empty.
    #[inline(always)]
    pub fn first(&self) -> (front: Option<&T>)
        requires
            self.wf(),
        ensures
            (match front {
                Some(value) => self@.len() > 0 && *value == self@.first(),
                None => self@.len() == 0,
            }),
    {
        self.0.first()
    }

    /// Returns a mutable reference to the first element, or `None` if the
    /// deque is empty.
    #[inline(always)]
    pub fn first_mut(&mut self) -> (front: Option<&mut T>)
        requires
            old(self).wf(),
        ensures
            final(self).wf(),
            (match front {
                Some(value) => {
                    &&& old(self)@.len() > 0
                    &&& *value == old(self)@.first()
                    &&& final(self).state() == old(self).state().with_slot(
                        old(self).state().start,
                        Some(*final(value)),
                    )
                    &&& final(self)@ == old(self)@.update(0, *final(value))
                },
                None => old(self)@.len() == 0 && final(self).state() == old(self).state(),
            }),
    {
        self.0.first_mut()
    }

    /// Returns a reference to the last element, or `None` if the deque is
    /// empty.
    #[inline(always)]
    pub fn last(&self) -> (back: Option<&T>)
        requires
            self.wf(),
        ensures
            (match back {
                Some(value) => self@.len() > 0 && *value == self@.last(),
                None => self@.len() == 0,
            }),
    {
        self.0.last()
    }

    /// Returns a mutable reference to the last element, or `None` if the
    /// deque is empty.
    #[inline(always)]
    pub fn last_mut(&mut self) -> (back: Option<&mut T>)
        requires
            old(self).wf(),
        ensures
            final(self).wf(),
            (match back {
                Some(value) => {
                    &&& old(self)@.len() > 0
                    &&& *value == old(self)@.last()
                    &&& final(self).state() == old(self).state().with_slot(
                        old(self).state().last_slot(),
                        Some(*final(value)),
                    )
                    &&& final(self)@ == old(self)@.update(old(self)@.len() - 1, *final(value))
                },
                None => old(self)@.len() == 0 && final(self).state() == old(self).state(),
            }),
    {
        self.0.last_mut()
    }

    /// Returns the stored elements as one run of slots, each of them `Some`.
    /// The deque must have `start <= end`; `linearize` brings that about.
    ///
    /// The run is in logical order unless the deque is full with its front
    /// element away from physical index 0: the run is then the whole storage
    /// in physical order.
    #[inline(always)]
    pub fn as_slice(&self) -> (run: &[Option<T>])
        requires
            self.wf(),
            self.state().is_contiguous_any_order(),
        ensures
            run@ == self.state().contiguous_slots(),
            run@.len() == self@.len(),
            all_occupied(run@),
            !self.state().full || self.state().start == 0 ==> run@ == occupied_run(self@),
            self.state().full ==> run@ == occupied_run(
                self@.subrange(CAP - self.state().start, CAP as int) + self@.subrange(
                    0,
                    CAP - self.state().start,
                ),
            ),
    {
        self.0.as_slice()
    }

    /// Returns the run of [`Self::as_slice`] for writing. What the slots hold
    /// when the run is given back is what the deque then stores; a slot left
    /// at `None` breaks the invariant.
    #[inline(always)]
    pub fn as_mut_slice(&mut self) -> (run: &mut [Option<T>])
        requires
            old(self).wf(),
            old(self).state().is_contiguous_any_order(),
        ensures
            run@ == old(self).state().contiguous_slots(),
            run@.len() == old(self)@.len(),
            all_occupied(run@),
            !old(self).state().full || old(self).state().start == 0 ==> run@ == occupied_run(
                old(self)@,
            ),
            final(self).state() == old(self).state().with_contiguous_slots(final(run)@),
            final(run)@.len() == run@.len() && all_occupied(final(run)@) ==> final(self).wf()
                && final(self)@.len() == old(self)@.len(),
    {
        self.0.as_mut_slice()
    }

    /// Returns the two runs of slots that hold the stored elements: from the
    /// front element up to the end of the storage or the back element, and
    /// from physical index 0 up to the back element if the elements wrap
    /// around. One after the other they are the elements in logical order.
    #[inline(always)]
    pub fn as_slices(&self) -> (runs: (&[Option<T>], &[Option<T>]))
        requires
            self.wf(),
        ensures
            runs.0@ == self.state().split_slots().0,
            runs.1@ == self.state().split_slots().1,
            runs.0@ + runs.1@ == occupied_run(self@),
    {
        self.0.as_slices()
    }

    /// Returns the two runs of [`Self::as_slices`] for writing. What the
    /// slots hold when the runs are given back is what the deque then stores;
    /// a slot left at `None` breaks the invariant.
    #[inline(always)]
    pub fn as_mut_slices(&mut self) -> (runs: (&mut [Option<T>], &mut [Option<T>]))
        requires
            old(self).wf(),
        ensures
            runs.0@ == old(self).state().split_slots().0,
            runs.1@ == old(self).state().split_slots().1,
            runs.0@ + runs.1@ == occupied_run(old(self)@),
            final(self).state() == old(self).state().with_split_slots(
                final(runs.0)@,
                final(runs.1)@,
            ),
            ({
                &&& final(runs.0)@.len() == runs.0@.len()
                &&& final(runs.1)@.len() == runs.1@.len()
                &&& all_occupied(final(runs.0)@)
                &&& all_occupied(final(runs.1)@)
            }) ==> ({
                &&& final(self).wf()
                &&& final(runs.0)@ + final(runs.1)@ == occupied_run(final(self)@)
            }),
    {
        self.0.as_mut_slices()
    }

    /// Makes the stored elements one run that begins at physical index 0, by
    /// turning the whole storage left by `start` slots.
    #[inline(always)]
    pub fn linearize(&mut self)
        requires
            old(self).wf(),
        ensures
            final(self).wf(),
            final(self).state() == old(self).state().linearize(),
            final(self)@ == old(self)@,
            final(self).state().start == 0,
            final(self).state().is_contiguous_any_order(),
    {
        self.0.linearize()
    }

    /// Moves a single stored element to physical index 0. A deque that holds
    /// no element or more than one, or whose element is there already, is
    /// left as it is.
    #[inline(always)]
    pub fn linearize_one(&mut self)
        requires
            old(self).wf(),
        ensures
            final(self).wf(),
            final(self).state() == old(self).state().linearize_one(),
            final(self)@ == old(self)@,
    {
        self.0.linearize_one()
    }

    /// Empties the deque by resetting the indices. The storage is not
    /// touched: plain data needs no release.
    #[inline]
    pub fn clear(&mut self)
        ensures
            final(self).state() == old(self).state().clear(),
            old(self).wf() ==> final(self).wf() && final(self)@ == Seq::<T>::empty(),
    {
        self.0.clear();
    }
}

impl<T: Copy, const CAP: usize> Clone for ArrayDequePlain<T, CAP> {
    /// Duplicates the deque: the indices and the flag are copied, each stored
    /// element is copied into the same slot of a fresh storage, and the other
    /// slots of the duplicate stay vacant.
    #[inline(always)]
    fn clone(&self) -> (copy: Self)
        ensures
            self.wf() ==> ({
                &&& duplicates(self.state(), copy.state())
                &&& copy.wf()
                &&& copy@.len() == self@.len()
                &&& forall|k: int|
                    0 <= k < self@.len() ==> cloned::<T>(self@[k], #[trigger] copy@[k])
            }),
    {
        Self(self.0.clone())
    }
}

impl<T: Copy, const CAP: usize> Copy for ArrayDequePlain<T, CAP> {}

impl<T: Copy, const CAP: usize> Default for ArrayDequePlain<T, CAP> {
    /// Creates an empty deque, as `new` does. It is valid if `CAP` is a
    /// power of two greater than one; with any other `CAP` no operation takes
    /// it.
    #[inline(always)]
    fn default() -> (deque: Self)
        ensures
            deque.state() == RingState::<T>::empty(CAP as int),
            valid_capacity(CAP as int) ==> deque.wf() && deque@ == Seq::<T>::empty(),
    {
        Self(ArrayDequeBase::default())
    }
}

} // verus!
