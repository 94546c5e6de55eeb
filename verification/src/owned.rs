//! The deque for element types that own resources. A slot outside the stored
//! elements never holds a value: whatever leaves the deque is handed to the
//! caller or released on the spot.

use crate::deque::ArrayDequeBase;
use crate::index::valid_capacity;
use crate::ring::{all_occupied, duplicates, occupied_run, Op, RingState};
use vstd::prelude::*;

verus! {

/// A fixed-capacity deque. The capacity must be a power of two greater than
/// one. For plain data, `ArrayDequePlain` is the better choice.
///
/// It can be stored directly on the stack. Used as a queue, elements go in
/// with `push_last` and come out with `pop_first`.
#[derive(Debug)]
pub struct ArrayDeque<T, const CAP: usize>(ArrayDequeBase<T, CAP>);

impl<T, const CAP: usize> View for ArrayDeque<T, CAP> {
    type V = Seq<T>;

    /// The stored elements from front to back.
    open spec fn view(&self) -> Seq<T> {
        self.state().contents()
    }
}

impl<T, const CAP: usize> ArrayDeque<T, CAP> {
    /// The storage, the indices and the flag as a model state.
    pub closed spec fn state(&self) -> RingState<T> {
        self.0.state()
    }

    /// The invariant that every operation expects and keeps: that of the
    /// ring, and that only the slots of stored elements hold a value.
    pub open spec fn wf(&self) -> bool {
        self.state().cap() == CAP && self.state().wf() && self.state().packed()
    }

    /// Creates an empty deque.
    #[inline(always)]
    pub fn new() -> (deque: Self)
        requires
            valid_capacity(CAP as int),
        ensures
            deque.wf(),
            deque.state() == RingState::<T>::empty(CAP as int),
            deque@ == Seq::<T>::empty(),
    {
        Self(ArrayDequeBase::new())
    }

    /// Returns the number of slots.
    #[inline(always)]
    pub fn capacity(&self) -> (cap: usize)
        ensures
            cap == CAP,
    {
        self.0.capacity()
    }

    /// Returns the number of stored elements.
    #[inline(always)]
    pub fn len(&self) -> (len: usize)
        requires
            self.wf(),
        ensures
            len == self.state().len(),
            len == self@.len(),
            len <= CAP,
    {
        self.0.len()
    }

    /// Returns true if no element is stored.
    #[inline(always)]
    pub fn is_empty(&self) -> (empty: bool)
        ensures
            empty == self.state().is_empty(),
            self.wf() ==> (empty <==> self@.len() == 0),
    {
        self.0.is_empty()
    }

    /// Returns true if every slot is taken.
    #[inline(always)]
    pub fn is_full(&self) -> (full: bool)
        ensures
            full == self.state().full,
            self.wf() ==> (full <==> self@.len() == CAP),
    {
        self.0.is_full()
    }

    /// Returns true if `start <= end`. This holds of a full deque too,
    /// whose elements then lie in one run that need not begin with the front
    /// element.
    #[inline(always)]
    pub fn is_contiguous_any_order(&self) -> (contiguous: bool)
        ensures
            contiguous == self.state().is_contiguous_any_order(),
    {
        self.0.is_contiguous_any_order()
    }

    /// Returns true if the stored elements lie in one run in logical order.
    #[inline(always)]
    pub fn is_contiguous(&self) -> (contiguous: bool)
        ensures
            contiguous == self.state().is_contiguous(),
    {
        self.0.is_contiguous()
    }

    /// Removes the first element and returns it. The deque must not be empty.
    #[inline(always)]
    pub fn pop_first_unchecked(&mut self) -> (value: T)
        requires
            old(self).wf(),
            !old(self).state().is_empty(),
        ensures
            final(self).wf(),
            final(self).state() == old(self).state().pop_first(),
            value == old(self)@.first(),
            final(self)@ == old(self)@.drop_first(),
    {
        proof {
            self.state().lemma_pop_first();
        }
        self.0.pop_first_unchecked()
    }

    /// Removes the last element and returns it. The deque must not be empty.
    #[inline(always)]
    pub fn pop_last_unchecked(&mut self) -> (value: T)
        requires
            old(self).wf(),
            !old(self).state().is_empty(),
        ensures
            final(self).wf(),
            final(self).state() == old(self).state().pop_last(),
            value == old(self)@.last(),
            final(self)@ == old(self)@.drop_last(),
    {
        proof {
            self.state().lemma_pop_last();
        }
        self.0.pop_last_unchecked()
    }

    /// Removes the first element and returns it, or `None` if the deque is
    /// empty.
    #[inline(always)]
    pub fn pop_first(&mut self) -> (popped: Option<T>)
        requires
            old(self).wf(),
        ensures
            final(self).wf(),
            final(self).state() == old(self).state().apply(Op::PopFirst),
            (match popped {
                Some(value) => {
                    &&& old(self)@.len() > 0
                    &&& value == old(self)@.first()
                    &&& final(self).state() == old(self).state().pop_first()
                    &&& final(self)@ == old(self)@.drop_first()
                },
                None => old(self)@.len() == 0 && final(self).state() == old(self).state(),
            }),
    {
        proof {
            self.state().lemma_len_bounds();
            if !self.state().is_empty() {
                self.state().lemma_pop_first();
            }
        }
        self.0.pop_first()
    }

    /// Removes the last element and returns it, or `None` if the deque is
    /// empty.
    #[inline(always)]
    pub fn pop_last(&mut self) -> (popped: Option<T>)
        requires
            old(self).wf(),
        ensures
            final(self).wf(),
            final(self).state() == old(self).state().apply(Op::PopLast),
            (match popped {
                Some(value) => {
                    &&& old(self)@.len() > 0
                    &&& value == old(self)@.last()
                    &&& final(self).state() == old(self).state().pop_last()
                    &&& final(self)@ == old(self)@.drop_last()
                },
                None => old(self)@.len() == 0 && final(self).state() == old(self).state(),
            }),
    {
        proof {
            self.state().lemma_len_bounds();
            if !self.state().is_empty() {
                self.state().lemma_pop_last();
            }
        }
        self.0.pop_last()
    }

    /// Adds an element at the front. The deque must not be full.
    #[inline(always)]
    pub fn push_first_unchecked(&mut self, element: T)
        requires
            old(self).wf(),
            !old(self).state().full,
        ensures
            final(self).wf(),
            final(self).state() == old(self).state().push_first(element),
            final(self)@ == seq![element] + old(self)@,
    {
        proof {
            self.state().lemma_push_first(element);
        }
        self.0.push_first_unchecked(element)
    }

    /// Adds an element at the back. The deque must not be full.
    #[inline(always)]
    pub fn push_last_unchecked(&mut self, element: T)
        requires
            old(self).wf(),
            !old(self).state().full,
        ensures
            final(self).wf(),
            final(self).state() == old(self).state().push_last(element),
            final(self)@ == old(self)@.push(element),
    {
        proof {
            self.state().lemma_push_last(element);
        }
        self.0.push_last_unchecked(element)
    }

    /// Adds an element at the front, or returns an error and leaves the
    /// deque as it is if it is full.
    #[inline(always)]
    pub fn push_first(&mut self, element: T) -> (pushed: Result<(), &'static str>)
        requires
            old(self).wf(),
        ensures
            final(self).wf(),
            final(self).state() == old(self).state().apply(Op::PushFirst(element)),
            (match pushed {
                Ok(_) => {
                    &&& old(self)@.len() < CAP
                    &&& final(self).state() == old(self).state().push_first(element)
                    &&& final(self)@ == seq![element] + old(self)@
                },
                Err(message) => {
                    &&& old(self)@.len() == CAP
                    &&& message@ == "array is full"@
                    &&& final(self).state() == old(self).state()
                },
            }),
    {
        proof {
            if !self.state().full {
                self.state().lemma_push_first(element);
            }
        }
        self.0.push_first(element)
    }

    /// Adds an element at the back, or returns an error and leaves the deque
    /// as it is if it is full.
    #[inline(always)]
    pub fn push_last(&mut self, element: T) -> (pushed: Result<(), &'static str>)
        requires
            old(self).wf(),
        ensures
            final(self).wf(),
            final(self).state() == old(self).state().apply(Op::PushLast(element)),
            (match pushed {
                Ok(_) => {
                    &&& old(self)@.len() < CAP
                    &&& final(self).state() == old(self).state().push_last(element)
                    &&& final(self)@ == old(self)@.push(element)
                },
                Err(message) => {
                    &&& old(self)@.len() == CAP
                    &&& message@ == "array is full"@
                    &&& final(self).state() == old(self).state()
                },
            }),
    {
        proof {
            if !self.state().full {
                self.state().lemma_push_last(element);
            }
        }
        self.0.push_last(element)
    }

    /// Returns a reference to the first element, or `None` if the deque is
    /// empty.
    #[inline(always)]
    pub fn first(&self) -> (front: Option<&T>)
        requires
            self.wf(),
        ensures
            (match front {
                Some(value) => self@.len() > 0 && *value == self@.first(),
                None => self@.len() == 0,
            }),
    {
        self.0.first()
    }

    /// Returns a mutable reference to the first element, or `None` if the
    /// deque is empty.
    #[inline(always)]
    pub fn first_mut(&mut self) -> (front: Option<&mut T>)
        requires
            old(self).wf(),
        ensures
            final(self).wf(),
            (match front {
                Some(value) => {
                    &&& old(self)@.len() > 0
                    &&& *value == old(self)@.first()
                    &&& final(self).state() == old(self).state().with_slot(
                        old(self).state().start,
                        Some(*final(value)),
                    )
                    &&& final(self)@ == old(self)@.update(0, *final(value))
                },
                None => old(self)@.len() == 0 && final(self).state() == old(self).state(),
            }),
    {
        proof {
            let pre = self.state();
            pre.lemma_len_bounds();
            if !pre.is_empty() {
                pre.lemma_ends();
                assert forall|value: T|
                    (#[trigger] pre.with_slot(pre.start, Some(value))).packed() by {
                    pre.lemma_with_slot(pre.start, value);
                }
            }
        }
        self.0.first_mut()
    }

    /// Returns a reference to the last element, or `None` if the deque is
    /// empty.
    #[inline(always)]
    pub fn last(&self) -> (back: Option<&T>)
        requires
            self.wf(),
        ensures
            (match back {
                Some(value) => self@.len() > 0 && *value == self@.last(),
                None => self@.len() == 0,
            }),
    {
        self.0.last()
    }

    /// Returns a mutable reference to the last element, or `None` if the
    /// deque is empty.
    #[inline(always)]
    pub fn last_mut(&mut self) -> (back: Option<&mut T>)
        requires
            old(self).wf(),
        ensures
            final(self).wf(),
            (match back {
                Some(value) => {
                    &&& old(self)@.len() > 0
                    &&& *value == old(self)@.last()
                    &&& final(self).state() == old(self).state().with_slot(
                        old(self).state().last_slot(),
                        Some(*final(value)),
                    )
                    &&& final(self)@ == old(self)@.update(old(self)@.len() - 1, *final(value))
                },
                None => old(self)@.len() == 0 && final(self).state() == old(self).state(),
            }),
    {
        proof {
            let pre = self.state();
            pre.lemma_len_bounds();
            if !pre.is_empty() {
                pre.lemma_ends();
                assert forall|value: T|
                    (#[trigger] pre.with_slot(pre.last_slot(), Some(value))).packed() by {
                    pre.lemma_with_slot(pre.last_slot(), value);
                }
            }
        }
        self.0.last_mut()
    }

    /// Returns the stored elements as one run of slots, each of them `Some`.
    /// The deque must have `start <= end`; `linearize` brings that about.
    ///
    /// The run is in logical order unless the deque is full with its front
    /// element away from physical index 0: the run is then the whole storage
    /// in physical order.
    #[inline(always)]
    pub fn as_slice(&self) -> (run: &[Option<T>])
        requires
            self.wf(),
            self.state().is_contiguous_any_order(),
        ensures
            run@ == self.state().contiguous_slots(),
            run@.len() == self@.len(),
            all_occupied(run@),
            !self.state().full || self.state().start == 0 ==> run@ == occupied_run(self@),
            self.state().full ==> run@ == occupied_run(
                self@.subrange(CAP - self.state().start, CAP as int) + self@.subrange(
                    0,
                    CAP - self.state().start,
                ),
            ),
    {
        self.0.as_slice()
    }

    /// Returns the run of [`Self::as_slice`] for writing. What the slots hold
    /// when the run is given back is what the deque then stores; a slot left
    /// at `None` breaks the invariant.
    #[inline(always)]
    pub fn as_mut_slice(&mut self) -> (run: &mut [Option<T>])
        requires
            old(self).wf(),
            old(self).state().is_contiguous_any_order(),
        ensures
            run@ == old(self).state().contiguous_slots(),
            run@.len() == old(self)@.len(),
            all_occupied(run@),
            !old(self).state().full || old(self).state().start == 0 ==> run@ == occupied_run(
                old(self)@,
            ),
            final(self).state() == old(self).state().with_contiguous_slots(final(run)@),
            final(run)@.len() == run@.len() && all_occupied(final(run)@) ==> final(self).wf()
                && final(self)@.len() == old(self)@.len(),
    {
        proof {
            let pre = self.state();
            pre.lemma_contiguous_slots();
            assert forall|given: Seq<Option<T>>|
                given.len() == pre.len() && all_occupied(given) implies (
            #[trigger] pre.with_contiguous_slots(given)).packed() by {
                pre.lemma_with_contiguous_slots(given);
            }
        }
        self.0.as_mut_slice()
    }

    /// Returns the two runs of slots that hold the stored elements: from the
    /// front element up to the end of the storage or the back element, and
    /// from physical index 0 up to the back element if the elements wrap
    /// around. One after the other they are the elements in logical order.
    #[inline(always)]
    pub fn as_slices(&self) -> (runs: (&[Option<T>], &[Option<T>]))
        requires
            self.wf(),
        ensures
            runs.0@ == self.state().split_slots().0,
            runs.1@ == self.state().split_slots().1,
            runs.0@ + runs.1@ == occupied_run(self@),
    {
        self.0.as_slices()
    }

    /// Returns the two runs of [`Self::as_slices`] for writing. What the
    /// slots hold when the runs are given back is what the deque then stores;
    /// a slot left at `None` breaks the invariant.
    #[inline(always)]
    pub fn as_mut_slices(&mut self) -> (runs: (&mut [Option<T>], &mut [Option<T>]))
        requires
            old(self).wf(),
        ensures
            runs.0@ == old(self).state().split_slots().0,
            runs.1@ == old(self).state().split_slots().1,
            runs.0@ + runs.1@ == occupied_run(old(self)@),
            final(self).state() == old(self).state().with_split_slots(
                final(runs.0)@,
                final(runs.1)@,
            ),
            ({
                &&& final(runs.0)@.len() == runs.0@.len()
                &&& final(runs.1)@.len() == runs.1@.len()
                &&& all_occupied(final(runs.0)@)
                &&& all_occupied(final(runs.1)@)
            }) ==> ({
                &&& final(self).wf()
                &&& final(runs.0)@ + final(runs.1)@ == occupied_run(final(self)@)
            }),
    {
        proof {
            let pre = self.state();
            assert forall|head: Seq<Option<T>>, tail: Seq<Option<T>>|
                head.len() == pre.split_slots().0.len() && tail.len() == pre.split_slots().1.len()
                    && all_occupied(head) && all_occupied(tail) implies (
            #[trigger] pre.with_split_slots(head, tail)).packed() by {
                pre.lemma_with_split_slots(head, tail);
            }
        }
        self.0.as_mut_slices()
    }

    /// Makes the stored elements one run that begins at physical index 0, by
    /// turning the whole storage left by `start` slots.
    #[inline(always)]
    pub fn linearize(&mut self)
        requires
            old(self).wf(),
        ensures
            final(self).wf(),
            final(self).state() == old(self).state().linearize(),
            final(self)@ == old(self)@,
            final(self).state().start == 0,
            final(self).state().is_contiguous_any_order(),
    {
        proof {
            self.state().lemma_linearize();
        }
        self.0.linearize()
    }

    /// Moves a single stored element to physical index 0. A deque that holds
    /// no element or more than one, or whose element is there already, is
    /// left as it is.
    #[inline(always)]
    pub fn linearize_one(&mut self)
        requires
            old(self).wf(),
        ensures
            final(self).wf(),
            final(self).state() == old(self).state().linearize_one(),
            final(self)@ == old(self)@,
    {
        proof {
            self.state().lemma_linearize_one();
        }
        self.0.linearize_one()
    }

    /// Vacates the slot of every stored element, in the order of their
    /// physical indices: the run at the start of the storage before the run
    /// that reaches its end. The indices and the flag stay as they are.
    #[inline]
    fn drop_arr_vals(&mut self)
        requires
            old(self).wf(),
        ensures
            final(self).state() == old(self).state().release(),
    {
        proof {
            self.state().lemma_layout();
        }
        let (mem_right, mem_left) = self.0.as_mut_slices();
        vacate(mem_left);
        vacate(mem_right);
        assert(self.state().slots =~= old(self).state().release().slots);
    }

    /// Empties the deque: releases every stored element, then resets the
    /// indices. No slot holds a value afterwards.
    #[inline]
    pub fn clear(&mut self)
        requires
            old(self).wf(),
        ensures
            final(self).wf(),
            final(self).state() == old(self).state().release().clear(),
            final(self).state() == RingState::<T>::empty(CAP as int),
            final(self)@ == Seq::<T>::empty(),
    {
        proof {
            self.state().lemma_release();
        }
        self.drop_arr_vals();
        self.0.clear();
    }
}

/// Sets every slot of `run` to `None`, from the lowest index up, which
/// releases the values that the slots held.
fn vacate<T>(run: &mut [Option<T>])
    ensures
        final(run)@ == Seq::new(old(run)@.len(), |i: int| None::<T>),
{
    let n = run.len();
    let mut i: usize = 0;
    while i < n
        invariant
            i <= n,
            n == run@.len(),
            run@.len() == old(run)@.len(),
            forall|j: int| 0 <= j < i ==> run@[j] is None,
        decreases n - i,
    {
        run[i] = None;
        i += 1;
    }
}

impl<T: Clone, const CAP: usize> Clone for ArrayDeque<T, CAP> {
    /// Duplicates the deque: the indices and the flag are copied, each stored
    /// element is cloned into the same slot of a fresh storage, and the other
    /// slots of the duplicate stay vacant.
    #[inline(always)]
    fn clone(&self) -> (copy: Self)
        ensures
            self.wf() ==> ({
                &&& duplicates(self.state(), copy.state())
                &&& copy.wf()
                &&& copy@.len() == self@.len()
                &&& forall|k: int|
                    0 <= k < self@.len() ==> cloned::<T>(self@[k], #[trigger] copy@[k])
            }),
    {
        Self(self.0.clone())
    }
}

impl<T, const CAP: usize> Default for ArrayDeque<T, CAP> {
    /// Creates an empty deque, as `new` does. It is valid if `CAP` is a
    /// power of two greater than one; with any other `CAP` no operation takes
    /// it.
    #[inline(always)]
    fn default() -> (deque: Self)
        ensures
            deque.state() == RingState::<T>::empty(CAP as int),
            valid_capacity(CAP as int) ==> deque.wf() && deque@ == Seq::<T>::empty(),
    {
        Self(ArrayDequeBase::default())
    }
}

} // verus!
