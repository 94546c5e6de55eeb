//! The mathematical model of the ring: its slots, the two indices and the
//! fullness flag, with every state transition as a function on that model.
//!
//! The executable buffers state their contracts over this model. The lemmas
//! here connect the physical layout with the logical sequence of elements.

use crate::index::{lemma_wrap, valid_capacity};
use vstd::prelude::*;

verus! {

/// The state of a ring buffer.
///
/// `slots` is the backing storage in physical order; a slot is `Some` while
/// it holds a value. `start` is the physical index of the front element,
/// `end` the index one past the back element. Both are kept modulo the
/// capacity, so `start == end` both when nothing is stored and when every
/// slot is taken: `full` tells the two apart.
#[verifier::ext_equal]
pub struct RingState<T> {
    pub slots: Seq<Option<T>>,
    pub start: int,
    pub end: int,
    pub full: bool,
}

/// A push or a pop at either end, as `push_first`, `push_last`, `pop_first`
/// and `pop_last` perform it: a push on a full ring and a pop on an empty
/// one change nothing.
pub enum Op<T> {
    PushFirst(T),
    PushLast(T),
    PopFirst,
    PopLast,
}

/// The sequence `s` with every element wrapped in `Some`: what a run of
/// occupied slots looks like.
pub open spec fn occupied_run<T>(s: Seq<T>) -> Seq<Option<T>> {
    Seq::new(s.len(), |k: int| Some(s[k]))
}

/// Whether every slot of `run` holds a value.
pub open spec fn all_occupied<T>(run: Seq<Option<T>>) -> bool {
    forall|k: int| 0 <= k < run.len() ==> (#[trigger] run[k]) is Some
}

/// Whether `b` can be a clone of `a`, slot by slot: a vacant slot stays
/// vacant, a held value is cloned.
pub open spec fn slot_cloned<T: Clone>(a: Option<T>, b: Option<T>) -> bool {
    match a {
        Some(x) => b is Some && cloned::<T>(x, b->0),
        None => b is None,
    }
}

impl<T> RingState<T> {
    /// The empty ring over `cap` vacant slots.
    pub open spec fn empty(cap: int) -> Self {
        RingState { slots: Seq::new(cap as nat, |i: int| None), start: 0, end: 0, full: false }
    }

    /// The number of slots.
    pub open spec fn cap(self) -> int {
        self.slots.len() as int
    }

    /// The number of stored elements.
    pub open spec fn len(self) -> int {
        if self.full {
            self.cap()
        } else {
            (self.end - self.start) % self.cap()
        }
    }

    /// Whether no element is stored.
    pub open spec fn is_empty(self) -> bool {
        self.start == self.end && !self.full
    }

    /// The physical index of the element at logical position `k`.
    pub open spec fn slot_of(self, k: int) -> int {
        (self.start + k) % self.cap()
    }

    /// The logical position that the slot at physical index `i` has, counted
    /// from the front.
    pub open spec fn position_of(self, i: int) -> int {
        (i - self.start) % self.cap()
    }

    /// Whether the slot at physical index `i` belongs to a stored element.
    pub open spec fn occupied(self, i: int) -> bool {
        0 <= i < self.cap() && self.position_of(i) < self.len()
    }

    /// The indices are in range and agree with the flag.
    pub open spec fn in_bounds(self) -> bool {
        &&& valid_capacity(self.cap())
        &&& 0 <= self.start < self.cap()
        &&& 0 <= self.end < self.cap()
        &&& self.full ==> self.start == self.end
    }

    /// The invariant of a ring: indices in range, and every slot of a stored
    /// element holds a value.
    pub open spec fn wf(self) -> bool {
        &&& self.in_bounds()
        &&& forall|i: int| self.occupied(i) ==> (#[trigger] self.slots[i]) is Some
    }

    /// No slot outside the stored elements holds a value.
    pub open spec fn packed(self) -> bool {
        forall|i: int|
            0 <= i < self.cap() && !self.occupied(i) ==> (#[trigger] self.slots[i]) is None
    }

    /// The stored elements from front to back.
    pub open spec fn contents(self) -> Seq<T> {
        Seq::new(self.len() as nat, |k: int| self.slots[self.slot_of(k)]->0)
    }

    /// The state after `value` went in at the back.
    pub open spec fn push_last(self, value: T) -> Self {
        let end = (self.end + 1) % self.cap();
        RingState {
            slots: self.slots.update(self.end, Some(value)),
            start: self.start,
            end,
            full: self.start == end,
        }
    }

    /// The state after `value` went in at the front.
    pub open spec fn push_first(self, value: T) -> Self {
        let start = (self.start - 1) % self.cap();
        RingState {
            slots: self.slots.update(start, Some(value)),
            start,
            end: self.end,
            full: start == self.end,
        }
    }

    /// The state after the front element was taken out.
    pub open spec fn pop_first(self) -> Self {
        RingState {
            slots: self.slots.update(self.start, None),
            start: (self.start + 1) % self.cap(),
            end: self.end,
            full: false,
        }
    }

    /// The state after the back element was taken out.
    pub open spec fn pop_last(self) -> Self {
        let end = (self.end - 1) % self.cap();
        RingState { slots: self.slots.update(end, None), start: self.start, end, full: false }
    }

    /// The state after one checked operation.
    pub open spec fn apply(self, op: Op<T>) -> Self {
        match op {
            Op::PushFirst(value) => if self.full {
                self
            } else {
                self.push_first(value)
            },
            Op::PushLast(value) => if self.full {
                self
            } else {
                self.push_last(value)
            },
            Op::PopFirst => if self.is_empty() {
                self
            } else {
                self.pop_first()
            },
            Op::PopLast => if self.is_empty() {
                self
            } else {
                self.pop_last()
            },
        }
    }

    /// The physical index of the back element.
    pub open spec fn last_slot(self) -> int {
        (self.end - 1) % self.cap()
    }

    /// The state with the slot at physical index `i` replaced.
    pub open spec fn with_slot(self, i: int, slot: Option<T>) -> Self {
        RingState { slots: self.slots.update(i, slot), ..self }
    }

    /// The state with the whole storage replaced.
    pub open spec fn with_slots(self, slots: Seq<Option<T>>) -> Self {
        RingState { slots, ..self }
    }

    /// `start <= end`: the stored elements lie in one physical run, or the
    /// ring is full.
    pub open spec fn is_contiguous_any_order(self) -> bool {
        self.start <= self.end
    }

    /// The stored elements lie in one physical run that is in logical order.
    pub open spec fn is_contiguous(self) -> bool {
        self.start <= self.end && !self.full
    }

    /// The single run of slots that is handed out when `start <= end`.
    pub open spec fn contiguous_slots(self) -> Seq<Option<T>> {
        if self.full {
            self.slots
        } else {
            self.slots.subrange(self.start, self.end)
        }
    }

    /// The two runs of slots that together hold the stored elements in
    /// logical order: from the front to the wrap, then from the wrap to the
    /// back.
    pub open spec fn split_slots(self) -> (Seq<Option<T>>, Seq<Option<T>>) {
        if self.is_contiguous() {
            (self.contiguous_slots(), Seq::empty())
        } else {
            (self.slots.subrange(self.start, self.cap()), self.slots.subrange(0, self.end))
        }
    }

    /// The state after the run handed out when `start <= end` was given back
    /// holding `run`.
    pub open spec fn with_contiguous_slots(self, run: Seq<Option<T>>) -> Self {
        if self.full {
            self.with_slots(run)
        } else {
            self.with_slots(
                self.slots.subrange(0, self.start) + run + self.slots.subrange(
                    self.end,
                    self.cap(),
                ),
            )
        }
    }

    /// The state after the two runs of the split view were given back
    /// holding `head` and `tail`.
    pub open spec fn with_split_slots(self, head: Seq<Option<T>>, tail: Seq<Option<T>>) -> Self {
        if self.is_contiguous() {
            self.with_contiguous_slots(head)
        } else {
            self.with_slots(tail + self.slots.subrange(self.end, self.start) + head)
        }
    }

    /// The storage turned left by `start` slots, so that the front element
    /// sits at physical index 0.
    pub open spec fn linearize(self) -> Self {
        RingState {
            slots: self.slots.subrange(self.start, self.cap()) + self.slots.subrange(
                0,
                self.start,
            ),
            start: 0,
            end: (self.end - self.start) % self.cap(),
            full: self.full,
        }
    }

    /// A single stored element moved to physical index 0; any other state is
    /// left as it is.
    pub open spec fn linearize_one(self) -> Self {
        if self.len() == 1 && self.start > 0 {
            RingState {
                slots: self.slots.update(self.start, None).update(0, self.slots[self.start]),
                start: 0,
                end: 1,
                full: false,
            }
        } else {
            self
        }
    }

    /// Both indices and the flag reset; the storage is not touched.
    pub open spec fn clear(self) -> Self {
        RingState { slots: self.slots, start: 0, end: 0, full: false }
    }

    /// The storage with every slot of a stored element vacated; the indices
    /// and the flag are kept.
    pub open spec fn release(self) -> Self {
        RingState {
            slots: Seq::new(
                self.slots.len(),
                |i: int|
                    if self.occupied(i) {
                        None
                    } else {
                        self.slots[i]
                    },
            ),
            ..self
        }
    }

    /// The indices and the modular expressions of the model, written without
    /// remainders.
    pub proof fn lemma_layout(self)
        requires
            self.in_bounds(),
        ensures
            self.len() == (if self.full {
                self.cap()
            } else if self.start <= self.end {
                self.end - self.start
            } else {
                self.end - self.start + self.cap()
            }),
            forall|k: int|
                0 <= k < self.cap() ==> #[trigger] self.slot_of(k) == (if self.start + k
                    < self.cap() {
                    self.start + k
                } else {
                    self.start + k - self.cap()
                }),
            forall|i: int|
                0 <= i < self.cap() ==> #[trigger] self.position_of(i) == (if i >= self.start {
                    i - self.start
                } else {
                    i - self.start + self.cap()
                }),
            self.last_slot() == (if self.end == 0 {
                self.cap() - 1
            } else {
                self.end - 1
            }),
    {
        let cap = self.cap();
        lemma_wrap(self.end - self.start, cap);
        lemma_wrap(self.end - 1, cap);
        assert forall|k: int| 0 <= k < cap implies #[trigger] self.slot_of(k) == (if self.start + k
            < cap {
            self.start + k
        } else {
            self.start + k - cap
        }) by {
            lemma_wrap(self.start + k, cap);
        }
        assert forall|i: int| 0 <= i < cap implies #[trigger] self.position_of(i) == (if i
            >= self.start {
            i - self.start
        } else {
            i - self.start + cap
        }) by {
            lemma_wrap(i - self.start, cap);
        }
    }

    /// The length stays within the capacity, and the flag and the emptiness
    /// test classify `start == end` correctly.
    pub proof fn lemma_len_bounds(self)
        requires
            self.in_bounds(),
        ensures
            0 <= self.len() <= self.cap(),
            self.full <==> self.len() == self.cap(),
            self.is_empty() <==> self.len() == 0,
    {
        self.lemma_layout();
    }

    /// The front and the back element are the values in the slots at `start`
    /// and just before `end`.
    pub proof fn lemma_ends(self)
        requires
            self.wf(),
            !self.is_empty(),
        ensures
            self.len() > 0,
            self.occupied(self.start),
            self.occupied(self.last_slot()),
            self.contents().first() == self.slots[self.start]->0,
            self.contents().last() == self.slots[self.last_slot()]->0,
    {
        self.lemma_layout();
        assert(self.slot_of(0) == self.start);
        assert(self.slot_of(self.len() - 1) == self.last_slot());
    }

    /// Pushing at the back keeps the invariant and appends to the contents.
    pub proof fn lemma_push_last(self, value: T)
        requires
            self.wf(),
            !self.full,
        ensures
            self.push_last(value).wf(),
            self.push_last(value).contents() == self.contents().push(value),
            self.push_last(value).len() == self.len() + 1,
            self.packed() ==> self.push_last(value).packed(),
    {
        let cap = self.cap();
        let t = self.push_last(value);
        lemma_wrap(self.end + 1, cap);
        self.lemma_layout();
        t.lemma_layout();
        assert forall|i: int| t.occupied(i) implies (#[trigger] t.slots[i]) is Some by {
            if i != self.end {
                assert(self.occupied(i));
                assert(self.slots[i] is Some);
            }
        }
        assert forall|k: int| 0 <= k < t.len() implies t.contents()[k] == self.contents().push(
            value,
        )[k] by {
            assert(t.slot_of(k) == self.slot_of(k));
        }
        assert(t.contents() =~= self.contents().push(value));
        if self.packed() {
            assert forall|i: int| 0 <= i < t.cap() && !t.occupied(i) implies (
            #[trigger] t.slots[i]) is None by {
                assert(!self.occupied(i));
                assert(self.slots[i] is None);
            }
        }
    }

    /// Pushing at the front keeps the invariant and prepends to the contents.
    pub proof fn lemma_push_first(self, value: T)
        requires
            self.wf(),
            !self.full,
        ensures
            self.push_first(value).wf(),
            self.push_first(value).contents() == seq![value] + self.contents(),
            self.push_first(value).len() == self.len() + 1,
            self.packed() ==> self.push_first(value).packed(),
    {
        let cap = self.cap();
        let t = self.push_first(value);
        lemma_wrap(self.start - 1, cap);
        self.lemma_layout();
        t.lemma_layout();
        assert forall|i: int| t.occupied(i) implies (#[trigger] t.slots[i]) is Some by {
            if i != t.start {
                assert(self.occupied(i));
                assert(self.slots[i] is Some);
            }
        }
        assert forall|k: int| 0 <= k < t.len() implies t.contents()[k] == (seq![value]
            + self.contents())[k] by {
            if k > 0 {
                assert(t.slot_of(k) == self.slot_of(k - 1));
            }
        }
        assert(t.contents() =~= seq![value] + self.contents());
        if self.packed() {
            assert forall|i: int| 0 <= i < t.cap() && !t.occupied(i) implies (
            #[trigger] t.slots[i]) is None by {
                assert(!self.occupied(i));
                assert(self.slots[i] is None);
            }
        }
    }

    /// Popping at the front keeps the invariant and drops the first element.
    pub proof fn lemma_pop_first(self)
        requires
            self.wf(),
            !self.is_empty(),
        ensures
            self.pop_first().wf(),
            self.pop_first().contents() == self.contents().drop_first(),
            self.pop_first().len() == self.len() - 1,
            self.packed() ==> self.pop_first().packed(),
    {
        let cap = self.cap();
        let t = self.pop_first();
        lemma_wrap(self.start + 1, cap);
        self.lemma_layout();
        t.lemma_layout();
        assert forall|i: int| t.occupied(i) implies (#[trigger] t.slots[i]) is Some by {
            assert(self.occupied(i));
            assert(self.slots[i] is Some);
        }
        assert forall|k: int| 0 <= k < t.len() implies t.contents()[k]
            == self.contents().drop_first()[k] by {
            assert(t.slot_of(k) == self.slot_of(k + 1));
        }
        assert(t.contents() =~= self.contents().drop_first());
        if self.packed() {
            assert forall|i: int| 0 <= i < t.cap() && !t.occupied(i) implies (
            #[trigger] t.slots[i]) is None by {
                if i != self.start {
                    assert(!self.occupied(i));
                    assert(self.slots[i] is None);
                }
            }
        }
    }

    /// Popping at the back keeps the invariant and drops the last element.
    pub proof fn lemma_pop_last(self)
        requires
            self.wf(),
            !self.is_empty(),
        ensures
            self.pop_last().wf(),
            self.pop_last().contents() == self.contents().drop_last(),
            self.pop_last().len() == self.len() - 1,
            self.packed() ==> self.pop_last().packed(),
    {
        let cap = self.cap();
        let t = self.pop_last();
        lemma_wrap(self.end - 1, cap);
        self.lemma_layout();
        t.lemma_layout();
        assert forall|i: int| t.occupied(i) implies (#[trigger] t.slots[i]) is Some by {
            assert(self.occupied(i));
            assert(self.slots[i] is Some);
        }
        assert forall|k: int| 0 <= k < t.len() implies t.contents()[k]
            == self.contents().drop_last()[k] by {
            assert(t.slot_of(k) == self.slot_of(k));
        }
        assert(t.contents() =~= self.contents().drop_last());
        if self.packed() {
            assert forall|i: int| 0 <= i < t.cap() && !t.occupied(i) implies (
            #[trigger] t.slots[i]) is None by {
                if i != t.end {
                    assert(!self.occupied(i));
                    assert(self.slots[i] is None);
                }
            }
        }
    }

    /// Replacing the value of a stored element changes the contents at its
    /// position and nothing else.
    pub proof fn lemma_with_slot(self, i: int, value: T)
        requires
            self.wf(),
            self.occupied(i),
        ensures
            self.with_slot(i, Some(value)).wf(),
            self.with_slot(i, Some(value)).contents() == self.contents().update(
                self.position_of(i),
                value,
            ),
            self.packed() ==> self.with_slot(i, Some(value)).packed(),
    {
        let t = self.with_slot(i, Some(value));
        self.lemma_layout();
        t.lemma_layout();
        assert forall|j: int| t.occupied(j) implies (#[trigger] t.slots[j]) is Some by {
            assert(self.occupied(j));
            assert(self.slots[j] is Some);
        }
        assert(t.contents() =~= self.contents().update(self.position_of(i), value));
        if self.packed() {
            assert forall|j: int| 0 <= j < t.cap() && !t.occupied(j) implies (
            #[trigger] t.slots[j]) is None by {
                assert(!self.occupied(j));
                assert(self.slots[j] is None);
            }
        }
    }

    /// The two runs of the split view, one after the other, are the stored
    /// elements in logical order.
    pub proof fn lemma_split_slots(self)
        requires
            self.wf(),
        ensures
            self.split_slots().0 + self.split_slots().1 == occupied_run(self.contents()),
            self.split_slots().0.len() + self.split_slots().1.len() == self.len(),
    {
        let joined = self.split_slots().0 + self.split_slots().1;
        self.lemma_layout();
        assert forall|k: int| 0 <= k < self.len() implies joined[k] == Some(
            self.contents()[k],
        ) by {
            let i = self.slot_of(k);
            assert(self.position_of(i) == k);
            assert(self.occupied(i));
            assert(self.slots[i] is Some);
        }
        assert(joined =~= occupied_run(self.contents()));
    }

    /// The single run handed out when `start <= end` holds the stored
    /// elements. It is in logical order unless the ring is full and its front
    /// is not at physical index 0: then the run is the whole storage, which
    /// begins `cap - start` positions into the logical sequence.
    pub proof fn lemma_contiguous_slots(self)
        requires
            self.wf(),
            self.is_contiguous_any_order(),
        ensures
            self.contiguous_slots().len() == self.len(),
            all_occupied(self.contiguous_slots()),
            !self.full || self.start == 0 ==> self.contiguous_slots() == occupied_run(
                self.contents(),
            ),
            self.full ==> self.contiguous_slots() == occupied_run(
                self.contents().subrange(self.cap() - self.start, self.cap())
                    + self.contents().subrange(0, self.cap() - self.start),
            ),
    {
        let run = self.contiguous_slots();
        self.lemma_layout();
        if self.full {
            let turned = self.contents().subrange(self.cap() - self.start, self.cap())
                + self.contents().subrange(0, self.cap() - self.start);
            assert forall|i: int| 0 <= i < self.cap() implies run[i] == Some(turned[i]) by {
                let k = self.position_of(i);
                assert(self.slot_of(k) == i);
                assert(self.occupied(i));
                assert(self.slots[i] is Some);
            }
            assert(run =~= occupied_run(turned));
            if self.start == 0 {
                assert(turned =~= self.contents());
            }
        } else {
            assert forall|k: int| 0 <= k < self.len() implies run[k] == Some(
                self.contents()[k],
            ) by {
                let i = self.slot_of(k);
                assert(self.position_of(i) == k);
                assert(self.occupied(i));
                assert(self.slots[i] is Some);
            }
            assert(run =~= occupied_run(self.contents()));
        }
    }

    /// Linearizing keeps the invariant and the contents, and leaves the front
    /// element at physical index 0 with the elements in one run.
    pub proof fn lemma_linearize(self)
        requires
            self.wf(),
        ensures
            self.linearize().wf(),
            self.linearize().contents() == self.contents(),
            self.linearize().start == 0,
            self.linearize().end == (if self.full {
                0
            } else {
                self.len()
            }),
            self.linearize().is_contiguous_any_order(),
            self.linearize().contiguous_slots() == occupied_run(self.contents()),
            self.packed() ==> self.linearize().packed(),
    {
        let cap = self.cap();
        let t = self.linearize();
        self.lemma_layout();
        lemma_wrap(self.end - self.start, cap);
        assert(t.slots.len() == cap);
        assert(t.in_bounds());
        t.lemma_layout();
        assert forall|j: int| 0 <= j < cap implies #[trigger] t.slots[j]
            == self.slots[self.slot_of(j)] by {}
        assert forall|j: int| t.occupied(j) implies (#[trigger] t.slots[j]) is Some by {
            let i = self.slot_of(j);
            assert(self.position_of(i) == j);
            assert(self.occupied(i));
            assert(self.slots[i] is Some);
        }
        assert forall|k: int| 0 <= k < t.len() implies t.contents()[k] == self.contents()[k] by {
            assert(t.slot_of(k) == k);
        }
        assert(t.contents() =~= self.contents());
        t.lemma_contiguous_slots();
        if self.packed() {
            assert forall|j: int| 0 <= j < t.cap() && !t.occupied(j) implies (
            #[trigger] t.slots[j]) is None by {
                let i = self.slot_of(j);
                assert(self.position_of(i) == j);
                assert(!self.occupied(i));
                assert(self.slots[i] is None);
            }
        }
    }

    /// Moving a single element to physical index 0 keeps the invariant and
    /// the contents.
    pub proof fn lemma_linearize_one(self)
        requires
            self.wf(),
        ensures
            self.linearize_one().wf(),
            self.linearize_one().contents() == self.contents(),
            self.len() == 1 ==> self.linearize_one().is_contiguous(),
            self.packed() ==> self.linearize_one().packed(),
    {
        let t = self.linearize_one();
        self.lemma_layout();
        if self.len() == 1 && self.start > 0 {
            lemma_wrap(1, self.cap());
            assert(t.in_bounds());
            t.lemma_layout();
            assert(self.occupied(self.start));
            assert forall|j: int| t.occupied(j) implies (#[trigger] t.slots[j]) is Some by {
                assert(j == 0);
            }
            assert(t.slot_of(0) == 0);
            assert(self.slot_of(0) == self.start);
            assert(t.contents() =~= self.contents());
            if self.packed() {
                assert forall|j: int| 0 <= j < t.cap() && !t.occupied(j) implies (
                #[trigger] t.slots[j]) is None by {
                    if j != self.start {
                        assert(!self.occupied(j));
                        assert(self.slots[j] is None);
                    }
                }
            }
        }
    }

    /// Resetting the indices leaves a valid empty ring.
    pub proof fn lemma_clear(self)
        requires
            self.wf(),
        ensures
            self.clear().wf(),
            self.clear().contents() == Seq::<T>::empty(),
            self.clear().len() == 0,
    {
        let t = self.clear();
        t.lemma_layout();
        assert(t.contents() =~= Seq::<T>::empty());
    }

    /// Vacating the slots of all stored elements and then resetting the
    /// indices leaves a valid empty ring; no slot holds a value any more if
    /// none outside the stored elements did.
    pub proof fn lemma_release(self)
        requires
            self.wf(),
        ensures
            self.release().clear().wf(),
            self.release().clear().contents() == Seq::<T>::empty(),
            self.packed() ==> self.release().clear() == Self::empty(self.cap()),
            self.packed() ==> self.release().clear().packed(),
    {
        let t = self.release().clear();
        t.lemma_layout();
        assert(t.contents() =~= Seq::<T>::empty());
        if self.packed() {
            assert forall|i: int| 0 <= i < self.cap() implies (#[trigger] t.slots[i]) is None by {
                if !self.occupied(i) {
                    assert(self.slots[i] is None);
                }
            }
            assert(t =~= Self::empty(self.cap()));
        }
    }

    /// Giving back the single run with a value in every slot keeps the
    /// invariant; the run is then what the view hands out again.
    pub proof fn lemma_with_contiguous_slots(self, run: Seq<Option<T>>)
        requires
            self.wf(),
            self.is_contiguous_any_order(),
            run.len() == self.len(),
            all_occupied(run),
        ensures
            self.with_contiguous_slots(run).wf(),
            self.with_contiguous_slots(run).contiguous_slots() == run,
            self.with_contiguous_slots(run).len() == self.len(),
            self.packed() ==> self.with_contiguous_slots(run).packed(),
    {
        let t = self.with_contiguous_slots(run);
        self.lemma_layout();
        t.lemma_layout();
        assert forall|i: int| t.occupied(i) implies (#[trigger] t.slots[i]) is Some by {
            if self.full {
                assert(run[i] is Some);
            } else {
                assert(run[i - self.start] is Some);
            }
        }
        assert(t.contiguous_slots() =~= run);
        if self.packed() {
            assert forall|i: int| 0 <= i < t.cap() && !t.occupied(i) implies (
            #[trigger] t.slots[i]) is None by {
                assert(!self.occupied(i));
                assert(self.slots[i] is None);
            }
        }
    }

    /// Giving back the two runs of the split view with a value in every slot
    /// keeps the invariant; one after the other, the runs are then the
    /// stored elements.
    pub proof fn lemma_with_split_slots(self, head: Seq<Option<T>>, tail: Seq<Option<T>>)
        requires
            self.wf(),
            head.len() == self.split_slots().0.len(),
            tail.len() == self.split_slots().1.len(),
            all_occupied(head),
            all_occupied(tail),
        ensures
            self.with_split_slots(head, tail).wf(),
            self.with_split_slots(head, tail).split_slots() == (head, tail),
            head + tail == occupied_run(self.with_split_slots(head, tail).contents()),
            self.with_split_slots(head, tail).len() == self.len(),
            self.packed() ==> self.with_split_slots(head, tail).packed(),
    {
        let t = self.with_split_slots(head, tail);
        self.lemma_layout();
        if self.is_contiguous() {
            self.lemma_with_contiguous_slots(head);
            assert(tail =~= Seq::<Option<T>>::empty());
        } else {
            t.lemma_layout();
            assert forall|i: int| t.occupied(i) implies (#[trigger] t.slots[i]) is Some by {
                if i < self.end {
                    assert(tail[i] is Some);
                } else {
                    assert(head[i - self.start] is Some);
                }
            }
            assert(t.split_slots().0 =~= head);
            assert(t.split_slots().1 =~= tail);
            if self.packed() {
                assert forall|i: int| 0 <= i < t.cap() && !t.occupied(i) implies (
                #[trigger] t.slots[i]) is None by {
                    assert(!self.occupied(i));
                    assert(self.slots[i] is None);
                }
            }
        }
        t.lemma_split_slots();
    }
}

/// Whether `copy` is a duplicate of `source`: the same indices and flag,
/// every stored element cloned into the same slot, every other slot vacant.
pub open spec fn duplicates<T: Clone>(source: RingState<T>, copy: RingState<T>) -> bool {
    &&& copy.start == source.start
    &&& copy.end == source.end
    &&& copy.full == source.full
    &&& copy.slots.len() == source.slots.len()
    &&& forall|i: int|
        0 <= i < source.cap() ==> if source.occupied(i) {
            slot_cloned(source.slots[i], #[trigger] copy.slots[i])
        } else {
            copy.slots[i] is None
        }
}

/// A duplicate of a valid ring is a valid ring of the same length that holds
/// a clone of each element at the same position, and no value in any other
/// slot. Where cloning a `T` gives an equal value, the contents are equal.
pub proof fn lemma_duplicates<T: Clone>(source: RingState<T>, copy: RingState<T>)
    requires
        source.wf(),
        duplicates(source, copy),
    ensures
        copy.wf(),
        copy.packed(),
        copy.len() == source.len(),
        forall|k: int|
            0 <= k < source.len() ==> cloned::<T>(
                source.contents()[k],
                #[trigger] copy.contents()[k],
            ),
        (forall|a: T, b: T| cloned::<T>(a, b) ==> a == b) ==> copy.contents()
            == source.contents(),
{
    source.lemma_layout();
    copy.lemma_layout();
    assert forall|i: int| copy.occupied(i) implies (#[trigger] copy.slots[i]) is Some by {
        assert(source.occupied(i));
        assert(source.slots[i] is Some);
    }
    assert forall|k: int| 0 <= k < source.len() implies cloned::<T>(
        source.contents()[k],
        #[trigger] copy.contents()[k],
    ) by {
        let i = source.slot_of(k);
        assert(source.position_of(i) == k);
        assert(source.occupied(i));
        assert(slot_cloned(source.slots[i], copy.slots[i]));
    }
    if forall|a: T, b: T| cloned::<T>(a, b) ==> a == b {
        assert(copy.contents() =~= source.contents());
    }
}

} // verus!
