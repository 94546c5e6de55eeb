use array_buf::{ArrayDeque, ArrayDequeBase, ArrayDequePlain};
use std::cell::RefCell;
use std::rc::Rc;

/// A value that writes its number into a shared log when it is released.
struct Logged {
    number: u32,
    log: Rc<RefCell<Vec<u32>>>,
}

impl Drop for Logged {
    fn drop(&mut self) {
        self.log.borrow_mut().push(self.number);
    }
}

fn logged(number: u32, log: &Rc<RefCell<Vec<u32>>>) -> Logged {
    Logged { number, log: log.clone() }
}

#[test]
fn clear_releases_in_the_order_of_the_slots() {
    let log = Rc::new(RefCell::new(Vec::new()));
    let mut buf: ArrayDeque<Logged, 4> = ArrayDeque::new();
    // slots: [1, 2, -, 0], front at physical index 3
    assert!(buf.push_last(logged(1, &log)).is_ok());
    assert!(buf.push_last(logged(2, &log)).is_ok());
    assert!(buf.push_first(logged(0, &log)).is_ok());
    assert!(log.borrow().is_empty());

    buf.clear();
    assert_eq!(*log.borrow(), vec![1, 2, 0]);
    assert!(buf.is_empty());

    // one run in the middle of the storage: slots [-, 4, 5, -]
    log.borrow_mut().clear();
    assert!(buf.push_last(logged(3, &log)).is_ok());
    assert!(buf.push_last(logged(4, &log)).is_ok());
    assert!(buf.push_last(logged(5, &log)).is_ok());
    drop(buf.pop_first());
    assert_eq!(*log.borrow(), vec![3]);
    buf.clear();
    assert_eq!(*log.borrow(), vec![3, 4, 5]);

    // nothing is released twice
    drop(buf);
    assert_eq!(*log.borrow(), vec![3, 4, 5]);
}

#[test]
fn dropping_releases_each_element_once() {
    let log = Rc::new(RefCell::new(Vec::new()));
    let mut buf: ArrayDeque<Logged, 4> = ArrayDeque::new();
    assert!(buf.push_last(logged(1, &log)).is_ok());
    assert!(buf.push_last(logged(2, &log)).is_ok());
    assert!(buf.push_first(logged(0, &log)).is_ok());
    assert!(buf.push_first(logged(9, &log)).is_ok());
    drop(buf.pop_first());
    assert_eq!(*log.borrow(), vec![9]);
    buf.linearize();
    assert_eq!(*log.borrow(), vec![9]);
    drop(buf);
    assert_eq!(*log.borrow(), vec![9, 0, 1, 2]);
}

#[test]
fn clear_of_plain_data_resets_the_deque() {
    let mut buf: ArrayDequePlain<i32, 4> = ArrayDequePlain::new();

    buf.push_last(1).unwrap();
    buf.push_first(-1).unwrap();
    buf.clear();

    assert!(buf.is_empty());
    assert_eq!(buf.len(), 0);
    assert!(buf.is_contiguous());
    assert_eq!(buf.pop_first(), None);
    buf.push_last(7).unwrap();
    assert_eq!(buf.as_slices(), (&[Some(7)][..], &[][..]));
}

#[test]
fn clear_releases_every_element() {
    let token = Rc::new(());
    let mut buf: ArrayDeque<Rc<()>, 4> = ArrayDeque::new();

    buf.push_last(token.clone()).unwrap();
    buf.push_last(token.clone()).unwrap();
    buf.push_first(token.clone()).unwrap();
    assert_eq!(Rc::strong_count(&token), 4);
    buf.clear();

    assert_eq!(Rc::strong_count(&token), 1);
    assert!(buf.is_empty());
    assert_eq!(buf.len(), 0);
    assert_eq!(buf.pop_last(), None);
    buf.push_last(token.clone()).unwrap();
    assert_eq!(buf.len(), 1);
    assert_eq!(Rc::strong_count(&token), 2);
}

#[test]
fn clear_of_a_full_deque_releases_every_element() {
    let token = Rc::new(());
    let mut buf: ArrayDeque<Rc<()>, 2> = ArrayDeque::new();
    buf.push_first(token.clone()).unwrap();
    buf.push_first(token.clone()).unwrap();
    assert!(buf.is_full());
    assert_eq!(Rc::strong_count(&token), 3);
    buf.clear();
    assert_eq!(Rc::strong_count(&token), 1);
    assert!(buf.is_empty());
    assert!(!buf.is_full());
}

#[test]
fn clear_of_the_engine_only_resets_the_indices() {
    let token = Rc::new(());
    let mut buf: ArrayDequeBase<Rc<()>, 4> = ArrayDequeBase::new();
    buf.push_last(token.clone()).unwrap();
    buf.push_last(token.clone()).unwrap();
    buf.clear();
    assert!(buf.is_empty());
    assert_eq!(buf.len(), 0);
    // the storage was not touched
    assert_eq!(Rc::strong_count(&token), 3);
    drop(buf);
    assert_eq!(Rc::strong_count(&token), 1);
}

#[test]
fn popped_elements_belong_to_the_caller() {
    let token = Rc::new(());
    let mut buf: ArrayDeque<Rc<()>, 4> = ArrayDeque::new();
    buf.push_last(token.clone()).unwrap();
    buf.push_last(token.clone()).unwrap();
    let front = buf.pop_first().unwrap();
    assert_eq!(Rc::strong_count(&token), 3);
    drop(front);
    assert_eq!(Rc::strong_count(&token), 2);
    let back = buf.pop_last();
    assert!(back.is_some());
    drop(back);
    assert_eq!(Rc::strong_count(&token), 1);
    assert!(buf.is_empty());
}

#[test]
fn dropping_the_deque_releases_every_element() {
    let token = Rc::new(());
    let mut buf: ArrayDeque<Rc<()>, 4> = ArrayDeque::new();
    buf.push_first(token.clone()).unwrap();
    buf.push_last(token.clone()).unwrap();
    assert_eq!(Rc::strong_count(&token), 3);
    drop(buf);
    assert_eq!(Rc::strong_count(&token), 1);
}

#[test]
fn rejected_push_releases_the_element() {
    let token = Rc::new(());
    let mut buf: ArrayDeque<Rc<()>, 2> = ArrayDeque::new();
    buf.push_last(token.clone()).unwrap();
    buf.push_last(token.clone()).unwrap();
    assert!(buf.push_last(token.clone()).is_err());
    assert!(buf.push_first(token.clone()).is_err());
    assert_eq!(Rc::strong_count(&token), 3);
}

#[test]
fn duplicate_clones_only_the_stored_elements() {
    let token = Rc::new(());
    let mut buf: ArrayDeque<Rc<()>, 8> = ArrayDeque::new();
    buf.push_last(token.clone()).unwrap();
    buf.push_last(token.clone()).unwrap();
    buf.push_first(token.clone()).unwrap();
    drop(buf.pop_last());
    assert_eq!(Rc::strong_count(&token), 3);
    let copy = buf.clone();
    assert_eq!(Rc::strong_count(&token), 5);
    assert_eq!(copy.len(), 2);
    drop(copy);
    assert_eq!(Rc::strong_count(&token), 3);
}

#[test]
fn linearize_moves_elements_without_cloning() {
    let token = Rc::new(());
    let mut buf: ArrayDeque<Rc<()>, 4> = ArrayDeque::new();
    buf.push_first(token.clone()).unwrap();
    buf.linearize_one();
    assert_eq!(Rc::strong_count(&token), 2);
    assert_eq!(buf.len(), 1);
    buf.push_first(token.clone()).unwrap();
    buf.linearize();
    assert_eq!(Rc::strong_count(&token), 3);
    assert_eq!(buf.len(), 2);
    assert!(buf.is_contiguous());
}

#[test]
fn linearize_makes_a_wrapped_deque_contiguous() {
    let mut buf: ArrayDeque<isize, 4> = ArrayDeque::new();

    buf.push_last(1).unwrap();
    buf.push_first(-1).unwrap();
    assert!(!buf.is_contiguous());

    buf.linearize();

    assert!(buf.is_contiguous());
    assert_eq!(buf.as_slice(), &[Some(-1), Some(1)][..]);
    assert_eq!(buf.first(), Some(&-1));
    assert_eq!(buf.last(), Some(&1));
}

#[test]
fn linearize_of_a_full_deque_puts_the_front_first() {
    let mut buf: ArrayDequePlain<u8, 4> = ArrayDequePlain::new();
    buf.push_last(1).unwrap();
    buf.push_last(2).unwrap();
    buf.push_last(3).unwrap();
    buf.push_last(4).unwrap();
    assert_eq!(buf.pop_first(), Some(1));
    buf.push_last(5).unwrap();
    // full, with the front element at physical index 1
    assert!(buf.is_full());
    assert!(buf.is_contiguous_any_order());
    assert!(!buf.is_contiguous());
    // the single run is the storage in physical order
    assert_eq!(buf.as_slice(), &[Some(5), Some(2), Some(3), Some(4)][..]);
    assert_eq!(
        buf.as_slices(),
        (&[Some(2), Some(3), Some(4)][..], &[Some(5)][..])
    );

    buf.linearize();

    assert!(buf.is_full());
    assert_eq!(buf.len(), 4);
    assert!(buf.is_contiguous_any_order());
    assert_eq!(buf.as_slice(), &[Some(2), Some(3), Some(4), Some(5)][..]);
    assert_eq!(
        buf.as_slices(),
        (&[Some(2), Some(3), Some(4), Some(5)][..], &[][..])
    );
    assert!(buf.push_last(6).is_err());
    assert_eq!(buf.pop_first(), Some(2));
    assert_eq!(buf.pop_last(), Some(5));
}

#[test]
fn linearize_with_the_front_at_index_zero_changes_nothing() {
    let mut buf: ArrayDeque<u8, 4> = ArrayDeque::new();
    buf.push_last(1).unwrap();
    buf.push_last(2).unwrap();
    buf.linearize();
    assert_eq!(buf.as_slices(), (&[Some(1), Some(2)][..], &[][..]));
    buf.push_last(3).unwrap();
    buf.push_last(4).unwrap();
    assert!(buf.is_full());
    buf.linearize();
    assert_eq!(buf.as_slice(), &[Some(1), Some(2), Some(3), Some(4)][..]);
    assert!(buf.is_full());
}

#[test]
fn linearize_one_moves_a_single_element() {
    let mut buf: ArrayDeque<isize, 2> = ArrayDeque::new();

    buf.push_first(-1).unwrap();
    assert!(!buf.is_contiguous());

    buf.linearize_one();

    assert!(buf.is_contiguous());
    assert_eq!(buf.len(), 1);
    assert_eq!(buf.as_slice(), &[Some(-1)][..]);
    buf.push_last(5).unwrap();
    assert!(buf.is_full());
    assert_eq!(buf.as_slice(), &[Some(-1), Some(5)][..]);
}

#[test]
fn linearize_one_leaves_other_lengths_alone() {
    let mut buf: ArrayDequePlain<isize, 4> = ArrayDequePlain::new();
    // empty
    buf.linearize_one();
    assert!(buf.is_empty());
    // two elements across the wrap
    buf.push_first(-1).unwrap();
    buf.push_last(1).unwrap();
    buf.linearize_one();
    assert!(!buf.is_contiguous());
    assert_eq!(buf.as_slices(), (&[Some(-1)][..], &[Some(1)][..]));
    // one element in the middle of the storage
    assert_eq!(buf.pop_first(), Some(-1));
    buf.push_last(2).unwrap();
    assert_eq!(buf.pop_first(), Some(1));
    assert_eq!(buf.len(), 1);
    assert!(buf.is_contiguous());
    buf.linearize_one();
    assert_eq!(buf.as_slices(), (&[Some(2)][..], &[][..]));
    buf.push_first(1).unwrap();
    // the element had moved to physical index 0, so the new front wraps
    assert_eq!(buf.as_slices(), (&[Some(1)][..], &[Some(2)][..]));
}

#[test]
fn mutable_views_write_through() {
    let mut buf: ArrayDeque<i32, 4> = ArrayDeque::new();
    assert_eq!(buf.as_mut_slices(), (&mut [][..], &mut [][..]));

    buf.push_last(1).unwrap();
    buf.push_last(2).unwrap();
    assert_eq!(
        buf.as_mut_slices(),
        (&mut [Some(1), Some(2)][..], &mut [][..])
    );

    buf.push_first(-1).unwrap();
    buf.push_first(-2).unwrap();
    assert_eq!(
        buf.as_mut_slices(),
        (&mut [Some(-2), Some(-1)][..], &mut [Some(1), Some(2)][..])
    );

    let (head, tail) = buf.as_mut_slices();
    head[0] = Some(-20);
    tail[1] = Some(20);
    assert_eq!(buf.first(), Some(&-20));
    assert_eq!(buf.last(), Some(&20));
    assert_eq!(buf.len(), 4);

    buf.linearize();
    let run = buf.as_mut_slice();
    assert_eq!(run, &mut [Some(-20), Some(-1), Some(1), Some(20)][..]);
    run[1] = Some(-10);
    assert_eq!(buf.pop_first(), Some(-20));
    assert_eq!(buf.pop_first(), Some(-10));
    // the two elements left reach the end of the storage, so `end` is 0
    assert!(!buf.is_contiguous_any_order());
    assert_eq!(buf.as_mut_slices(), (&mut [Some(1), Some(20)][..], &mut [][..]));
    buf.linearize();
    let run = buf.as_mut_slice();
    assert_eq!(run, &mut [Some(1), Some(20)][..]);
    run[0] = Some(10);
    assert_eq!(buf.as_slice(), &[Some(10), Some(20)][..]);
}

#[test]
fn default_is_an_empty_deque() {
    let mut buf: ArrayDeque<String, 4> = ArrayDeque::default();
    assert!(buf.is_empty());
    assert_eq!(buf.capacity(), 4);
    buf.push_first("a".to_owned()).unwrap();
    assert_eq!(buf.pop_last(), Some("a".to_owned()));

    let plain: ArrayDequePlain<u8, 2> = ArrayDequePlain::default();
    assert!(plain.is_empty());
    assert_eq!(plain.len(), 0);

    let engine: ArrayDequeBase<u8, 2> = ArrayDequeBase::default();
    assert!(engine.is_empty());
    assert_eq!(engine.as_slices(), (&[][..], &[][..]));
}

#[test]
fn length_wraps_with_the_indices() {
    let mut buf: ArrayDequePlain<u8, 8> = ArrayDequePlain::new();
    // end = 1, start = 6: (1 - 6) mod 8 = 3
    buf.push_last(3).unwrap();
    buf.push_first(2).unwrap();
    buf.push_first(1).unwrap();
    assert_eq!(buf.len(), 3);
    assert_eq!(buf.as_slices(), (&[Some(1), Some(2)][..], &[Some(3)][..]));
    // end = 1, start = 1 after popping the two wrapped elements and one more push/pop
    assert_eq!(buf.pop_first(), Some(1));
    assert_eq!(buf.pop_first(), Some(2));
    assert_eq!(buf.len(), 1);
    assert_eq!(buf.pop_first(), Some(3));
    assert_eq!(buf.len(), 0);
    assert!(buf.is_empty());
}

#[test]
fn debug_output_names_the_type() {
    let mut buf: ArrayDeque<u8, 2> = ArrayDeque::new();
    buf.push_last(1).unwrap();
    let text = format!("{:?}", buf);
    assert!(text.starts_with("ArrayDeque("));
    assert!(text.contains("Some(1)"));
}
