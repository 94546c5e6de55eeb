use array_buf::{ArrayDeque, ArrayDequeBase, ArrayDequePlain};
use std::collections::VecDeque;

fn stored<const CAP: usize>(buf: &ArrayDeque<u32, CAP>) -> Vec<u32> {
    let (head, tail) = buf.as_slices();
    let mut values = Vec::new();
    for slot in head.iter().chain(tail.iter()) {
        values.push(slot.unwrap());
    }
    values
}

fn expected(model: &VecDeque<u32>) -> Vec<u32> {
    model.iter().copied().collect()
}

#[test]
fn length_and_flags_follow_any_run_of_pushes_and_pops() {
    let mut buf: ArrayDeque<u32, 4> = ArrayDeque::new();
    let mut model: VecDeque<u32> = VecDeque::new();
    // a fixed linear congruential sequence picks the operations
    let mut seed: u32 = 12345;
    let mut step: u32 = 0;
    while step < 2000 {
        seed = seed.wrapping_mul(1103515245).wrapping_add(12345);
        let choice = (seed >> 16) % 4;
        if choice == 0 {
            let pushed = buf.push_last(step);
            if model.len() < 4 {
                assert_eq!(pushed, Ok(()));
                model.push_back(step);
            } else {
                assert_eq!(pushed, Err("array is full"));
            }
        } else if choice == 1 {
            let pushed = buf.push_first(step);
            if model.len() < 4 {
                assert_eq!(pushed, Ok(()));
                model.push_front(step);
            } else {
                assert_eq!(pushed, Err("array is full"));
            }
        } else if choice == 2 {
            assert_eq!(buf.pop_first(), model.pop_front());
        } else {
            assert_eq!(buf.pop_last(), model.pop_back());
        }
        assert!(buf.len() <= buf.capacity());
        assert_eq!(buf.len(), model.len());
        assert_eq!(buf.is_full(), buf.len() == 4);
        assert_eq!(buf.is_empty(), buf.len() == 0);
        assert_eq!(buf.first(), model.front());
        assert_eq!(buf.last(), model.back());
        assert_eq!(stored(&buf), expected(&model));
        step += 1;
    }
}

#[test]
fn pushed_at_the_back_comes_out_at_the_front_in_order() {
    let mut buf: ArrayDequePlain<u8, 8> = ArrayDequePlain::new();
    // start away from physical index 0, so that the run wraps around
    buf.push_last(0).unwrap();
    buf.push_last(0).unwrap();
    buf.push_last(0).unwrap();
    assert_eq!(buf.pop_first(), Some(0));
    assert_eq!(buf.pop_first(), Some(0));
    assert_eq!(buf.pop_first(), Some(0));
    let values = [10u8, 20, 30, 40, 50, 60, 70, 80];
    for value in values {
        buf.push_last(value).unwrap();
    }
    assert!(buf.is_full());
    for value in values {
        assert_eq!(buf.pop_first(), Some(value));
    }
    assert_eq!(buf.pop_first(), None);
}

#[test]
fn pushed_at_the_front_comes_out_at_the_front_in_reverse() {
    let mut buf: ArrayDeque<u8, 8> = ArrayDeque::new();
    let values = [10u8, 20, 30, 40, 50];
    for value in values {
        buf.push_first(value).unwrap();
    }
    assert_eq!(buf.len(), 5);
    assert_eq!(buf.pop_first(), Some(50));
    assert_eq!(buf.pop_first(), Some(40));
    assert_eq!(buf.pop_first(), Some(30));
    assert_eq!(buf.pop_first(), Some(20));
    assert_eq!(buf.pop_first(), Some(10));
    assert_eq!(buf.pop_first(), None);
}

#[test]
fn pushed_at_the_back_comes_out_at_the_back_in_reverse() {
    let mut buf: ArrayDeque<u8, 4> = ArrayDeque::new();
    buf.push_last(1).unwrap();
    buf.push_last(2).unwrap();
    buf.push_last(3).unwrap();
    assert_eq!(buf.pop_last(), Some(3));
    assert_eq!(buf.pop_last(), Some(2));
    assert_eq!(buf.pop_last(), Some(1));
    assert_eq!(buf.pop_last(), None);
}

#[test]
fn split_views_joined_are_the_elements_in_order() {
    let mut buf: ArrayDeque<u32, 4> = ArrayDeque::new();
    buf.push_last(2).unwrap();
    buf.push_last(3).unwrap();
    buf.push_first(1).unwrap();
    assert_eq!(buf.as_slices(), (&[Some(1)][..], &[Some(2), Some(3)][..]));
    assert_eq!(stored(&buf), vec![1, 2, 3]);
    buf.push_first(0).unwrap();
    // full, front at physical index 2
    assert_eq!(buf.as_slices(), (&[Some(0), Some(1)][..], &[Some(2), Some(3)][..]));
    assert_eq!(stored(&buf), vec![0, 1, 2, 3]);

    buf.linearize();
    assert_eq!(
        buf.as_slices(),
        (&[Some(0), Some(1), Some(2), Some(3)][..], &[][..])
    );
    assert!(buf.is_contiguous_any_order());
    assert_eq!(buf.as_slice(), &[Some(0), Some(1), Some(2), Some(3)][..]);
}

#[test]
fn linearize_leaves_one_run_or_nothing() {
    let none: &[Option<u32>] = &[];
    let mut buf: ArrayDeque<u32, 4> = ArrayDeque::new();
    // empty, indices away from 0
    buf.push_last(1).unwrap();
    assert_eq!(buf.pop_first(), Some(1));
    buf.linearize();
    assert_eq!(buf.as_slices(), (none, none));
    assert!(buf.is_contiguous_any_order());
    assert_eq!(buf.as_slice(), none);

    // two elements across the wrap
    buf.push_first(5).unwrap();
    buf.push_last(6).unwrap();
    assert!(!buf.is_contiguous_any_order());
    buf.linearize();
    assert!(buf.is_contiguous());
    assert_eq!(buf.as_slices(), (&[Some(5), Some(6)][..], none));
    assert_eq!(buf.as_slice(), &[Some(5), Some(6)][..]);
}

#[test]
fn linearize_twice_is_linearize_once() {
    let mut once: ArrayDequePlain<u32, 8> = ArrayDequePlain::new();
    once.push_last(3).unwrap();
    once.push_last(4).unwrap();
    once.push_first(2).unwrap();
    once.push_first(1).unwrap();
    let mut twice = once;

    once.linearize();
    twice.linearize();
    twice.linearize();

    assert_eq!(once.as_slices(), twice.as_slices());
    assert_eq!(once.as_slice(), &[Some(1), Some(2), Some(3), Some(4)][..]);
    assert_eq!(twice.as_slice(), &[Some(1), Some(2), Some(3), Some(4)][..]);
    assert_eq!(once.len(), twice.len());
    // the next pushes land in the same slots
    once.push_first(0).unwrap();
    twice.push_first(0).unwrap();
    assert_eq!(once.as_slices(), twice.as_slices());
    assert_eq!(
        twice.as_slices(),
        (&[Some(0)][..], &[Some(1), Some(2), Some(3), Some(4)][..])
    );
}

#[test]
fn duplicate_has_the_same_length_and_ends() {
    let mut buf: ArrayDeque<String, 4> = ArrayDeque::new();
    buf.push_last("b".to_owned()).unwrap();
    buf.push_last("c".to_owned()).unwrap();
    buf.push_first("a".to_owned()).unwrap();

    let copy = buf.clone();
    assert_eq!(copy.len(), buf.len());
    assert_eq!(copy.first(), buf.first());
    assert_eq!(copy.last(), buf.last());
    assert_eq!(copy.as_slices(), buf.as_slices());
    assert_eq!(copy.is_contiguous(), buf.is_contiguous());
    assert_eq!(copy.first().map(|s| s.as_str()), Some("a"));
    assert_eq!(copy.last().map(|s| s.as_str()), Some("c"));
}

#[test]
fn duplicate_and_source_change_independently() {
    let mut buf: ArrayDeque<String, 4> = ArrayDeque::new();
    buf.push_last("b".to_owned()).unwrap();
    buf.push_first("a".to_owned()).unwrap();
    let mut copy = buf.clone();

    copy.last_mut().unwrap().push('!');
    copy.push_last("c".to_owned()).unwrap();
    assert_eq!(copy.pop_first(), Some("a".to_owned()));
    assert_eq!(buf.len(), 2);
    assert_eq!(buf.first().map(|s| s.as_str()), Some("a"));
    assert_eq!(buf.last().map(|s| s.as_str()), Some("b"));

    buf.first_mut().unwrap().push('?');
    assert_eq!(buf.pop_last(), Some("b".to_owned()));
    assert_eq!(copy.len(), 2);
    assert_eq!(copy.first().map(|s| s.as_str()), Some("b!"));
    assert_eq!(copy.last().map(|s| s.as_str()), Some("c"));
}

#[test]
fn duplicate_of_a_full_wrapped_deque() {
    let mut buf: ArrayDequeBase<u16, 4> = ArrayDequeBase::new();
    buf.push_last(3).unwrap();
    buf.push_last(4).unwrap();
    buf.push_first(2).unwrap();
    buf.push_first(1).unwrap();
    assert!(buf.is_full());
    let mut copy = buf.clone();
    assert!(copy.is_full());
    assert_eq!(copy.len(), 4);
    assert_eq!(copy.as_slices(), buf.as_slices());
    assert_eq!(copy.pop_first(), Some(1));
    assert_eq!(copy.pop_last(), Some(4));
    assert_eq!(buf.len(), 4);
}
