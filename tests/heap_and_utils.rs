use staticvec::heap::StaticHeap;
use staticvec::static_vec::{ErrorKind, StaticVec};
use staticvec::utils::{distance_between, partial_compare, reverse_copy};
use std::cmp::Ordering;

#[test]
fn sorted_from_four_keys() {
    let mut h = StaticHeap::<u64, 4>::new();
    for x in [5u64, 1, 9, 3] {
        assert_eq!(h.push(x), Ok(()));
    }
    let sorted = h.into_sorted_staticvec();
    assert_eq!(sorted.as_slice(), &[9, 5, 3, 1]);
}

#[test]
fn peek_is_max_after_each_push() {
    let keys = [12u64, 3, 40, 40, 7, 0, 99, 15];
    let mut h = StaticHeap::<u64, 16>::new();
    let mut max = 0u64;
    for (count, x) in keys.iter().enumerate() {
        assert_eq!(h.push(*x), Ok(()));
        max = max.max(*x);
        assert_eq!(h.peek(), Some(max));
        assert_eq!(h.len(), count + 1);
    }
}

#[test]
fn heap_pops_in_descending_order() {
    let mut h = StaticHeap::<u64, 8>::new();
    for x in [4u64, 8, 1, 8, 6] {
        assert_eq!(h.push(x), Ok(()));
    }
    let mut out = Vec::new();
    while let Some(x) = h.pop() {
        out.push(x);
    }
    assert_eq!(out, vec![8, 8, 6, 4, 1]);
    assert!(h.is_empty());
}

#[test]
fn heap_empty_and_full() {
    let mut h = StaticHeap::<u64, 2>::new();
    assert_eq!(h.peek(), None);
    assert_eq!(h.pop(), None);
    assert_eq!(h.push(1), Ok(()));
    assert_eq!(h.push(2), Ok(()));
    assert_eq!(h.push(3), Err((ErrorKind::Capacity, 3)));
    assert_eq!(h.len(), 2);
    assert_eq!(h.capacity(), 2);
    assert_eq!(h.peek(), Some(2));
}

#[test]
fn heap_from_staticvec() {
    let v = StaticVec::<u64, 6>::from_vec(vec![3, 17, 2, 17, 5, 11]);
    let h = StaticHeap::from_staticvec(&v);
    assert_eq!(h.peek(), Some(17));
    assert_eq!(h.into_sorted_staticvec().as_slice(), &[17, 17, 11, 5, 3, 2]);
}

#[test]
fn distance_is_index_difference() {
    assert_eq!(distance_between(7, 3), 4);
    assert_eq!(distance_between(5, 5), 0);
}

#[test]
fn reverse_copy_of_prefix() {
    assert_eq!(reverse_copy(3, &[1, 2, 3, 4, 5]), vec![3, 2, 1]);
    assert_eq!(reverse_copy(0, &[1, 2]), Vec::<i32>::new());
}

#[test]
fn partial_compare_cases() {
    assert_eq!(partial_compare(&[1, 2], &[1, 2, 3]), Some(Ordering::Less));
    assert_eq!(partial_compare(&[2], &[1, 5]), Some(Ordering::Greater));
    assert_eq!(partial_compare(&[1, 4, 0], &[1, 5]), Some(Ordering::Less));
    assert_eq!(partial_compare::<u64>(&[], &[]), Some(Ordering::Equal));
    assert_eq!(partial_compare(&[3, 3], &[3, 3]), Some(Ordering::Equal));
}

#[test]
fn partial_compare_unordered_pair() {
    assert_eq!(partial_compare(&[1.0, f64::NAN], &[1.0, 2.0]), None);
    assert_eq!(partial_compare(&[0.5, f64::NAN], &[1.0, 2.0]), Some(Ordering::Less));
}

#[test]
fn heap_of_tuple_keys() {
    let mut h = StaticHeap::<(u8, char), 5>::new();
    for key in [(2, 'b'), (7, 'a'), (2, 'z'), (0, 'q')] {
        assert_eq!(h.push(key), Ok(()));
    }
    assert_eq!(h.peek(), Some((7, 'a')));
    let sorted = h.into_sorted_staticvec();
    assert_eq!(sorted.as_slice(), &[(7, 'a'), (2, 'z'), (2, 'b'), (0, 'q')]);
}
