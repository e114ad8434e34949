use rawlist::array::Array;
use rawlist::error::Error;
use rawlist::pow2::{checked_next_power_of_two, is_power_of_two, lower_power_of_two};

fn contents(a: &Array<u32>) -> Vec<u32> {
    (0..a.size()).map(|i| a.get(i).unwrap()).collect()
}

#[test]
fn new_buffer_is_zero_filled() {
    let a: Array<u32> = Array::new(5).unwrap();
    assert_eq!(a.size(), 5);
    assert_eq!(contents(&a), vec![0, 0, 0, 0, 0]);
    assert_eq!(a.get(5), Err(Error::IndexOutOfRange));
}

#[test]
fn set_returns_previous_value() {
    let mut a: Array<u32> = Array::new(3).unwrap();
    assert_eq!(a.set(1, 7), Ok(0));
    assert_eq!(a.set(1, 9), Ok(7));
    assert_eq!(a.set(3, 1), Err(Error::IndexOutOfRange));
    assert_eq!(contents(&a), vec![0, 9, 0]);
}

#[test]
fn slice_filters_on_absolute_index() {
    let a: Array<u32> = Array::from_iter((0..10).collect()).unwrap();
    let s = a.get_slice(2, 10, 3).unwrap();
    assert_eq!(contents(&s), vec![3, 6, 9]);
    let s = a.get_slice(0, 100, 4).unwrap();
    assert_eq!(contents(&s), vec![0, 4, 8]);
    let s = a.get_slice(7, 3, 1).unwrap();
    assert_eq!(s.size(), 0);
}

#[test]
fn split_edges_and_middle() {
    let a: Array<u32> = Array::from_iter(vec![1, 2, 3, 4, 5]).unwrap();
    let (l, r) = a.clone().split(0).unwrap();
    assert_eq!(contents(&l), Vec::<u32>::new());
    assert_eq!(contents(&r), vec![1, 2, 3, 4, 5]);
    let (l, r) = a.clone().split(5).unwrap();
    assert_eq!(contents(&l), vec![1, 2, 3, 4, 5]);
    assert_eq!(contents(&r), Vec::<u32>::new());
    let (l, r) = a.clone().split(9).unwrap();
    assert_eq!(contents(&l), vec![1, 2, 3, 4, 5]);
    assert_eq!(r.size(), 0);
    let (l, r) = a.split(2).unwrap();
    assert_eq!(contents(&l), vec![1, 2]);
    assert_eq!(contents(&r), vec![3, 4, 5]);
}

#[test]
fn clear_keeps_size() {
    let mut a: Array<u32> = Array::from_iter(vec![4, 5, 6]).unwrap();
    a.clear().unwrap();
    assert_eq!(contents(&a), vec![0, 0, 0]);
}

#[test]
fn resize_grows_and_shrinks() {
    let mut a: Array<u32> = Array::from_iter(vec![4, 5, 6]).unwrap();
    a.resize(5).unwrap();
    assert_eq!(contents(&a), vec![4, 5, 6, 0, 0]);
    a.resize(2).unwrap();
    assert_eq!(contents(&a), vec![4, 5]);
    assert_eq!(a.resize(usize::MAX), Err(Error::AllocationError));
    assert_eq!(contents(&a), vec![4, 5]);
}

#[test]
fn shift_opens_and_closes_gaps() {
    let mut a: Array<u32> = Array::from_iter(vec![1, 2, 3, 4, 0]).unwrap();
    a.shift_from(1, 1).unwrap();
    assert_eq!(contents(&a), vec![1, 0, 2, 3, 4]);
    a.shift_from(2, -1).unwrap();
    assert_eq!(contents(&a), vec![1, 2, 3, 4, 0]);
    a.shift_from(0, 2).unwrap();
    assert_eq!(contents(&a), vec![0, 0, 1, 2, 3]);
}

#[test]
fn bulk_copies() {
    let small: Array<u32> = Array::from_iter(vec![7, 8]).unwrap();
    let mut big: Array<u32> = Array::from_iter(vec![1, 2, 3, 4]).unwrap();
    big.clone_from(&small).unwrap();
    assert_eq!(contents(&big), vec![7, 8, 3, 4]);

    let mut small2 = small.clone();
    assert_eq!(small2.clone_from(&big), Err(Error::InsufficientSpace));
    assert_eq!(contents(&small2), vec![7, 8]);

    let src: Array<u32> = Array::from_iter(vec![9]).unwrap();
    src.clone_into(&mut big).unwrap();
    assert_eq!(contents(&big), vec![9, 8, 3, 4]);
    assert_eq!(big.clone_into(&mut small2), Err(Error::InsufficientSpace));

    small2.clone_from_unchecked(&big);
    assert_eq!(contents(&small2), vec![9, 8]);
    let ones: Array<u32> = Array::from_iter(vec![1, 1, 1]).unwrap();
    ones.clone_into_unchecked(&mut big);
    assert_eq!(contents(&big), vec![1, 1, 1, 4]);
}

#[test]
fn layouts() {
    let l = Array::<u64>::layout_for_size(5).unwrap();
    assert_eq!((l.size, l.align), (40, 8));
    let l = Array::<[u8; 3]>::layout_for_size(5).unwrap();
    assert_eq!((l.size, l.align), (15, 4));
    let l = Array::<()>::layout_for_size(usize::MAX).unwrap();
    assert_eq!((l.size, l.align), (0, 1));
    assert!(matches!(Array::<u64>::layout_for_size(usize::MAX), Err(Error::AllocationError)));
    assert!(matches!(Array::<u8>::layout_for_size(usize::MAX), Err(Error::AllocationError)));
}

#[test]
fn array_iterator() {
    let a: Array<u32> = Array::from_iter(vec![3, 1, 2]).unwrap();
    let mut it = a.into_iter();
    assert_eq!(it.next(), Some(3));
    assert_eq!(it.next(), Some(1));
    assert_eq!(it.next(), Some(2));
    assert_eq!(it.next(), None);
    let mut empty = Array::<u32>::new(0).unwrap().into_iter();
    assert_eq!(empty.next(), None);
}

#[test]
fn powers_of_two() {
    assert!(!is_power_of_two(0));
    assert!(is_power_of_two(1));
    assert!(is_power_of_two(64));
    assert!(!is_power_of_two(12));
    assert_eq!(checked_next_power_of_two(0), Some(1));
    assert_eq!(checked_next_power_of_two(5), Some(8));
    assert_eq!(checked_next_power_of_two(8), Some(8));
    assert_eq!(checked_next_power_of_two(usize::MAX), None);
    assert_eq!(lower_power_of_two(8), 4);
    assert_eq!(lower_power_of_two(9), 8);
    assert_eq!(lower_power_of_two(1), 0);
    assert_eq!(lower_power_of_two(usize::MAX), 1usize << 63);
}

#[test]
fn blank_value_is_zero() {
    let a: Array<u32> = Array::from_iter(vec![3, 4]).unwrap();
    assert_eq!(a.blank_value(), 0);
}
