use rawlist::array::Array;
use rawlist::error::Error;
use rawlist::list::List;

#[test]
fn iter_test() -> Result<(), Error> {
    let l: List<usize> = List::from_iter((0..1000usize).collect())?;

    let mut iter = l.clone().into_iter();

    assert_eq!(iter.next(), Some(0usize));
    assert_eq!(iter.next(), Some(1usize));
    assert_eq!(iter.next(), Some(2usize));

    Ok(())
}

#[test]
fn push_pop() -> Result<(), Error> {
    let mut l: List<char> = List::with_capacity(11)?;

    l.extend(String::from("Hello World").chars().collect())?;
    let mut it = l.clone().into_iter();
    while let Some(c) = it.next() {
        println!("{:?}", c);
    }
    assert_eq!(l.len(), 11);
    Ok(())
}

#[test]
fn hello_scenario() {
    let mut l: List<char> = List::new().unwrap();
    for c in ['H', 'e', 'l', 'l', 'o'] {
        l.push_back(c).unwrap();
    }
    assert_eq!(l.len(), 5);
    let got: Vec<char> = (0..5).map(|i| l.get(i).unwrap()).collect();
    assert_eq!(got, vec!['H', 'e', 'l', 'l', 'o']);
    assert_eq!(l.pop_front(), Ok('H'));
    assert_eq!(l.len(), 4);
    let got: Vec<char> = (0..4).map(|i| l.get(i).unwrap()).collect();
    assert_eq!(got, vec!['e', 'l', 'l', 'o']);
}

#[test]
fn push_back_round_trip() {
    let mut l: List<u32> = List::new().unwrap();
    for v in 0..100u32 {
        l.push_back(v * 7 + 1).unwrap();
        assert_eq!(l.get(v as usize), Ok(v * 7 + 1));
    }
    for i in 0..100usize {
        assert_eq!(l.get(i), Ok(i as u32 * 7 + 1));
    }
}

#[test]
fn bounds_errors() {
    let mut l: List<u8> = List::new().unwrap();
    assert_eq!(l.get(0), Err(Error::IndexOutOfRange));
    assert_eq!(l.push(1, 9), Err(Error::IndexOutOfRange));
    assert_eq!(l.pop(0), Err(Error::EmptyContainer));
    assert_eq!(l.pop_back(), Err(Error::EmptyContainer));
    assert_eq!(l.pop_front(), Err(Error::EmptyContainer));
    for v in 0..3u8 {
        l.push_back(v).unwrap();
    }
    assert_eq!(l.get(3), Err(Error::IndexOutOfRange));
    assert_eq!(l.push(4, 9), Err(Error::IndexOutOfRange));
    assert_eq!(l.pop(3), Err(Error::IndexOutOfRange));
    assert_eq!(l.len(), 3);
}

#[test]
fn capacity_after_pushes() {
    let mut l: List<u64> = List::new().unwrap();
    assert_eq!(l.capacity(), 4);
    for n in 1..=70usize {
        let before = l.capacity();
        l.push_back(n as u64).unwrap();
        assert!(l.capacity() >= before);
        let expected = if n < 4 { 4 } else { (n + 1).next_power_of_two() };
        assert_eq!(l.capacity(), expected);
    }
    assert_eq!(l.capacity(), 128);
}

#[test]
fn capacity_shrinks_on_pop() {
    let mut l: List<u64> = List::from_iter((0..9u64).collect()).unwrap();
    assert_eq!(l.capacity(), 9);
    // 9 is not a power of two: the lower power is 8, and 9 elements are not below it
    assert_eq!(l.pop_back(), Ok(8));
    assert_eq!(l.capacity(), 9);
    // 8 elements are not below 8 either
    assert_eq!(l.pop_back(), Ok(7));
    assert_eq!(l.capacity(), 9);
    // 7 elements are below 8: shrink to 8
    assert_eq!(l.pop_back(), Ok(6));
    assert_eq!(l.capacity(), 8);
    assert_eq!(l.len(), 6);
    // 6 is not below 4
    assert_eq!(l.pop_front(), Ok(0));
    assert_eq!(l.capacity(), 8);
    let got: Vec<u64> = (0..5).map(|i| l.get(i).unwrap()).collect();
    assert_eq!(got, vec![1, 2, 3, 4, 5]);
}

#[test]
fn insert_and_remove_in_the_middle() {
    let mut l: List<i32> = List::from_iter(vec![10, 20, 30, 40]).unwrap();
    l.push(2, 25).unwrap();
    let got: Vec<i32> = (0..l.len()).map(|i| l.get(i).unwrap()).collect();
    assert_eq!(got, vec![10, 20, 25, 30, 40]);
    l.push_front(5).unwrap();
    l.push(6, 50).unwrap();
    let got: Vec<i32> = (0..l.len()).map(|i| l.get(i).unwrap()).collect();
    assert_eq!(got, vec![5, 10, 20, 25, 30, 40, 50]);
    assert_eq!(l.pop(3), Ok(25));
    let got: Vec<i32> = (0..l.len()).map(|i| l.get(i).unwrap()).collect();
    assert_eq!(got, vec![5, 10, 20, 30, 40, 50]);
}

#[test]
fn push_into_zero_capacity() {
    let mut l: List<u16> = List::with_capacity(0).unwrap();
    assert_eq!(l.capacity(), 0);
    l.push_back(1).unwrap();
    assert_eq!(l.capacity(), 1);
    l.push_back(2).unwrap();
    assert_eq!(l.capacity(), 2);
    l.push_front(0).unwrap();
    assert_eq!(l.capacity(), 4);
    let got: Vec<u16> = (0..3).map(|i| l.get(i).unwrap()).collect();
    assert_eq!(got, vec![0, 1, 2]);
}

#[test]
fn extend_appends_in_order() {
    let mut l: List<u8> = List::from_iter(vec![1, 2]).unwrap();
    l.extend(vec![3, 4, 5, 6, 7]).unwrap();
    assert_eq!(l.len(), 7);
    let got: Vec<u8> = (0..7).map(|i| l.get(i).unwrap()).collect();
    assert_eq!(got, vec![1, 2, 3, 4, 5, 6, 7]);
}

#[test]
fn iterator_hands_out_everything_once() {
    let l: List<u8> = List::from_iter(vec![4, 5, 6]).unwrap();
    let mut it = l.into_iter();
    assert_eq!(it.next(), Some(4));
    assert_eq!(it.next(), Some(5));
    assert_eq!(it.next(), Some(6));
    assert_eq!(it.next(), None);
    assert_eq!(it.next(), None);
}

#[test]
fn too_large_capacity_is_refused() {
    assert!(matches!(List::<u64>::with_capacity(usize::MAX), Err(Error::AllocationError)));
    assert!(matches!(List::<u64>::with_capacity(usize::MAX / 8), Err(Error::AllocationError)));
}

#[test]
fn list_from_array() {
    let a: Array<u32> = Array::from_iter(vec![5, 6, 7]).unwrap();
    let mut l = List::from_array(a);
    assert_eq!(l.len(), 3);
    assert_eq!(l.capacity(), 3);
    assert_eq!(l.get(2), Ok(7));
    assert_eq!(l.pop_back(), Ok(7));
    assert_eq!(l.len(), 2);
    l.push_back(8).unwrap();
    let got: Vec<u32> = (0..l.len()).map(|i| l.get(i).unwrap()).collect();
    assert_eq!(got, vec![5, 6, 8]);
}

#[test]
fn pop_last_of_full_list_then_grow() {
    let mut l: List<u32> = List::from_iter(vec![1, 2, 3, 4]).unwrap();
    assert_eq!(l.pop(3), Ok(4));
    assert_eq!(l.capacity(), 4);
    l.push(1, 9).unwrap();
    assert_eq!(l.capacity(), 8);
    let got: Vec<u32> = (0..l.len()).map(|i| l.get(i).unwrap()).collect();
    assert_eq!(got, vec![1, 9, 2, 3]);
}
