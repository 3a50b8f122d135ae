//! Behaviour of the length-bounded list and its bound errors.

use borscht::bounded_list::{BoundedList, InvalidBounds, MinBoundExceeded};

fn assert_list_eq(list: &BoundedList<i32>, values: &[i32], min: usize, max: usize) {
    assert_eq!(list.len(), values.len());
    assert_eq!(list.min_size(), min);
    assert_eq!(list.max_size(), max);
    let mut it = list.iter();
    let mut seen: usize = 0;
    while let Some(v) = it.next() {
        assert_eq!(*v, values[seen]);
        seen += 1;
    }
    assert_eq!(seen, values.len());
}

#[test]
fn bounded_list_from_arr() {
    let list_result = BoundedList::from_arr([4, 2, 5, 5], 4, 3);
    assert!(list_result.is_err());
    assert_eq!(list_result.unwrap_err(), InvalidBounds);

    let list_result = BoundedList::from_arr([4, 2, 5, 5], 4, 4);
    assert!(list_result.is_ok());
    assert_list_eq(&list_result.unwrap(), &[4, 2, 5, 5], 4, 4);

    let list_result = BoundedList::from_arr([4, 2, 5, 5], 2, 4);
    assert!(list_result.is_ok());
    assert_list_eq(&list_result.unwrap(), &[4, 2, 5, 5], 2, 4);

    let list_result = BoundedList::from_arr([4, 2, 5], 2, 4);
    assert!(list_result.is_ok());
    assert_list_eq(&list_result.unwrap(), &[4, 2, 5], 2, 4);

    let list_result = BoundedList::from_arr([4, 2], 2, 4);
    assert!(list_result.is_ok());
    assert_list_eq(&list_result.unwrap(), &[4, 2], 2, 4);

    let list_result = BoundedList::from_arr([4], 2, 4);
    assert!(list_result.is_err());
    assert_eq!(list_result.unwrap_err(), InvalidBounds);

    let list_result = BoundedList::from_arr([4, 2, 5, 5, 1], 2, 4);
    assert!(list_result.is_err());
    assert_eq!(list_result.unwrap_err(), InvalidBounds);
}

#[test]
fn from_iter() {
    let list_result = BoundedList::from_iter(vec![4, 2, 5, 5], 4, 4);
    assert!(list_result.is_ok());
    assert_list_eq(&list_result.unwrap(), &[4, 2, 5, 5], 4, 4);

    let list_result = BoundedList::from_iter(vec![4, 2, 5], 4, 4);
    assert!(list_result.is_err());
    assert_eq!(list_result.unwrap_err(), InvalidBounds);

    let list_result = BoundedList::from_iter(vec![4, 2, 5, 5, 1], 2, 4);
    assert!(list_result.is_err());
    assert_eq!(list_result.unwrap_err(), InvalidBounds);
}

#[test]
fn push_respects_max_bound() {
    let mut list: BoundedList<i32> = BoundedList::with_max(2);
    assert!(list.push(7).is_ok());
    assert!(list.push(8).is_ok());
    let rejected = list.push(9);
    assert!(rejected.is_err());
    assert_eq!(rejected.unwrap_err().0, 9);
    assert_list_eq(&list, &[7, 8], 0, 2);
}

#[test]
fn pop_respects_min_bound() {
    let mut list = BoundedList::from_arr([1, 2, 3], 2, 4).unwrap();
    let popped = list.pop();
    assert!(popped.is_ok());
    assert_eq!(popped.unwrap(), 3);
    let refused = list.pop();
    assert!(refused.is_err());
    assert_eq!(refused.unwrap_err(), MinBoundExceeded);
    assert_list_eq(&list, &[1, 2], 2, 4);
}

#[test]
fn drain_empties_in_order() {
    let mut list = BoundedList::from_arr([10, 20, 30], 1, 5).unwrap();
    let mut drained = list.drain();
    assert_eq!(drained.next(), Some(10));
    assert_eq!(drained.next(), Some(20));
    assert_eq!(drained.next(), Some(30));
    assert_eq!(drained.next(), None);
    assert_eq!(list.len(), 0);
    assert_eq!(list.min_size(), 1);
    assert_eq!(list.max_size(), 5);
}
