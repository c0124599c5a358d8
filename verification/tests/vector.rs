use quantum_stdlib::{IndexOutOfBounds, Vector};

#[test]
fn new_vector_is_empty() {
    let v: Vector<u64> = Vector::new();
    assert_eq!(v.len(), 0);
    assert!(v.is_empty());
}

#[test]
fn push_grows_by_one_and_places_at_end() {
    let mut v = Vector::new();
    v.push(42u64);
    assert_eq!(v.len(), 1);
    assert_eq!(v.get(0), Some(&42u64));
    v.push(7u64);
    assert_eq!(v.len(), 2);
    assert_eq!(v.get(1), Some(&7u64));
    assert_eq!(v.get(0), Some(&42u64));
}

#[test]
fn pop_returns_in_stack_order() {
    let mut v = Vector::new();
    v.push(1u64);
    v.push(2u64);
    v.push(3u64);
    assert_eq!(v.pop(), Some(3u64));
    assert_eq!(v.pop(), Some(2u64));
    assert_eq!(v.len(), 1);
    assert_eq!(v.pop(), Some(1u64));
    assert_eq!(v.pop(), None);
    assert_eq!(v.len(), 0);
}

#[test]
fn with_capacity_pop_on_empty_signals_absence() {
    let mut v: Vector<u64> = Vector::with_capacity(5);
    assert_eq!(v.len(), 0);
    assert_eq!(v.pop(), None);
    assert_eq!(v.len(), 0);
}

#[test]
fn get_out_of_bounds_is_absence() {
    let mut v = Vector::new();
    v.push(42u64);
    assert_eq!(v.get(0), Some(&42u64));
    assert_eq!(v.get(1), None);
    assert_eq!(v.get(u64::MAX), None);
}

#[test]
fn get_mut_changes_one_element() {
    let mut v = Vector::new();
    v.push(42u64);
    if let Some(elem) = v.get_mut(0) {
        *elem = 100;
    }
    assert_eq!(v.get(0), Some(&100u64));
    assert!(v.get_mut(1).is_none());
}

#[test]
fn set_overwrites_in_bounds() {
    let mut v = Vector::new();
    v.push(42u64);
    v.set(0, 100u64).unwrap();
    assert_eq!(v.get(0), Some(&100u64));
    assert_eq!(v.len(), 1);
}

#[test]
fn set_out_of_bounds_fails_and_leaves_unchanged() {
    let mut v = Vector::new();
    v.push(1u64);
    let err = v.set(3, 9u64).unwrap_err();
    assert_eq!(err, IndexOutOfBounds { index: 3, len: 1 });
    assert_eq!(v.get(0), Some(&1u64));
    assert_eq!(v.len(), 1);
}

#[test]
fn swap_exchanges_two_elements() {
    let mut v = Vector::new();
    v.push(1u64);
    v.push(2u64);
    v.swap(0, 1).unwrap();
    assert_eq!(v.get(0), Some(&2u64));
    assert_eq!(v.get(1), Some(&1u64));
    v.swap(1, 1).unwrap();
    assert_eq!(v.get(1), Some(&1u64));
}

#[test]
fn swap_out_of_bounds_names_the_offending_index() {
    let mut v = Vector::new();
    v.push(1u64);
    v.push(2u64);
    let err = v.swap(5, 1).unwrap_err();
    assert_eq!(err, IndexOutOfBounds { index: 5, len: 2 });
    let err = v.swap(0, 7).unwrap_err();
    assert_eq!(err, IndexOutOfBounds { index: 7, len: 2 });
    assert_eq!(v.get(0), Some(&1u64));
    assert_eq!(v.get(1), Some(&2u64));
    assert_eq!(v.len(), 2);
}

#[test]
fn remove_shifts_later_elements() {
    let mut v = Vector::new();
    v.push(1u64);
    v.push(2u64);
    v.push(3u64);
    assert_eq!(v.remove(1).unwrap(), 2u64);
    assert_eq!(v.len(), 2);
    assert_eq!(v.get(0), Some(&1u64));
    assert_eq!(v.get(1), Some(&3u64));
}

#[test]
fn remove_out_of_bounds_fails_and_leaves_unchanged() {
    let mut v = Vector::new();
    v.push(1u64);
    let err = v.remove(1).unwrap_err();
    assert_eq!(err, IndexOutOfBounds { index: 1, len: 1 });
    assert_eq!(v.len(), 1);
    assert_eq!(v.get(0), Some(&1u64));
}

#[test]
fn insert_shifts_and_appends_at_length() {
    let mut v = Vector::new();
    v.push(1u64);
    v.push(3u64);
    v.insert(1, 2u64).unwrap();
    assert_eq!(v.get(0), Some(&1u64));
    assert_eq!(v.get(1), Some(&2u64));
    assert_eq!(v.get(2), Some(&3u64));
    v.insert(3, 4u64).unwrap();
    assert_eq!(v.get(3), Some(&4u64));
}

#[test]
fn insert_past_length_fails_and_leaves_unchanged() {
    let mut v = Vector::new();
    v.push(1u64);
    let err = v.insert(2, 9u64).unwrap_err();
    assert_eq!(err, IndexOutOfBounds { index: 2, len: 1 });
    assert_eq!(v.len(), 1);
    assert_eq!(v.get(0), Some(&1u64));
}

#[test]
fn insert_then_remove_is_a_round_trip() {
    let mut v = Vector::new();
    v.push(10u64);
    v.push(20u64);
    v.push(30u64);
    v.insert(1, 99u64).unwrap();
    assert_eq!(v.remove(1).unwrap(), 99u64);
    assert_eq!(v.len(), 3);
    assert_eq!(v.get(0), Some(&10u64));
    assert_eq!(v.get(1), Some(&20u64));
    assert_eq!(v.get(2), Some(&30u64));
}

#[test]
fn clear_removes_everything() {
    let mut v = Vector::new();
    v.push(1u64);
    v.push(2u64);
    v.clear();
    assert!(v.is_empty());
    assert_eq!(v.get(0), None);
}

#[test]
fn contains_finds_equal_elements() {
    let mut v = Vector::new();
    v.push(1u64);
    v.push(2u64);
    assert!(v.contains(&2u64));
    assert!(!v.contains(&3u64));
    let empty: Vector<u64> = Vector::new();
    assert!(!empty.contains(&1u64));
}

#[test]
fn reverse_inverts_order() {
    let mut v = Vector::new();
    v.push(1u64);
    v.push(2u64);
    v.push(3u64);
    v.reverse();
    assert_eq!(v.get(0), Some(&3u64));
    assert_eq!(v.get(1), Some(&2u64));
    assert_eq!(v.get(2), Some(&1u64));
}

#[test]
fn reverse_twice_restores_order() {
    let mut v = Vector::new();
    v.push(5u64);
    v.push(6u64);
    v.push(7u64);
    v.push(8u64);
    v.reverse();
    v.reverse();
    assert_eq!(v.get(0), Some(&5u64));
    assert_eq!(v.get(1), Some(&6u64));
    assert_eq!(v.get(2), Some(&7u64));
    assert_eq!(v.get(3), Some(&8u64));
}

#[test]
fn iter_walks_elements_in_index_order() {
    let mut v = Vector::new();
    v.push(1u64);
    v.push(2u64);
    v.push(3u64);
    let collected: Vec<u64> = v.iter().copied().collect();
    assert_eq!(collected, vec![1, 2, 3]);
    let sum: u64 = v.iter().sum();
    assert_eq!(sum, 6);
}

#[test]
fn into_inner_and_from_vec_round_trip() {
    let mut v = Vector::new();
    v.push(1u64);
    v.push(2u64);
    let inner = v.into_inner();
    assert_eq!(inner, vec![1u64, 2u64]);
    let rebuilt = Vector::from_vec(inner);
    assert_eq!(rebuilt.len(), 2);
    assert_eq!(rebuilt.get(0), Some(&1u64));
    assert_eq!(rebuilt.get(1), Some(&2u64));
}

#[test]
fn scenario_push_swap_remove_insert_reverse() {
    let mut v = Vector::new();
    v.push(1u64);
    v.push(2u64);
    v.push(3u64);
    assert_eq!(v.len(), 3);
    assert_eq!(v.get(0), Some(&1u64));
    assert_eq!(v.get(1), Some(&2u64));
    assert_eq!(v.get(2), Some(&3u64));

    v.swap(0, 2).unwrap();
    assert_eq!(v.get(0), Some(&3u64));
    assert_eq!(v.get(2), Some(&1u64));

    assert_eq!(v.remove(1).unwrap(), 2u64);
    assert_eq!(v.len(), 2);
    assert_eq!(v.get(0), Some(&3u64));
    assert_eq!(v.get(1), Some(&1u64));

    v.insert(1, 9u64).unwrap();
    assert_eq!(v.get(0), Some(&3u64));
    assert_eq!(v.get(1), Some(&9u64));
    assert_eq!(v.get(2), Some(&1u64));

    v.reverse();
    assert_eq!(v.get(0), Some(&1u64));
    assert_eq!(v.get(1), Some(&9u64));
    assert_eq!(v.get(2), Some(&3u64));
}
