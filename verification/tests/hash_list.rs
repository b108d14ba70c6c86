use kwik::collections::HashList;

#[test]
fn it_pushes_front_correctly() {
    let mut list = HashList::<u32>::default();
    let values = vec![1, 2, 3, 4];

    for value in &values {
        list.push_front(*value);
    }

    for (index, value) in list.iter().iter().enumerate() {
        assert_eq!(*value, values[values.len() - index - 1]);
    }
}

#[test]
fn it_pushes_back_correctly() {
    let mut list = HashList::<u32>::default();
    let values = vec![1, 2, 3, 4];

    for value in &values {
        list.push_back(*value);
    }

    for (index, value) in list.iter().iter().enumerate() {
        assert_eq!(*value, values[index]);
    }
}

#[test]
fn it_moves_front_correctly() {
    let mut list = HashList::<u32>::default();
    let values = vec![1, 2, 3, 4];

    for value in &values {
        list.push_back(*value);
    }

    list.move_front(&2);

    let expected = [2, 1, 3, 4];

    for (index, value) in list.iter().iter().enumerate() {
        assert_eq!(*value, expected[index]);
    }
}

#[test]
fn it_moves_back_correctly() {
    let mut list = HashList::<u32>::default();
    let values = vec![1, 2, 3, 4];

    for value in &values {
        list.push_back(*value);
    }

    list.move_back(&2);

    let expected = [1, 3, 4, 2];

    for (index, value) in list.iter().iter().enumerate() {
        assert_eq!(*value, expected[index]);
    }
}

#[test]
fn it_pops_front_correctly() {
    let mut list = HashList::<u32>::default();
    let mut values = vec![1, 2, 3, 4];

    for value in &values {
        list.push_back(*value);
    }

    assert_eq!(list.pop_front(), Some(1));
    values.remove(0);

    for (index, value) in list.iter().iter().enumerate() {
        assert_eq!(*value, values[index]);
    }
}

#[test]
fn it_pops_back_correctly() {
    let mut list = HashList::<u32>::default();
    let mut values = vec![1, 2, 3, 4];

    for value in &values {
        list.push_back(*value);
    }

    assert_eq!(list.pop_back(), Some(4));
    values.remove(3);

    for (index, value) in list.iter().iter().enumerate() {
        assert_eq!(*value, values[index]);
    }
}

#[test]
fn it_iterates_correctly() {
    let mut list = HashList::<u32>::default();
    for value in [1, 2, 3] {
        list.push_back(value);
    }

    let mut iter = list.iter().into_iter();
    assert_eq!(iter.next(), Some(1));
    assert_eq!(iter.next(), Some(2));
    assert_eq!(iter.next(), Some(3));
    assert_eq!(iter.next(), None);

    assert_eq!(list.pop_front(), Some(1));
    assert_eq!(list.pop_front(), Some(2));
    assert_eq!(list.pop_front(), Some(3));
    assert_eq!(list.pop_front(), None);
}

#[test]
fn it_reverse_iterates_correctly() {
    let mut list = HashList::<u32>::default();
    for value in [1, 2, 3, 4, 5, 6] {
        list.push_back(value);
    }

    let mut iter = list.iter().into_iter();
    assert_eq!(iter.next(), Some(1));
    assert_eq!(iter.next_back(), Some(6));
    assert_eq!(iter.next_back(), Some(5));
    assert_eq!(iter.next(), Some(2));
    assert_eq!(iter.next(), Some(3));
    assert_eq!(iter.next(), Some(4));
    assert_eq!(iter.next(), None);
    assert_eq!(iter.next_back(), None);

    assert_eq!(list.pop_front(), Some(1));
    assert_eq!(list.pop_back(), Some(6));
    assert_eq!(list.pop_back(), Some(5));
    assert_eq!(list.pop_front(), Some(2));
    assert_eq!(list.pop_front(), Some(3));
    assert_eq!(list.pop_front(), Some(4));
    assert_eq!(list.pop_front(), None);
    assert_eq!(list.pop_back(), None);
}

#[test]
fn list_push_returns_replaced_entry() {
    let mut list = HashList::<u64>::default();
    assert_eq!(list.push_front(1), None);
    assert_eq!(list.push_front(2), None);
    assert_eq!(list.push_front(3), None);
    assert_eq!(list.push_front(2), Some(2));
    assert_eq!(list.iter(), vec![2, 3, 1]);
    assert_eq!(list.push_back(3), Some(3));
    assert_eq!(list.iter(), vec![2, 1, 3]);
    assert_eq!(list.len(), 3);
}

#[test]
fn list_front_back_get_before_after() {
    let mut list = HashList::<u64>::new();
    assert!(list.is_empty());
    assert_eq!(list.front(), None);
    assert_eq!(list.back(), None);
    list.push_back(1);
    list.push_back(2);
    list.push_back(3);
    assert_eq!(list.front(), Some(&1));
    assert_eq!(list.back(), Some(&3));
    assert!(list.contains(&2));
    assert!(!list.contains(&4));
    assert_eq!(list.get(&1), Some(&1));
    assert_eq!(list.get(&7), None);
    assert_eq!(list.before(&2), Some(&1));
    assert_eq!(list.before(&1), None);
    assert_eq!(list.after(&1), Some(&2));
    assert_eq!(list.after(&3), None);
    assert_eq!(list.after(&9), None);
}

#[test]
fn list_remove_and_clear() {
    let mut list = HashList::<u64>::default();
    list.push_back(1);
    list.push_back(2);
    assert_eq!(list.remove(&1), Some(1));
    assert_eq!(list.remove(&3), None);
    assert_eq!(list.iter(), vec![2]);
    list.push_back(5);
    list.push_front(7);
    assert_eq!(list.iter(), vec![7, 2, 5]);
    list.clear();
    assert_eq!(list.len(), 0);
    assert_eq!(list.pop_front(), None);
}

#[test]
fn list_moves_absent_and_front_entries() {
    let mut list = HashList::<u64>::default();
    list.push_back(1);
    list.push_back(2);
    list.move_front(&9);
    list.move_front(&1);
    list.move_back(&2);
    assert_eq!(list.iter(), vec![1, 2]);
}

#[test]
fn list_reuses_freed_slots() {
    let mut list = HashList::<u64>::default();
    for round in 0..3u64 {
        for v in 0..10u64 {
            list.push_back(v + round);
        }
        for v in 0..5u64 {
            list.remove(&(v + round));
        }
    }
    assert_eq!(list.iter(), vec![7, 8, 9, 10, 11]);
    assert_eq!(list.before(&9), Some(&8));
}

#[test]
fn list_updates_in_place() {
    let mut list = HashList::<u64>::default();

    list.push_back(1);
    list.push_back(2);
    list.push_back(3);

    list.update(&2, |value: u64| value + 10);
    assert_eq!(list.iter(), vec![1, 12, 3]);
    assert_eq!(list.get(&2), None);
    assert_eq!(list.get(&12), Some(&12));

    list.update(&7, |value: u64| value + 1);
    assert_eq!(list.iter(), vec![1, 12, 3]);
}

#[test]
fn list_update_replaces_equal_value() {
    let mut list = HashList::<u64>::default();

    list.push_back(1);
    list.push_back(2);
    list.push_back(3);

    list.update(&1, |_value: u64| 3);
    assert_eq!(list.iter(), vec![3, 2]);
    assert_eq!(list.len(), 2);
}
