use btreelist::{Action, BTreeList};

fn items_of<T: Copy, const B: usize>(list: &BTreeList<T, B>) -> Vec<T> {
    let mut items = Vec::new();
    let mut iter = list.iter();
    while let Some(item) = iter.next() {
        items.push(*item);
    }
    items
}

fn filled<const B: usize>(n: usize) -> BTreeList<usize, B> {
    let mut list = BTreeList::new();
    for i in 0..n {
        list.push(i);
    }
    list
}

/// A small generator of numbers that look random and are the same on every
/// run.
struct Numbers(u64);

impl Numbers {
    fn next(&mut self) -> usize {
        self.0 = self
            .0
            .wrapping_mul(6364136223846793005)
            .wrapping_add(1442695040888963407);
        (self.0 >> 33) as usize
    }
}

fn churn<const B: usize>(seed: u64, steps: usize) {
    let mut numbers = Numbers(seed);
    let mut list: BTreeList<usize, B> = BTreeList::new();
    let mut reference: Vec<usize> = Vec::new();
    let mut inserted = 0;
    let mut removed = 0;
    for step in 0..steps {
        let grow = reference.len() < 40 || numbers.next() % 3 != 0;
        let kind = numbers.next() % 4;
        if kind == 0 && !reference.is_empty() {
            let index = numbers.next() % reference.len();
            assert_eq!(list.set(index, step), Ok(reference[index]));
            reference[index] = step;
        } else if grow {
            let index = numbers.next() % (reference.len() + 1);
            assert_eq!(list.insert(index, step), Ok(()));
            reference.insert(index, step);
            inserted += 1;
        } else {
            let index = numbers.next() % reference.len();
            assert_eq!(list.remove(index), Some(reference.remove(index)));
            removed += 1;
        }
        assert_eq!(list.len(), inserted - removed);
        assert_eq!(list.len(), reference.len());
        assert_eq!(list.check(), list.len());
        assert!(list.is_consistent());
        if step % 16 == 0 {
            assert_eq!(items_of(&list), reference);
        }
    }
    assert_eq!(items_of(&list), reference);
    while let Some(expected) = reference.pop() {
        let index = if reference.is_empty() { 0 } else { numbers.next() % (reference.len() + 1) };
        let index = index.min(reference.len());
        reference.push(expected);
        assert_eq!(list.remove(index), Some(reference.remove(index)));
        assert!(list.is_consistent());
        assert_eq!(list.check(), reference.len());
    }
    assert!(list.is_empty());
    assert_eq!(list.len(), 0);
}

#[test]
fn insert_and_remove_scenario() {
    let mut list: BTreeList<i32, 6> = BTreeList::new();
    assert_eq!(list.insert(0, 1), Ok(()));
    assert_eq!(list.insert(1, 2), Ok(()));
    assert_eq!(list.insert(1, 4), Ok(()));
    assert_eq!(items_of(&list), vec![1, 4, 2]);
    assert_eq!(list.insert(4, 5), Err(5));
    assert_eq!(items_of(&list), vec![1, 4, 2]);
    assert_eq!(list.remove(1), Some(4));
    assert_eq!(items_of(&list), vec![1, 2]);
}

#[test]
fn swap_scenario() {
    let mut list: BTreeList<i32, 6> = BTreeList::from_iter(vec![1, 2, 3]);
    assert!(list.swap(0, 2));
    assert_eq!(items_of(&list), vec![3, 2, 1]);
    assert!(!list.swap(0, 4));
    assert_eq!(items_of(&list), vec![3, 2, 1]);
}

#[test]
fn insert_hundred_with_degree_three() {
    let mut list: BTreeList<usize, 3> = BTreeList::new();
    let mut reference = Vec::new();
    for i in 0..100 {
        assert_eq!(list.insert(i % 3, i), Ok(()));
        reference.insert(i % 3, i);
        assert_eq!(items_of(&list), reference);
        assert!(list.is_consistent());
    }
}

#[test]
fn length_counts_inserts_and_removes() {
    let mut list: BTreeList<u8, 2> = BTreeList::new();
    let mut expected = 0;
    for i in 0..50 {
        if list.insert(i / 2, 7).is_ok() {
            expected += 1;
        }
        if list.insert(i + 100, 7).is_ok() {
            expected += 1;
        }
        if i % 3 == 0 && list.remove(i / 3).is_some() {
            expected -= 1;
        }
        if list.remove(1000).is_some() {
            expected -= 1;
        }
        assert_eq!(list.len(), expected);
    }
    assert_eq!(expected, 33);
}

#[test]
fn cached_lengths_hold_after_every_change() {
    let mut list: BTreeList<usize, 2> = BTreeList::new();
    for i in 0..200 {
        list.insert(i / 2, i).unwrap();
        assert_eq!(list.check(), i + 1);
        assert_eq!(list.len(), i + 1);
    }
    for i in 0..200 {
        list.remove((i * 7) % list.len()).unwrap();
        assert_eq!(list.check(), 199 - i);
        assert_eq!(list.len(), 199 - i);
    }
}

#[test]
fn occupancy_holds_after_every_change() {
    let mut list: BTreeList<usize, 3> = BTreeList::new();
    assert!(list.is_consistent());
    for i in 0..300 {
        list.insert((i * 5) % (i + 1), i).unwrap();
        assert!(list.is_consistent());
    }
    for i in 0..300 {
        list.remove((i * 11) % list.len()).unwrap();
        assert!(list.is_consistent());
    }
    assert!(list.is_empty());
}

#[test]
fn behaves_as_a_vec_with_degree_two() {
    churn::<2>(1, 3000);
}

#[test]
fn behaves_as_a_vec_with_degree_three() {
    churn::<3>(2, 3000);
}

#[test]
fn behaves_as_a_vec_with_degree_six() {
    churn::<6>(3, 3000);
}

#[test]
fn behaves_as_a_vec_with_degree_thirty_two() {
    churn::<32>(4, 3000);
}

#[test]
fn round_trip_from_the_front() {
    let mut list: BTreeList<usize, 2> = filled(100);
    for i in 0..100 {
        assert_eq!(list.pop_front(), Some(i));
    }
    assert_eq!(list.pop_front(), None);
    assert!(list.is_empty());
    assert_eq!(list.len(), 0);
}

#[test]
fn round_trip_from_the_back() {
    let mut list: BTreeList<usize, 2> = filled(100);
    for i in 0..100 {
        assert_eq!(list.pop_back(), Some(99 - i));
    }
    assert_eq!(list.pop(), None);
    assert!(list.is_empty());
}

#[test]
fn round_trip_from_the_middle() {
    let mut list: BTreeList<usize, 3> = filled(101);
    let mut reference: Vec<usize> = (0..101).collect();
    while !reference.is_empty() {
        let index = reference.len() / 2;
        assert_eq!(list.remove(index), Some(reference.remove(index)));
        assert_eq!(items_of(&list), reference);
    }
    assert!(list.is_empty());
    assert_eq!(list.first(), None);
}

#[test]
fn the_end_is_the_boundary() {
    let mut list: BTreeList<i32, 6> = BTreeList::from_iter(vec![10, 20, 30]);
    assert_eq!(list.get(3), None);
    assert_eq!(list.remove(3), None);
    assert_eq!(list.set(3, 1), Err(1));
    assert!(list.get_mut(3).is_none());
    assert_eq!(list.insert(4, 40), Err(40));
    assert_eq!(items_of(&list), vec![10, 20, 30]);
    assert_eq!(list.insert(3, 40), Ok(()));
    assert_eq!(items_of(&list), vec![10, 20, 30, 40]);
    assert_eq!(list.get(3), Some(&40));
}

#[test]
fn empty_list_has_nothing() {
    let mut list: BTreeList<i32, 6> = BTreeList::new();
    assert!(list.is_empty());
    assert_eq!(list.len(), 0);
    assert_eq!(list.first(), None);
    assert_eq!(list.last(), None);
    assert!(list.first_mut().is_none());
    assert!(list.last_mut().is_none());
    assert_eq!(list.get(0), None);
    assert_eq!(list.pop(), None);
    assert_eq!(list.pop_front(), None);
    assert_eq!(list.pop_back(), None);
    assert!(!list.swap(0, 0));
    assert_eq!(list.check(), 0);
    assert!(list.iter().next().is_none());
    assert!(list.iter().next_back().is_none());
}

#[test]
fn set_beyond_a_single_leaf_hands_the_value_back() {
    let mut list: BTreeList<i32, 6> = BTreeList::from_iter(vec![1]);
    assert_eq!(list.set(5, 9), Err(9));
    assert_eq!(items_of(&list), vec![1]);
    assert_eq!(list.set(0, 9), Ok(1));
    assert_eq!(items_of(&list), vec![9]);
}

#[test]
fn set_reaches_every_position() {
    let mut list: BTreeList<usize, 2> = filled(60);
    for i in 0..60 {
        assert_eq!(list.set(i, i + 1000), Ok(i));
    }
    assert_eq!(items_of(&list), (1000..1060).collect::<Vec<usize>>());
    assert!(list.is_consistent());
}

#[test]
fn get_reaches_every_position() {
    let list: BTreeList<usize, 2> = filled(60);
    for i in 0..60 {
        assert_eq!(list.get(i), Some(&i));
        assert_eq!(list[i], i);
    }
    assert_eq!(list.get(60), None);
}

#[test]
fn get_mut_writes_through() {
    let mut list: BTreeList<usize, 2> = filled(40);
    for i in 0..40 {
        if let Some(element) = list.get_mut(i) {
            assert_eq!(*element, i);
            *element = 2 * i;
        }
    }
    assert_eq!(items_of(&list), (0..40).map(|i| 2 * i).collect::<Vec<usize>>());
    if let Some(element) = list.first_mut() {
        *element = 42;
    }
    if let Some(element) = list.last_mut() {
        *element = 43;
    }
    assert_eq!(list.first(), Some(&42));
    assert_eq!(list.last(), Some(&43));
    assert!(list.is_consistent());
}

#[test]
fn swap_of_a_position_with_itself_changes_nothing() {
    let mut list: BTreeList<i32, 6> = BTreeList::from_iter(vec![1, 2, 3]);
    assert!(list.swap(0, 0));
    assert_eq!(items_of(&list), vec![1, 2, 3]);
    assert!(list.swap(2, 2));
    assert_eq!(items_of(&list), vec![1, 2, 3]);
    assert!(!list.swap(3, 3));
    assert_eq!(items_of(&list), vec![1, 2, 3]);
}

#[test]
fn swap_across_nodes() {
    let mut list: BTreeList<usize, 2> = filled(50);
    let mut reference: Vec<usize> = (0..50).collect();
    for i in 0..50 {
        let j = (i * 17 + 3) % 50;
        assert!(list.swap(i, j));
        reference.swap(i, j);
        assert_eq!(items_of(&list), reference);
    }
    assert!(!list.swap(10, 50));
    assert!(!list.swap(50, 10));
    assert_eq!(items_of(&list), reference);
}

#[test]
fn push_front_and_back() {
    let mut list: BTreeList<i32, 2> = BTreeList::new();
    for i in 0..20 {
        list.push_front(-i - 1);
        list.push_back(i);
    }
    assert_eq!(items_of(&list), (-20..20).collect::<Vec<i32>>());
    assert_eq!(list.first(), Some(&-20));
    assert_eq!(list.last(), Some(&19));
}

#[test]
fn extend_appends_in_order() {
    let mut list: BTreeList<i32, 6> = BTreeList::from_iter(vec![7]);
    list.extend(vec![1, 2, 3]);
    assert_eq!(items_of(&list), vec![7, 1, 2, 3]);
    list.extend(Vec::new());
    assert_eq!(items_of(&list), vec![7, 1, 2, 3]);
    let empty: BTreeList<i32, 6> = BTreeList::from_iter(Vec::new());
    assert!(empty.is_empty());
}

#[test]
fn equality_is_by_elements() {
    let a: BTreeList<i32, 6> = BTreeList::from_iter(vec![1, 2, 3]);
    let mut b: BTreeList<i32, 6> = BTreeList::new();
    b.push_front(3);
    b.push_front(2);
    b.push_front(1);
    assert!(a == b);
    b.set(1, 5).unwrap();
    assert!(a != b);
    b.set(1, 2).unwrap();
    b.push(4);
    assert!(a != b);
    let empty: BTreeList<i32, 6> = BTreeList::new();
    assert!(empty == BTreeList::default());
    assert!(a != empty);
}

#[test]
fn equality_does_not_look_at_the_shape() {
    let mut grown: BTreeList<usize, 2> = filled(100);
    for _ in 0..90 {
        grown.pop_front();
    }
    let mut plain: BTreeList<usize, 2> = BTreeList::new();
    for i in 90..100 {
        plain.push(i);
    }
    assert!(grown == plain);
}

#[test]
fn iterator_meets_in_the_middle() {
    let list: BTreeList<usize, 2> = filled(21);
    let mut iter = list.iter();
    let mut seen = Vec::new();
    loop {
        match iter.next() {
            Some(item) => seen.push(*item),
            None => break,
        }
        match iter.next_back() {
            Some(item) => seen.push(*item),
            None => break,
        }
    }
    assert_eq!(seen.len(), 21);
    assert_eq!(seen[0], 0);
    assert_eq!(seen[1], 20);
    assert_eq!(seen[20], 10);
    assert_eq!(iter.next(), None);
    assert_eq!(iter.next_back(), None);
}

#[test]
fn consuming_iterator_drains_from_both_ends() {
    let list: BTreeList<usize, 2> = filled(30);
    let mut iter = list.into_iter();
    assert_eq!(iter.next(), Some(0));
    assert_eq!(iter.next_back(), Some(29));
    assert_eq!(iter.next_back(), Some(28));
    let mut rest = Vec::new();
    while let Some(item) = iter.next() {
        rest.push(item);
    }
    assert_eq!(rest, (1..28).collect::<Vec<usize>>());
    assert_eq!(iter.next(), None);
    assert_eq!(iter.next_back(), None);
}

#[test]
fn actions_are_replayed_as_on_a_vec() {
    let mut list: BTreeList<i32, 2> = BTreeList::new();
    assert_eq!(list.apply(Action::Insert(0, 1)), None);
    assert_eq!(list.apply(Action::Insert(2, 9)), Some(9));
    assert_eq!(list.apply(Action::Replace(0, 5)), Some(1));
    assert_eq!(list.apply(Action::Replace(1, 6)), Some(6));
    assert_eq!(list.apply(Action::Remove(1)), None);
    assert_eq!(list.apply(Action::Remove(0)), Some(5));
    assert!(list.is_empty());

    let back = list.apply_all(vec![
        Action::Insert(0, 1),
        Action::Insert(1, 2),
        Action::Insert(1, 4),
        Action::Insert(4, 5),
        Action::Remove(1),
        Action::Replace(0, 7),
        Action::Remove(5),
    ]);
    assert_eq!(back, vec![None, None, None, Some(5), Some(4), Some(1), None]);
    assert_eq!(items_of(&list), vec![7, 2]);
}

#[test]
fn rebalancing_borrows_and_merges() {
    let mut list: BTreeList<usize, 2> = filled(64);
    let mut reference: Vec<usize> = (0..64).collect();
    for index in [0, 0, 0, 30, 30, 30, 57, 56, 55, 10, 20, 5, 40, 40, 40, 1, 1, 1] {
        assert_eq!(list.remove(index), Some(reference.remove(index)));
        assert!(list.is_consistent());
        assert_eq!(items_of(&list), reference);
    }
    while let Some(last) = reference.pop() {
        assert_eq!(list.pop_back(), Some(last));
        assert!(list.is_consistent());
    }
    assert!(list.is_empty());
}

#[test]
fn a_drained_list_can_be_filled_again() {
    let mut list: BTreeList<usize, 2> = filled(10);
    while list.pop().is_some() {}
    assert!(list.is_empty());
    list.push(5);
    list.push_front(4);
    assert_eq!(items_of(&list), vec![4, 5]);
    assert!(list.is_consistent());
}

#[test]
fn a_clone_holds_the_same_elements() {
    let list: BTreeList<usize, 2> = filled(70);
    let mut copy = list.clone();
    assert!(copy.is_consistent());
    assert!(copy == list);
    assert_eq!(items_of(&copy), items_of(&list));
    copy.set(3, 1000).unwrap();
    copy.remove(10).unwrap();
    assert_eq!(list.get(3), Some(&3));
    assert_eq!(list.len(), 70);
    assert_eq!(copy.len(), 69);
    assert!(copy != list);
    let empty: BTreeList<usize, 2> = BTreeList::new();
    assert!(empty.clone().is_empty());
}

#[test]
fn indexing_reads_by_position() {
    let list: BTreeList<i32, 6> = BTreeList::from_iter(vec![10, 40, 30]);
    assert_eq!(list[0], 10);
    assert_eq!(list[1], 40);
    assert_eq!(list[2], 30);
}

#[test]
fn the_root_grows_and_shrinks() {
    let mut list: BTreeList<usize, 2> = BTreeList::new();
    for i in 0..3 {
        list.push(i);
    }
    assert!(list.is_consistent());
    list.push(3);
    assert!(list.is_consistent());
    assert_eq!(items_of(&list), vec![0, 1, 2, 3]);
    assert_eq!(list.remove(0), Some(0));
    assert_eq!(list.remove(0), Some(1));
    assert_eq!(list.remove(0), Some(2));
    assert!(list.is_consistent());
    assert_eq!(items_of(&list), vec![3]);
    assert_eq!(list.remove(0), Some(3));
    assert!(list.is_consistent());
    assert!(list.is_empty());
}

#[test]
fn insert_in_the_middle_of_a_list() {
    let mut list: BTreeList<i32, 6> = BTreeList::from_iter(vec![1, 2, 3]);
    list.insert(1, 4).unwrap();
    assert_eq!(items_of(&list), vec![1, 4, 2, 3]);
    list.insert(4, 5).unwrap();
    assert_eq!(items_of(&list), vec![1, 4, 2, 3, 5]);
    assert_eq!(list.pop(), Some(5));
    assert_eq!(list.pop_front(), Some(1));
    assert_eq!(items_of(&list), vec![4, 2, 3]);
}

#[test]
fn writing_by_position() {
    let mut list: BTreeList<usize, 2> = filled(20);
    for i in 0..20 {
        *list.index_mut(i) += 100;
    }
    assert_eq!(items_of(&list), (100..120).collect::<Vec<usize>>());
    assert!(list.is_consistent());
}

#[test]
fn writes_leave_the_tree_as_it_is() {
    let mut list: BTreeList<usize, 2> = filled(50);
    for i in 0..50 {
        assert_eq!(list.set(i, i + 1), Ok(i));
        assert_eq!(list.check(), 50);
        assert!(list.is_consistent());
    }
    assert_eq!(list.set(50, 0), Err(0));
    assert_eq!(items_of(&list), (1..51).collect::<Vec<usize>>());
}
