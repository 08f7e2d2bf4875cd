use btreelist::BTreeList;

fn list_of(items: Vec<i32>) -> BTreeList<i32, 6> {
    let mut list = BTreeList::default();
    for item in items {
        list.push(item);
    }
    list
}

fn contents<T: Copy, const B: usize>(list: &BTreeList<T, B>) -> Vec<T> {
    let mut items = Vec::new();
    let mut iter = list.iter();
    while let Some(item) = iter.next() {
        items.push(*item);
    }
    items
}

fn push_a_few<const B: usize>(mut t: BTreeList<usize, B>) {
    t.push(1);
    t.push(2);
    t.push(3);
}

#[test]
fn push_back() {
    let mut t = BTreeList::default();

    t.push_back(());
    t.push_back(());
    t.push_back(());
    t.push_back(());
    t.push_back(());
    t.push_back(());
    t.push_back(());
    t.push_back(());
}

#[test]
fn insert() {
    let mut t = BTreeList::default();

    t.insert(0, ()).unwrap();
    t.insert(1, ()).unwrap();
    t.insert(0, ()).unwrap();
    t.insert(0, ()).unwrap();
    t.insert(0, ()).unwrap();
    t.insert(3, ()).unwrap();
    t.insert(4, ()).unwrap();
}

#[test]
fn insert_book() {
    let mut t = BTreeList::default();

    for i in 0..100 {
        t.insert(i % 2, ()).unwrap();
    }
}

#[test]
fn insert_book_vec() {
    let mut t = BTreeList::default();
    let mut v = Vec::new();

    for i in 0..100 {
        t.insert(i % 3, ()).unwrap();
        v.insert(i % 3, ());

        assert_eq!(v, contents(&t))
    }
}

#[test]
fn iter_forth_back() {
    let mut t = BTreeList::default();

    t.push_back(1);
    t.push_back(2);
    t.push_back(3);
    t.push_back(4);
    t.push_back(5);

    let mut i = t.iter();
    assert_eq!(i.next(), Some(&1));
    assert_eq!(i.next(), Some(&2));
    assert_eq!(i.next(), Some(&3));
    assert_eq!(i.next(), Some(&4));
    assert_eq!(i.next(), Some(&5));
    assert_eq!(i.next(), None);

    let mut i = t.iter();
    assert_eq!(i.next_back(), Some(&5));
    assert_eq!(i.next_back(), Some(&4));
    assert_eq!(i.next_back(), Some(&3));
    assert_eq!(i.next_back(), Some(&2));
    assert_eq!(i.next_back(), Some(&1));
    assert_eq!(i.next_back(), None);

    let mut i = t.iter();
    assert_eq!(i.next(), Some(&1));
    assert_eq!(i.next_back(), Some(&5));
    assert_eq!(i.next_back(), Some(&4));
    assert_eq!(i.next_back(), Some(&3));
    assert_eq!(i.next_back(), Some(&2));
    assert_eq!(i.next_back(), None);

    let mut i = t.iter();
    assert_eq!(i.next(), Some(&1));
    assert_eq!(i.next(), Some(&2));
    assert_eq!(i.next(), Some(&3));
    assert_eq!(i.next(), Some(&4));
    assert_eq!(i.next_back(), Some(&5));
    assert_eq!(i.next_back(), None);
}

#[test]
fn first_last() {
    let mut t = BTreeList::default();
    t.push_back(1);
    t.push_back(2);
    t.push_back(3);

    assert_eq!(t.first(), Some(&1));
    assert_eq!(t.first_mut(), Some(&mut 1));
    assert_eq!(t.last(), Some(&3));
    assert_eq!(t.last_mut(), Some(&mut 3));
}

#[test]
fn pop() {
    let mut t = BTreeList::default();

    t.push_back(1);
    t.push_back(2);
    t.push_back(3);

    assert_eq!(t.pop_back(), Some(3));
    assert_eq!(t.pop_back(), Some(2));
    assert_eq!(t.pop_back(), Some(1));
    assert_eq!(t.pop_back(), None);
}

#[test]
fn set_no_panic() {
    let mut t = BTreeList::default();
    assert_eq!(t.set(0, 1), Err(1));
    t.push(1);
    assert_eq!(t.set(0, 2), Ok(1));
}

#[test]
fn remove_no_panic() {
    let mut t = BTreeList::default();
    assert_eq!(t.remove(0), None);
    assert_eq!(t.remove(1), None);
    t.push(1);
    assert_eq!(t.remove(0), Some(1));
}

#[test]
fn insert_no_panic() {
    let mut t = BTreeList::default();
    assert_eq!(t.insert(10, 1), Err(1));
    assert_eq!(t.insert(1, 1), Err(1));
    assert_eq!(t.insert(0, 1), Ok(()));
    assert_eq!(t.insert(10, 1), Err(1));
}

#[test]
fn generic_b() {
    let t: BTreeList<usize, 6> = BTreeList::new();
    let t6: BTreeList<usize, 6> = BTreeList::new();
    let t3: BTreeList<usize, 3> = BTreeList::new();
    let t7: BTreeList<usize, 7> = BTreeList::new();
    let t32: BTreeList<usize, 32> = BTreeList::new();

    push_a_few(t);
    push_a_few(t6);
    push_a_few(t3);
    push_a_few(t7);
    push_a_few(t32);
}

#[test]
fn swap() {
    let mut t = BTreeList::default();

    t.push(1);
    t.push(2);
    t.push(3);

    t.swap(0, 2);
    assert_eq!(t, list_of(vec![3, 2, 1]));
    t.swap(2, 0);
    assert_eq!(t, list_of(vec![1, 2, 3]));
    t.swap(1, 0);
    assert_eq!(t, list_of(vec![2, 1, 3]));
    t.swap(0, 1);
    assert_eq!(t, list_of(vec![1, 2, 3]));
    assert!(!t.swap(0, 4));
    assert!(!t.swap(5, 4));
}

#[test]
fn mc() {
    let _: BTreeList<(), 6> = BTreeList::default();
    {
        let mut t = BTreeList::default();
        t.push(1);
        t
    };
    {
        let mut t = BTreeList::default();
        t.push(1);
        t.push(2);
        t.push(3);
        t
    };
    {
        let mut t = BTreeList::default();
        for _ in 0..3 {
            t.push(1)
        }
        t
    };
}
