use btreelist::node::BTreeListNode;

type Node = BTreeListNode<i32, 2>;

fn leaf(items: Vec<i32>) -> Node {
    BTreeListNode { length: items.len(), elements: items, children: Vec::new() }
}

fn parent(elements: Vec<i32>, children: Vec<Node>) -> Node {
    let length = elements.len() + children.iter().map(|child| child.length).sum::<usize>();
    BTreeListNode { elements, children, length }
}

fn items(node: &Node) -> Vec<i32> {
    let mut all = Vec::new();
    let mut index = 0;
    while let Some(item) = node.get(index) {
        all.push(*item);
        index += 1;
    }
    all
}

fn shape(node: &Node) -> Vec<(usize, usize, usize)> {
    let mut all = vec![(node.length, node.elements.len(), node.children.len())];
    for child in &node.children {
        all.extend(shape(child));
    }
    all
}

fn two_levels() -> Node {
    parent(
        vec![30, 60],
        vec![leaf(vec![10, 20]), leaf(vec![40, 50]), leaf(vec![70, 80, 90])],
    )
}

#[test]
fn node_insert_beyond_the_end_hands_the_element_back() {
    let mut node = leaf(vec![1, 2]);
    assert_eq!(node.insert_into_non_full_node(3, 9), Err(9));
    assert_eq!(node.elements, vec![1, 2]);
    assert_eq!(node.length, 2);
    assert_eq!(node.insert_into_non_full_node(2, 9), Ok(()));
    assert_eq!(node.elements, vec![1, 2, 9]);
    assert_eq!(node.length, 3);

    let mut tree = parent(vec![3], vec![leaf(vec![1, 2]), leaf(vec![4, 5])]);
    assert_eq!(tree.insert_into_non_full_node(6, 9), Err(9));
    assert_eq!(shape(&tree), vec![(5, 1, 2), (2, 2, 0), (2, 2, 0)]);
    assert_eq!(tree.insert_into_non_full_node(5, 9), Ok(()));
    assert_eq!(items(&tree), vec![1, 2, 3, 4, 5, 9]);
    assert_eq!(tree.length, 6);
}

#[test]
fn node_insert_splits_a_full_child_on_the_way() {
    let mut tree = parent(vec![4], vec![leaf(vec![1, 2, 3]), leaf(vec![5])]);
    assert_eq!(tree.insert_into_non_full_node(1, 9), Ok(()));
    assert_eq!(items(&tree), vec![1, 9, 2, 3, 4, 5]);
    assert_eq!(tree.elements, vec![2, 4]);
    assert_eq!(tree.children[0].elements, vec![1, 9]);
    assert_eq!(tree.children[1].elements, vec![3]);
    assert_eq!(tree.children[2].elements, vec![5]);
    assert_eq!(tree.audit(), Some(1));
}

#[test]
fn find_child_index_walks_the_cached_lengths() {
    let tree = two_levels();
    assert_eq!(tree.find_child_index(0), Some((0, 0)));
    assert_eq!(tree.find_child_index(2), Some((0, 2)));
    assert_eq!(tree.find_child_index(3), Some((1, 0)));
    assert_eq!(tree.find_child_index(5), Some((1, 2)));
    assert_eq!(tree.find_child_index(6), Some((2, 0)));
    assert_eq!(tree.find_child_index(9), Some((2, 3)));
    assert_eq!(tree.find_child_index(10), None);
    assert_eq!(tree.cumulative_index(0), 0);
    assert_eq!(tree.cumulative_index(1), 3);
    assert_eq!(tree.cumulative_index(2), 6);
}

#[test]
fn node_lookup_ends_at_the_length() {
    let mut tree = two_levels();
    assert_eq!(items(&tree), vec![10, 20, 30, 40, 50, 60, 70, 80, 90]);
    assert_eq!(tree.get(2), Some(&30));
    assert_eq!(tree.get(9), None);
    assert_eq!(tree.get(100), None);
    assert!(tree.get_mut(9).is_none());
    assert_eq!(tree.set(9, 1), Err(1));
    assert_eq!(items(&tree), vec![10, 20, 30, 40, 50, 60, 70, 80, 90]);
    assert_eq!(tree.remove(9), None);
    assert_eq!(shape(&tree), shape(&two_levels()));
}

#[test]
fn set_and_get_mut_keep_the_shape() {
    let mut tree = two_levels();
    let before = shape(&tree);
    for index in 0..9 {
        assert_eq!(tree.set(index, index as i32), Ok(10 * (index as i32 + 1)));
        assert_eq!(shape(&tree), before);
    }
    for index in 0..9 {
        if let Some(element) = tree.get_mut(index) {
            assert_eq!(*element, index as i32);
            *element += 100;
        }
        assert_eq!(shape(&tree), before);
    }
    assert_eq!(items(&tree), (100..109).collect::<Vec<i32>>());
    assert!(tree.audit().is_some());
}

#[test]
fn split_child_halves_a_leaf() {
    let mut tree = parent(vec![], vec![leaf(vec![1, 2, 3])]);
    tree.split_child(0);
    assert_eq!(tree.elements, vec![2]);
    assert_eq!(tree.length, 3);
    assert_eq!(tree.children.len(), 2);
    assert_eq!(tree.children[0].elements, vec![1]);
    assert_eq!(tree.children[0].length, 1);
    assert_eq!(tree.children[1].elements, vec![3]);
    assert_eq!(tree.children[1].length, 1);
}

#[test]
fn split_child_halves_an_internal_node_and_leaves_the_others() {
    let full = parent(
        vec![10, 20, 30],
        vec![leaf(vec![5]), leaf(vec![15]), leaf(vec![25]), leaf(vec![35, 36])],
    );
    let first = parent(vec![-5], vec![leaf(vec![-7]), leaf(vec![-3])]);
    let last = parent(vec![50], vec![leaf(vec![45]), leaf(vec![55])]);
    let mut tree = parent(vec![0, 40], vec![first, full, last]);
    assert_eq!(tree.length, 16);
    tree.split_child(1);
    assert_eq!(tree.length, 16);
    assert_eq!(tree.elements, vec![0, 20, 40]);
    assert_eq!(tree.children.len(), 4);
    assert_eq!(tree.children[0].elements, vec![-5]);
    assert_eq!(shape(&tree.children[0]), vec![(3, 1, 2), (1, 1, 0), (1, 1, 0)]);
    assert_eq!(tree.children[1].elements, vec![10]);
    assert_eq!(tree.children[1].children[0].elements, vec![5]);
    assert_eq!(tree.children[1].children[1].elements, vec![15]);
    assert_eq!(tree.children[1].length, 3);
    assert_eq!(tree.children[2].elements, vec![30]);
    assert_eq!(tree.children[2].children[0].elements, vec![25]);
    assert_eq!(tree.children[2].children[1].elements, vec![35, 36]);
    assert_eq!(tree.children[2].length, 4);
    assert_eq!(tree.children[3].elements, vec![50]);
    assert_eq!(tree.audit(), Some(2));
}

#[test]
fn merge_appends_the_middle_and_the_sibling() {
    let mut node = leaf(vec![1]);
    node.merge(2, leaf(vec![3]));
    assert_eq!(node.elements, vec![1, 2, 3]);
    assert_eq!(node.length, 3);
    assert!(node.children.is_empty());

    let mut inner = parent(vec![10], vec![leaf(vec![5]), leaf(vec![15, 16])]);
    let sibling = parent(vec![30], vec![leaf(vec![25]), leaf(vec![35])]);
    inner.merge(20, sibling);
    assert_eq!(inner.elements, vec![10, 20, 30]);
    assert_eq!(inner.length, 8);
    assert_eq!(shape(&inner), vec![(8, 3, 4), (1, 1, 0), (2, 2, 0), (1, 1, 0), (1, 1, 0)]);
    assert_eq!(items(&inner), vec![5, 10, 15, 16, 20, 25, 30, 35]);
}

#[test]
fn rotations_move_one_element_through_the_parent() {
    let mut tree = parent(vec![3], vec![leaf(vec![1, 2]), leaf(vec![4])]);
    tree.rotate_right(1);
    assert_eq!(tree.elements, vec![2]);
    assert_eq!(tree.children[0].elements, vec![1]);
    assert_eq!(tree.children[1].elements, vec![3, 4]);
    assert_eq!(shape(&tree), vec![(4, 1, 2), (1, 1, 0), (2, 2, 0)]);

    tree.rotate_left(0);
    assert_eq!(tree.elements, vec![3]);
    assert_eq!(tree.children[0].elements, vec![1, 2]);
    assert_eq!(tree.children[1].elements, vec![4]);
    assert_eq!(shape(&tree), vec![(4, 1, 2), (2, 2, 0), (1, 1, 0)]);
}

#[test]
fn rotation_takes_the_outermost_child_along() {
    let left = parent(vec![10, 20], vec![leaf(vec![5]), leaf(vec![15]), leaf(vec![25])]);
    let right = parent(vec![50], vec![leaf(vec![45]), leaf(vec![55])]);
    let mut tree = parent(vec![40], vec![left, right]);
    tree.rotate_right(1);
    assert_eq!(tree.elements, vec![20]);
    assert_eq!(tree.children[0].elements, vec![10]);
    assert_eq!(tree.children[0].length, 3);
    assert_eq!(tree.children[1].elements, vec![40, 50]);
    assert_eq!(tree.children[1].children[0].elements, vec![25]);
    assert_eq!(tree.children[1].length, 5);
    assert_eq!(items(&tree), vec![5, 10, 15, 20, 25, 40, 45, 50, 55]);
    assert_eq!(tree.audit(), Some(2));
}

#[test]
fn balancing_prefers_the_left_sibling() {
    let mut tree = parent(
        vec![3, 5],
        vec![leaf(vec![1, 2]), leaf(vec![4]), leaf(vec![6, 7])],
    );
    assert_eq!(tree.balance_child(1), 1);
    assert_eq!(tree.elements, vec![2, 5]);
    assert_eq!(tree.children[0].elements, vec![1]);
    assert_eq!(tree.children[1].elements, vec![3, 4]);
    assert_eq!(tree.children[2].elements, vec![6, 7]);

    let mut tree = parent(vec![3, 5], vec![leaf(vec![1]), leaf(vec![4]), leaf(vec![6, 7])]);
    assert_eq!(tree.balance_child(1), 1);
    assert_eq!(tree.elements, vec![3, 6]);
    assert_eq!(tree.children[0].elements, vec![1]);
    assert_eq!(tree.children[1].elements, vec![4, 5]);
    assert_eq!(tree.children[2].elements, vec![7]);

    let mut tree = parent(vec![3, 5], vec![leaf(vec![1]), leaf(vec![4]), leaf(vec![6])]);
    assert_eq!(tree.balance_child(1), 0);
    assert_eq!(tree.elements, vec![5]);
    assert_eq!(tree.children[0].elements, vec![1, 3, 4]);
    assert_eq!(tree.children[1].elements, vec![6]);

    let mut tree = parent(vec![3, 5], vec![leaf(vec![1]), leaf(vec![4]), leaf(vec![6])]);
    assert_eq!(tree.balance_child(0), 0);
    assert_eq!(tree.elements, vec![5]);
    assert_eq!(tree.children[0].elements, vec![1, 3, 4]);

    let mut tree = parent(vec![3], vec![leaf(vec![1, 2]), leaf(vec![4])]);
    assert_eq!(tree.balance_child(0), 0);
    assert_eq!(shape(&tree), vec![(4, 1, 2), (2, 2, 0), (1, 1, 0)]);
}

#[test]
fn a_removed_element_is_replaced_by_its_predecessor_first() {
    let mut tree = parent(vec![3], vec![leaf(vec![1, 2]), leaf(vec![4, 5])]);
    assert_eq!(tree.remove_element_from_non_leaf(2, 0), Some(3));
    assert_eq!(tree.elements, vec![2]);
    assert_eq!(tree.children[0].elements, vec![1]);
    assert_eq!(tree.children[1].elements, vec![4, 5]);
    assert_eq!(tree.length, 4);

    let mut tree = parent(vec![3], vec![leaf(vec![1]), leaf(vec![4, 5])]);
    assert_eq!(tree.remove_element_from_non_leaf(1, 0), Some(3));
    assert_eq!(tree.elements, vec![4]);
    assert_eq!(tree.children[0].elements, vec![1]);
    assert_eq!(tree.children[1].elements, vec![5]);

    let mut tree = parent(vec![3], vec![leaf(vec![1]), leaf(vec![4])]);
    assert_eq!(tree.remove_element_from_non_leaf(1, 0), Some(3));
    assert!(tree.elements.is_empty());
    assert_eq!(tree.children.len(), 1);
    assert_eq!(tree.children[0].elements, vec![1, 4]);
    assert_eq!(tree.length, 2);
}

#[test]
fn removal_below_a_child_borrows_before_it_merges() {
    let mut tree = parent(
        vec![3, 5],
        vec![leaf(vec![1, 2]), leaf(vec![4]), leaf(vec![6, 7])],
    );
    assert_eq!(tree.remove_from_internal_child(3, 1), Some(4));
    assert_eq!(tree.elements, vec![2, 5]);
    assert_eq!(tree.children[0].elements, vec![1]);
    assert_eq!(tree.children[1].elements, vec![3]);
    assert_eq!(tree.children[2].elements, vec![6, 7]);
    assert_eq!(tree.length, 6);

    let mut tree = parent(vec![3, 5], vec![leaf(vec![1]), leaf(vec![4]), leaf(vec![6])]);
    assert_eq!(tree.remove(2), Some(4));
    assert_eq!(tree.elements, vec![5]);
    assert_eq!(tree.children.len(), 2);
    assert_eq!(tree.children[0].elements, vec![1, 3]);
    assert_eq!(tree.children[1].elements, vec![6]);
    assert_eq!(tree.audit(), Some(1));
}

#[test]
fn leaf_removal_stops_at_the_end() {
    let mut node = leaf(vec![1, 2, 3]);
    assert_eq!(node.remove_from_leaf(3), None);
    assert_eq!(node.elements, vec![1, 2, 3]);
    assert_eq!(node.length, 3);
    assert_eq!(node.remove_from_leaf(1), Some(2));
    assert_eq!(node.elements, vec![1, 3]);
    assert_eq!(node.length, 2);
}

#[test]
fn audit_finds_a_wrong_cached_length() {
    let mut tree = two_levels();
    assert_eq!(tree.audit(), Some(1));
    assert_eq!(tree.check(), 9);
    tree.children[1].length = 3;
    assert_eq!(tree.audit(), None);
    let mut tree = two_levels();
    tree.children[1].elements.clear();
    assert_eq!(tree.audit(), None);
    let lopsided = parent(
        vec![3],
        vec![leaf(vec![1]), parent(vec![5], vec![leaf(vec![4]), leaf(vec![6])])],
    );
    assert_eq!(lopsided.audit(), None);
}
