use avl_tree::avl_tree::AvlTree;
use avl_tree::node::Node;

fn collect(t: &AvlTree) -> Vec<u64> {
    let mut out = Vec::new();
    let mut it = t.iter();
    while let Some(v) = it.next() {
        out.push(v);
    }
    out
}

fn build(values: &[u64]) -> AvlTree {
    let mut t = AvlTree::new();
    for v in values {
        t.insert(*v);
    }
    t
}

#[test]
fn seven_values_scenario() {
    let t = build(&[5, 3, 8, 1, 4, 7, 9]);
    assert!(t.contains(&4));
    assert!(!t.contains(&6));
    assert_eq!(collect(&t), vec![1, 3, 4, 5, 7, 8, 9]);
    // ceil(1.44 * log2(7 + 2)) = 5
    assert!(t.height() <= 5);
    assert_eq!(t.len(), 7);
}

#[test]
fn ascending_inserts_rotate() {
    let t = build(&[1, 2, 3, 4, 5]);
    assert_eq!(t.height(), 3);
    assert_eq!(collect(&t), vec![1, 2, 3, 4, 5]);
    assert_eq!(t.root_value(), Some(2));
}

#[test]
fn remove_two_child_root() {
    let mut t = build(&[10, 5, 15, 3, 7, 12, 20]);
    assert_eq!(t.root_value(), Some(10));
    assert!(t.remove(&10));
    assert_eq!(t.root_value(), Some(12));
    assert_eq!(collect(&t), vec![3, 5, 7, 12, 15, 20]);
    assert_eq!(t.height(), 3);
    assert_eq!(t.len(), 6);
}

#[test]
fn duplicate_insert_is_refused() {
    let mut t = build(&[4, 2, 6]);
    assert!(!t.insert(2));
    assert_eq!(t.len(), 3);
    assert_eq!(t.root_value(), Some(4));
    assert_eq!(collect(&t), vec![2, 4, 6]);
}

#[test]
fn remove_from_empty() {
    let mut t = AvlTree::new();
    assert!(t.is_empty());
    assert!(!t.remove(&1));
    assert_eq!(t.len(), 0);
    assert!(t.is_empty());
    assert_eq!(t.height(), 0);
    assert_eq!(t.root_value(), None);
    assert_eq!(collect(&t), Vec::<u64>::new());
}

#[test]
fn remove_twice() {
    let mut t = build(&[1, 2, 3]);
    assert!(t.remove(&2));
    assert!(!t.remove(&2));
    assert_eq!(t.len(), 2);
    assert_eq!(collect(&t), vec![1, 3]);
}

#[test]
fn round_trip_empties_the_tree() {
    let values: Vec<u64> = (0..200u64).map(|i| (i * 7919) % 1009).collect();
    let mut t = AvlTree::new();
    for v in &values {
        assert!(t.insert(*v));
    }
    assert_eq!(t.len(), 200);
    assert!(t.height() <= 11);
    let mut order = values.clone();
    order.reverse();
    order.rotate_left(37);
    for v in &order {
        assert!(t.remove(v));
        let items = collect(&t);
        assert!(items.windows(2).all(|w| w[0] < w[1]));
        assert_eq!(items.len(), t.len());
    }
    assert!(t.is_empty());
    assert_eq!(t.len(), 0);
    assert_eq!(t.root_value(), None);
}

#[test]
fn descending_inserts_stay_balanced() {
    let values: Vec<u64> = (1..=100u64).rev().collect();
    let t = AvlTree::from_vec(&values);
    assert_eq!(t.len(), 100);
    assert!(t.height() <= 9);
    assert_eq!(collect(&t), (1..=100u64).collect::<Vec<u64>>());
}

#[test]
fn from_vec_collapses_duplicates() {
    let t = AvlTree::from_vec(&vec![3, 1, 3, 2, 1]);
    assert_eq!(t.len(), 3);
    assert_eq!(collect(&t), vec![1, 2, 3]);
    let e = AvlTree::from_vec(&Vec::new());
    assert!(e.is_empty());
}

#[test]
fn largest_values() {
    let mut t = build(&[u64::MAX, 0, u64::MAX - 1]);
    assert!(t.contains(&u64::MAX));
    assert!(!t.contains(&1));
    assert_eq!(collect(&t), vec![0, u64::MAX - 1, u64::MAX]);
    assert!(t.remove(&u64::MAX));
    assert_eq!(collect(&t), vec![0, u64::MAX - 1]);
}

#[test]
fn default_is_empty() {
    let t: AvlTree = Default::default();
    assert!(t.is_empty());
}

#[test]
fn removing_leaf_and_one_child_nodes() {
    let mut t = build(&[20, 10, 30, 5]);
    assert!(t.remove(&10));
    assert_eq!(collect(&t), vec![5, 20, 30]);
    assert!(t.remove(&30));
    assert_eq!(collect(&t), vec![5, 20]);
    assert_eq!(t.height(), 2);
}

#[test]
fn removal_triggers_rotation() {
    let mut t = build(&[2, 1, 3, 4]);
    assert!(t.remove(&1));
    assert_eq!(t.root_value(), Some(3));
    assert_eq!(t.height(), 2);
    assert_eq!(collect(&t), vec![2, 3, 4]);
}

#[test]
fn rebalance_left_left_chain() {
    let leaf = Node::new(1);
    let mut mid = Node::new(2);
    mid.left = Some(Box::new(leaf));
    mid.height = 2;
    let mut top = Node::new(3);
    top.left = Some(Box::new(mid));
    top.rebalance();
    assert_eq!(top.value, 2);
    assert_eq!(top.height, 2);
    assert_eq!(top.left.as_ref().map(|n| n.value), Some(1));
    assert_eq!(top.right.as_ref().map(|n| n.value), Some(3));
}

#[test]
fn rebalance_left_right_chain() {
    let leaf = Node::new(2);
    let mut low = Node::new(1);
    low.right = Some(Box::new(leaf));
    low.height = 2;
    let mut top = Node::new(3);
    top.left = Some(Box::new(low));
    top.rebalance();
    assert_eq!(top.value, 2);
    assert_eq!(top.height, 2);
    assert_eq!(top.left.as_ref().map(|n| n.value), Some(1));
    assert_eq!(top.right.as_ref().map(|n| n.value), Some(3));
}

#[test]
fn rebalance_balanced_node_only_updates_height() {
    let mut top = Node::new(5);
    top.left = Some(Box::new(Node::new(4)));
    top.height = 7;
    top.rebalance();
    assert_eq!(top.value, 5);
    assert_eq!(top.height, 2);
}

#[test]
fn root_tracks_contents() {
    let mut t = AvlTree::new();
    assert_eq!(t.root_value(), None);
    t.insert(42);
    assert_eq!(t.root_value(), Some(42));
    t.remove(&42);
    assert_eq!(t.root_value(), None);
}
