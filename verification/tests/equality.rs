use btree::{BTree, TreeItem};

fn build(degree: usize, keys: &[i32]) -> Box<BTree<i32, i32>> {
    let mut t = BTree::with_degree(degree);
    for &k in keys.iter() {
        t.insert(k, k * 100);
    }
    t
}

#[test]
fn empty_trees_are_equal() {
    let a: Box<BTree<i32, i32>> = BTree::new();
    let b: Box<BTree<i32, i32>> = BTree::new();
    assert!(a == b);
    assert!(!(a != b));
}

#[test]
fn trees_built_alike_are_equal() {
    let a = build(2, &[4, 5, 6, 10, 17, 21, 7, 8, 9]);
    let b = build(2, &[4, 5, 6, 10, 17, 21, 7, 8, 9]);
    assert!(a == b);
    assert!(a.same(&b));
}

#[test]
fn trees_with_different_values_differ() {
    let a = build(2, &[4, 5, 6, 10]);
    let mut b = build(2, &[4, 5, 6, 10]);
    assert!(a == b);
    assert!(!b.insert(10, 7));
    assert!(a != b);
    assert!(!b.insert(10, 1000));
    assert!(a == b);
}

#[test]
fn trees_with_different_keys_differ() {
    let a = build(2, &[4, 5, 6]);
    let b = build(2, &[4, 5, 7]);
    assert!(a != b);
    let c = build(2, &[4, 5]);
    assert!(a != c);
}

#[test]
fn same_keys_in_another_order_may_give_another_shape() {
    // 1, 2, 3, 4 splits at 2; 4, 3, 2, 1 splits at 3.
    let a = build(2, &[1, 2, 3, 4]);
    let b = build(2, &[4, 3, 2, 1]);
    assert_eq!(a.key(0), Some(&2));
    assert_eq!(b.key(0), Some(&3));
    assert!(a != b);
    for k in 1..5 {
        assert_eq!(a.find(k), b.find(k));
        assert_eq!(a.find(k), Some(&(k * 100)));
    }
}

#[test]
fn trees_of_different_degree_differ() {
    let a = build(2, &[1, 2]);
    let b = build(3, &[1, 2]);
    assert!(a != b);
}

#[test]
fn cleared_tree_equals_new_tree() {
    let mut a = build(20, &[3, 1, 2]);
    let b: Box<BTree<i32, i32>> = BTree::new();
    assert!(a != b);
    a.clear();
    assert!(a == b);
}

#[test]
fn items_compare_by_kind_and_content() {
    let a = build(2, &[1, 2, 3, 4]);
    let b = build(2, &[1, 2, 3, 4]);
    let node_a = a.item(0).unwrap();
    let node_b = b.item(0).unwrap();
    assert!(node_a == node_b);
    assert!(node_a != a.item(1).unwrap());
    let leaf: TreeItem<i32, i32> = TreeItem::TreeLeaf { value: 100 };
    let other: TreeItem<i32, i32> = TreeItem::TreeLeaf { value: 200 };
    assert!(leaf != other);
    assert!(&leaf != node_a);
    assert!(node_a != &leaf);
    match node_a {
        TreeItem::TreeNode { value } => {
            assert!(value.item(0).unwrap() == &leaf);
            assert!(value.item(1).unwrap() == &other);
        }
        TreeItem::TreeLeaf { .. } => panic!("the root holds children"),
    }
}
