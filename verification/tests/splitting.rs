use btree::split::split_child;
use btree::{BTree, TreeItem};

fn child_of<K, V>(tree: &BTree<K, V>, pos: usize) -> &BTree<K, V> {
    match tree.item(pos) {
        Some(TreeItem::TreeNode { value }) => &**value,
        _ => panic!("slot {} holds no child", pos),
    }
}

fn value_of<K, V>(tree: &BTree<K, V>, pos: usize) -> Option<&V> {
    match tree.item(pos) {
        Some(TreeItem::TreeLeaf { value }) => Some(value),
        Some(TreeItem::TreeNode { .. }) => panic!("slot {} holds a child", pos),
        None => None,
    }
}

fn keys_of(tree: &BTree<i32, i32>) -> Vec<i32> {
    let mut keys = Vec::new();
    let mut i = 0;
    while i < tree.capacity() {
        match tree.key(i) {
            Some(k) => {
                assert_eq!(i, keys.len());
                keys.push(*k);
            }
            None => {}
        }
        i += 1;
    }
    assert_eq!(keys.len(), tree.len());
    keys
}

fn values_of(tree: &BTree<i32, i32>) -> Vec<i32> {
    let mut values = Vec::new();
    let mut i = 0;
    while i < tree.capacity() + 1 {
        match value_of(tree, i) {
            Some(v) => {
                assert_eq!(i, values.len());
                values.push(*v);
            }
            None => {}
        }
        i += 1;
    }
    values
}

fn small_tree(keys: &[i32]) -> Box<BTree<i32, i32>> {
    let mut t = BTree::with_degree(2);
    for &k in keys.iter() {
        assert!(t.insert(k, k));
    }
    t
}

#[test]
fn test_insert_split_root() {
    let mut t = small_tree(&[4, 5, 6]);
    assert_eq!(t.capacity(), 3);
    assert_eq!(t.len(), 3);
    assert_eq!(keys_of(&t), vec![4, 5, 6]);
    assert_eq!(values_of(&t), vec![4, 5, 6]);

    assert!(t.insert(10, 10));

    assert_eq!(t.len(), 1);
    assert_eq!(keys_of(&t), vec![5]);
    assert!(t.item(0).is_some());
    assert!(t.item(1).is_some());
    assert!(t.item(2).is_none());
    assert!(t.item(3).is_none());

    let l = child_of(&t, 0);
    assert_eq!(keys_of(l), vec![4]);
    assert_eq!(values_of(l), vec![4, 5]);

    let r = child_of(&t, 1);
    assert_eq!(keys_of(r), vec![6, 10]);
    assert_eq!(values_of(r), vec![6, 10]);

    assert_eq!(t.find(4), Some(&4));
    assert_eq!(t.find(5), Some(&5));
    assert_eq!(t.find(6), Some(&6));
    assert_eq!(t.find(10), Some(&10));
}

#[test]
fn find_of_absent_key_between_leaf_keys_fails() {
    let t = small_tree(&[4, 5, 6, 10]);
    assert_eq!(t.find(7), None);
    assert_eq!(t.find(11), None);
    assert_eq!(t.find(3), None);
}

#[test]
fn find_of_absent_key_behind_last_leaf_key_lands_on_overflow_slot() {
    let t = small_tree(&[10, 20, 30, 40]);
    assert_eq!(keys_of(&t), vec![20]);
    assert_eq!(values_of(child_of(&t, 0)), vec![10, 20]);
    // 15 is no key of the tree; the search ends behind the last key of the
    // left leaf, on the slot that holds the value of the separator 20.
    assert_eq!(t.find(15), Some(&20));
    assert_eq!(t.find(20), Some(&20));
    assert_eq!(t.find(5), None);
    assert_eq!(t.find(25), None);
    assert_eq!(t.find(35), None);
    assert_eq!(t.find(45), None);
}

#[test]
fn test_insert_split_right_leaf() {
    let mut t = small_tree(&[4, 5, 6, 10, 17]);
    assert_eq!(keys_of(&t), vec![5]);
    assert_eq!(keys_of(child_of(&t, 1)), vec![6, 10, 17]);

    assert!(t.insert(21, 21));

    assert_eq!(t.len(), 2);
    assert_eq!(keys_of(&t), vec![5, 10]);
    assert!(t.item(2).is_some());
    assert!(t.item(3).is_none());

    let l = child_of(&t, 0);
    assert_eq!(keys_of(l), vec![4]);
    assert_eq!(values_of(l), vec![4, 5]);

    let m = child_of(&t, 1);
    assert_eq!(keys_of(m), vec![6]);
    assert_eq!(values_of(m), vec![6, 10]);

    let r = child_of(&t, 2);
    assert_eq!(keys_of(r), vec![17, 21]);
    assert_eq!(values_of(r), vec![17, 21]);
}

#[test]
fn test_insert_split_middle_leaf() {
    let mut t = small_tree(&[4, 5, 6, 10, 17, 21, 7, 8]);
    assert_eq!(keys_of(&t), vec![5, 10]);
    assert_eq!(keys_of(child_of(&t, 1)), vec![6, 7, 8]);
    assert_eq!(values_of(child_of(&t, 1)), vec![6, 7, 8, 10]);

    assert!(t.insert(9, 9));

    assert_eq!(t.len(), 3);
    assert_eq!(keys_of(&t), vec![5, 7, 10]);
    assert!(t.item(3).is_some());

    let t0 = child_of(&t, 0);
    assert_eq!(keys_of(t0), vec![4]);
    assert_eq!(values_of(t0), vec![4, 5]);

    let t1 = child_of(&t, 1);
    assert_eq!(keys_of(t1), vec![6]);
    assert_eq!(values_of(t1), vec![6, 7]);

    let t2 = child_of(&t, 2);
    assert_eq!(keys_of(t2), vec![8, 9]);
    assert_eq!(values_of(t2), vec![8, 9, 10]);

    let t3 = child_of(&t, 3);
    assert_eq!(keys_of(t3), vec![17, 21]);
    assert_eq!(values_of(t3), vec![17, 21]);
}

#[test]
fn split_child_leaves_halves_and_one_more_key() {
    let mut t = small_tree(&[1, 2, 3, 4, 5]);
    assert_eq!(keys_of(&t), vec![2]);
    assert_eq!(keys_of(child_of(&t, 1)), vec![3, 4, 5]);

    split_child(&mut t, 1);

    assert_eq!(t.len(), 2);
    assert_eq!(keys_of(&t), vec![2, 4]);
    assert_eq!(keys_of(child_of(&t, 0)), vec![1]);
    assert_eq!(child_of(&t, 1).len(), 1);
    assert_eq!(keys_of(child_of(&t, 1)), vec![3]);
    assert_eq!(values_of(child_of(&t, 1)), vec![3, 4]);
    assert_eq!(child_of(&t, 2).len(), 1);
    assert_eq!(keys_of(child_of(&t, 2)), vec![5]);
    assert_eq!(values_of(child_of(&t, 2)), vec![5]);
    assert!(t.item(3).is_none());

    for k in 1..6 {
        assert_eq!(t.find(k), Some(&k));
    }
}

#[test]
fn split_child_with_degree_three() {
    let mut t: Box<BTree<i32, i32>> = BTree::with_degree(3);
    for k in 1..7 {
        assert!(t.insert(k * 10, k));
    }
    // The root held 10..50 and was split at 30 before 60 went in.
    assert_eq!(keys_of(&t), vec![30]);
    assert_eq!(keys_of(child_of(&t, 0)), vec![10, 20]);
    assert_eq!(keys_of(child_of(&t, 1)), vec![40, 50, 60]);
    for k in 7..9 {
        assert!(t.insert(k * 10, k));
    }
    assert_eq!(keys_of(child_of(&t, 1)), vec![40, 50, 60, 70, 80]);

    split_child(&mut t, 1);

    assert_eq!(keys_of(&t), vec![30, 60]);
    assert_eq!(child_of(&t, 1).len(), 2);
    assert_eq!(child_of(&t, 2).len(), 2);
    assert_eq!(keys_of(child_of(&t, 1)), vec![40, 50]);
    assert_eq!(values_of(child_of(&t, 1)), vec![4, 5, 6]);
    assert_eq!(keys_of(child_of(&t, 2)), vec![70, 80]);
    assert_eq!(values_of(child_of(&t, 2)), vec![7, 8]);
}

#[test]
fn full_root_grows_the_tree_by_one_level() {
    let mut t = small_tree(&[1, 2, 3]);
    assert!(matches!(t.item(0), Some(TreeItem::TreeLeaf { .. })));
    assert!(t.insert(4, 4));
    assert_eq!(t.len(), 1);
    assert!(matches!(t.item(0), Some(TreeItem::TreeNode { .. })));
    assert!(matches!(child_of(&t, 0).item(0), Some(TreeItem::TreeLeaf { .. })));
    assert!(matches!(child_of(&t, 1).item(0), Some(TreeItem::TreeLeaf { .. })));
}
