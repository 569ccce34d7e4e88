use btree::insert::{insert_non_full, push_down_root};
use btree::label::{digit_text, push_decimal, signed_text, unsigned_text};
use btree::order::{is_gt, is_le, is_same};
use btree::slots::{rotate_right, swap_places};
use btree::split::{halve, split_child};
use btree::{BTree, TreeItem};

fn keys_of(tree: &BTree<i32, i32>) -> Vec<Option<i32>> {
    (0..tree.capacity()).map(|i| tree.key(i).copied()).collect()
}

fn values_of(tree: &BTree<i32, i32>) -> Vec<Option<i32>> {
    (0..tree.capacity() + 1)
        .map(|i| match tree.item(i) {
            Some(TreeItem::TreeLeaf { value }) => Some(*value),
            Some(TreeItem::TreeNode { .. }) => panic!("slot {} holds a child", i),
            None => None,
        })
        .collect()
}

fn child_of(tree: &BTree<i32, i32>, pos: usize) -> &BTree<i32, i32> {
    match tree.item(pos) {
        Some(TreeItem::TreeNode { value }) => &**value,
        _ => panic!("slot {} holds no child", pos),
    }
}

#[test]
fn comparisons_follow_the_order_of_the_keys() {
    assert!(is_le(&1, &2));
    assert!(is_le(&2, &2));
    assert!(!is_le(&3, &2));
    assert!(is_gt(&3, &2));
    assert!(!is_gt(&2, &2));
    assert!(!is_gt(&1, &2));
    assert!(is_same(&2, &2));
    assert!(!is_same(&1, &2));
}

#[test]
fn swap_places_exchanges_two_places() {
    let mut v = vec![Some(1), None, Some(3)];
    swap_places(&mut v, 0, 1);
    assert_eq!(v, vec![None, Some(1), Some(3)]);
    swap_places(&mut v, 2, 0);
    assert_eq!(v, vec![Some(3), Some(1), None]);
    swap_places(&mut v, 1, 1);
    assert_eq!(v, vec![Some(3), Some(1), None]);
}

#[test]
fn rotate_right_brings_the_last_place_to_the_front() {
    let mut v = vec![Some(1), Some(2), Some(3), None, Some(5)];
    rotate_right(&mut v, 1, 3);
    assert_eq!(v, vec![Some(1), None, Some(2), Some(3), Some(5)]);
    rotate_right(&mut v, 0, 4);
    assert_eq!(v, vec![Some(5), Some(1), None, Some(2), Some(3)]);
    rotate_right(&mut v, 2, 2);
    assert_eq!(v, vec![Some(5), Some(1), None, Some(2), Some(3)]);
}

#[test]
fn halve_keeps_the_front_and_returns_median_and_back() {
    let mut t: Box<BTree<i32, i32>> = BTree::with_degree(3);
    for k in 1..6 {
        t.insert(k, k * 10);
    }
    assert_eq!(t.len(), 5);
    let (median, right) = halve(&mut t);
    assert_eq!(median, Some(3));
    assert_eq!(t.len(), 2);
    assert_eq!(keys_of(&t), vec![Some(1), Some(2), None, None, None]);
    assert_eq!(values_of(&t), vec![Some(10), Some(20), Some(30), None, None, None]);
    assert_eq!(right.len(), 2);
    assert_eq!(right.min_degree(), 3);
    assert_eq!(keys_of(&right), vec![Some(4), Some(5), None, None, None]);
    assert_eq!(values_of(&right), vec![Some(40), Some(50), None, None, None, None]);
}

#[test]
fn push_down_root_makes_the_root_the_only_child() {
    let mut t: Box<BTree<i32, i32>> = BTree::with_degree(2);
    for k in [4, 5, 6] {
        t.insert(k, k);
    }
    let mut same: Box<BTree<i32, i32>> = BTree::with_degree(2);
    for k in [4, 5, 6] {
        same.insert(k, k);
    }
    push_down_root(&mut t);
    assert_eq!(t.len(), 0);
    assert_eq!(t.min_degree(), 2);
    assert_eq!(keys_of(&t), vec![None, None, None]);
    assert!(child_of(&t, 0) == &*same);
    assert!(t.item(1).is_none());
    assert!(t.item(2).is_none());
    assert!(t.item(3).is_none());

    split_child(&mut t, 0);
    assert_eq!(keys_of(&t), vec![Some(5), None, None]);
    assert_eq!(keys_of(child_of(&t, 0)), vec![Some(4), None, None]);
    assert_eq!(values_of(child_of(&t, 0)), vec![Some(4), Some(5), None, None]);
    assert_eq!(keys_of(child_of(&t, 1)), vec![Some(6), None, None]);
    assert_eq!(values_of(child_of(&t, 1)), vec![Some(6), None, None, None]);
    assert!(t.item(2).is_none());
}

#[test]
fn insert_non_full_puts_the_key_at_its_rank() {
    let mut t: Box<BTree<i32, i32>> = BTree::with_degree(3);
    assert!(insert_non_full(&mut t, 30, 3));
    assert!(insert_non_full(&mut t, 10, 1));
    assert!(insert_non_full(&mut t, 20, 2));
    assert_eq!(keys_of(&t), vec![Some(10), Some(20), Some(30), None, None]);
    assert_eq!(values_of(&t), vec![Some(1), Some(2), Some(3), None, None, None]);
    assert!(!insert_non_full(&mut t, 20, 22));
    assert_eq!(keys_of(&t), vec![Some(10), Some(20), Some(30), None, None]);
    assert_eq!(values_of(&t), vec![Some(1), Some(22), Some(3), None, None, None]);
}

#[test]
fn insert_non_full_splits_a_full_child_before_it_enters_it() {
    let mut t: Box<BTree<i32, i32>> = BTree::with_degree(2);
    for k in [10, 20, 30, 40, 50] {
        t.insert(k, k);
    }
    assert_eq!(keys_of(&t), vec![Some(20), None, None]);
    assert_eq!(keys_of(child_of(&t, 1)), vec![Some(30), Some(40), Some(50)]);

    assert!(insert_non_full(&mut t, 35, 35));

    assert_eq!(keys_of(&t), vec![Some(20), Some(40), None]);
    assert_eq!(keys_of(child_of(&t, 0)), vec![Some(10), None, None]);
    assert_eq!(keys_of(child_of(&t, 1)), vec![Some(30), Some(35), None]);
    assert_eq!(values_of(child_of(&t, 1)), vec![Some(30), Some(35), Some(40), None]);
    assert_eq!(keys_of(child_of(&t, 2)), vec![Some(50), None, None]);
    assert_eq!(values_of(child_of(&t, 2)), vec![Some(50), None, None, None]);
}

#[test]
fn decimal_text_of_numbers() {
    assert_eq!(digit_text(0), "0");
    assert_eq!(digit_text(9), "9");
    assert_eq!(unsigned_text(0), "0");
    assert_eq!(unsigned_text(9), "9");
    assert_eq!(unsigned_text(10), "10");
    assert_eq!(unsigned_text(1902), "1902");
    assert_eq!(signed_text(0), "0");
    assert_eq!(signed_text(-10), "-10");
    assert_eq!(signed_text(305), "305");
    let mut s = String::from("n=");
    push_decimal(&mut s, 120);
    assert_eq!(s, "n=120");
}
