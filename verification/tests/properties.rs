use btree::search::{find_node, find_node_pos, is_leaf};
use btree::{BTree, BTREE_KEYS_UBOUND, BTREE_MIN_DEGREE};

fn shuffled(n: u64, seed: u64) -> Vec<u64> {
    let mut keys: Vec<u64> = (0..n).collect();
    let mut state = seed.wrapping_mul(0x9E37_79B9_7F4A_7C15) | 1;
    let mut i = keys.len();
    while i > 1 {
        state ^= state << 13;
        state ^= state >> 7;
        state ^= state << 17;
        let j = (state % (i as u64)) as usize;
        keys.swap(i - 1, j);
        i -= 1;
    }
    keys
}

#[test]
fn new_tree_has_the_default_degree() {
    let t: Box<BTree<u64, u64>> = BTree::new();
    assert_eq!(BTREE_MIN_DEGREE, 20);
    assert_eq!(BTREE_KEYS_UBOUND, 39);
    assert_eq!(t.min_degree(), 20);
    assert_eq!(t.capacity(), 39);
    assert_eq!(t.len(), 0);
    assert!(t.is_empty());
    for i in 0..41 {
        assert!(t.key(i).is_none());
        assert!(t.item(i).is_none());
    }
}

#[test]
fn with_degree_sets_the_capacity() {
    let t: Box<BTree<u64, u64>> = BTree::with_degree(2);
    assert_eq!(t.min_degree(), 2);
    assert_eq!(t.capacity(), 3);
    let t: Box<BTree<u64, u64>> = BTree::with_degree(7);
    assert_eq!(t.capacity(), 13);
    assert!(t.item(13).is_none());
    assert!(t.item(14).is_none());
}

#[test]
fn distinct_keys_are_all_found_with_their_values() {
    for degree in [2usize, 3, 4, 20] {
        let keys = shuffled(2000, degree as u64);
        let mut t = BTree::with_degree(degree);
        for &k in keys.iter() {
            assert!(t.insert(k, k + 1));
        }
        for &k in keys.iter() {
            assert_eq!(t.find(k), Some(&(k + 1)));
        }
        assert_eq!(t.find(2000), None);
        assert!(t.len() <= t.capacity());
        assert!(!t.is_empty());
    }
}

#[test]
fn len_counts_the_keys_of_the_root_only() {
    let mut t = BTree::with_degree(2);
    for k in 0u64..3 {
        t.insert(k, k);
        assert_eq!(t.len() as u64, k + 1);
    }
    t.insert(3, 3);
    assert_eq!(t.len(), 1);
    for k in 4u64..100 {
        t.insert(k, k);
        assert!(t.len() <= 3);
        let mut held = 0;
        for i in 0..t.capacity() {
            if t.key(i).is_some() {
                held += 1;
            }
        }
        assert_eq!(held, t.len());
    }
}

#[test]
fn insert_of_a_key_that_a_leaf_holds_replaces_the_value() {
    let mut t = BTree::with_degree(2);
    assert!(t.insert(1, "one"));
    assert!(t.insert(2, "two"));
    assert!(!t.insert(1, "uno"));
    assert_eq!(t.len(), 2);
    assert_eq!(t.find(1), Some(&"uno"));
    assert_eq!(t.find(2), Some(&"two"));
    assert!(!t.insert(2, "dos"));
    assert_eq!(t.find(2), Some(&"dos"));
}

#[test]
fn insert_of_a_separator_adds_the_key_once_more() {
    let mut t = BTree::with_degree(2);
    for k in [4, 5, 6, 10] {
        assert!(t.insert(k, k));
    }
    assert_eq!(t.key(0), Some(&5));
    // 5 separates the two leaves and stands in neither of them.
    assert!(t.insert(5, 55));
    assert_eq!(t.find(5), Some(&55));
    assert!(!t.insert(5, 56));
    assert_eq!(t.find(5), Some(&56));
    assert_eq!(t.find(4), Some(&4));
    assert_eq!(t.find(6), Some(&6));
    assert_eq!(t.find(10), Some(&10));
}

#[test]
fn insert_of_the_median_of_a_full_leaf_adds_the_key_once_more() {
    let mut t = BTree::with_degree(2);
    for k in [4, 5, 6] {
        assert!(t.insert(k, k));
    }
    // The root is full and splits at 5 before the insert reaches a leaf.
    assert!(t.insert(5, 50));
    assert_eq!(t.len(), 1);
    assert_eq!(t.key(0), Some(&5));
    assert_eq!(t.find(5), Some(&50));
    assert_eq!(t.find(4), Some(&4));
    assert_eq!(t.find(6), Some(&6));
}

#[test]
fn empty_exactly_without_entries() {
    let mut t = BTree::with_degree(2);
    assert!(t.is_empty());
    assert!(t.insert(9, 9));
    assert!(!t.is_empty());
    assert!(!t.insert(9, 10));
    assert!(!t.is_empty());
    t.clear();
    assert!(t.is_empty());
    assert_eq!(t.len(), 0);
    assert_eq!(t.find(9), None);
    for i in 0..4 {
        assert!(t.item(i).is_none());
    }
    assert!(t.insert(9, 11));
    assert_eq!(t.find(9), Some(&11));
}

#[test]
fn clear_empties_a_tall_tree() {
    let mut t = BTree::with_degree(2);
    for k in 0u64..500 {
        t.insert(k, k);
    }
    assert!(!t.is_empty());
    t.clear();
    assert!(t.is_empty());
    assert_eq!(t.min_degree(), 2);
    assert_eq!(t.capacity(), 3);
    for k in 0u64..500 {
        assert_eq!(t.find(k), None);
    }
    for k in 0u64..10 {
        assert!(t.insert(k, k));
    }
    for k in 0u64..10 {
        assert_eq!(t.find(k), Some(&k));
    }
}

#[test]
fn two_orders_of_insertion_give_the_same_answers() {
    let n = 3000;
    let first = shuffled(n, 1);
    let second = shuffled(n, 2);
    assert_ne!(first, second);
    let mut a = BTree::with_degree(3);
    let mut b = BTree::with_degree(3);
    for &k in first.iter() {
        a.insert(k, k * 2);
    }
    for &k in second.iter() {
        b.insert(k, k * 2);
    }
    for k in 0..n {
        assert_eq!(a.find(k), b.find(k));
        assert_eq!(a.find(k), Some(&(k * 2)));
    }
}

#[test]
fn position_is_the_place_of_the_first_key_not_below() {
    let mut t = BTree::with_degree(3);
    for k in [10, 20, 30, 40] {
        t.insert(k, k);
    }
    assert_eq!(find_node_pos(&t, &5), 0);
    assert_eq!(find_node_pos(&t, &10), 0);
    assert_eq!(find_node_pos(&t, &11), 1);
    assert_eq!(find_node_pos(&t, &30), 2);
    assert_eq!(find_node_pos(&t, &40), 3);
    assert_eq!(find_node_pos(&t, &41), 4);
    let e: Box<BTree<i32, i32>> = BTree::with_degree(3);
    assert_eq!(find_node_pos(&e, &41), 0);
}

#[test]
fn descent_ends_at_the_leaf_for_the_key() {
    let mut t = BTree::with_degree(2);
    assert!(!is_leaf(&t));
    for k in 1..20 {
        t.insert(k * 10, k);
    }
    assert!(!is_leaf(&t));
    for k in 1..20 {
        let key = k * 10;
        let leaf = find_node(&t, &key);
        assert!(is_leaf(leaf));
        let pos = find_node_pos(leaf, &key);
        assert!(pos == leaf.len() || leaf.key(pos) == Some(&key));
    }
    let leaf = find_node(&t, &1000);
    assert!(is_leaf(leaf));
    assert_eq!(find_node_pos(leaf, &1000), leaf.len());
    assert!(leaf.item(leaf.len()).is_none());
}

#[test]
fn values_need_not_be_comparable() {
    struct Opaque(u8);
    let mut t = BTree::new();
    assert!(t.insert(1u8, Opaque(7)));
    assert!(t.insert(0u8, Opaque(8)));
    assert_eq!(t.find(1).map(|v| v.0), Some(7));
    assert_eq!(t.find(0).map(|v| v.0), Some(8));
    assert!(t.find(2).is_none());
}
