use btree::BTree;

#[test]
fn test_basic_insert() {
    let foo = "foo";
    let bar = "bar";
    let baz = "baz";

    let mut t = BTree::new();
    assert!(t.is_empty());
    assert_eq!(t.len(), 0);

    assert!(t.insert(42, bar));
    assert!(!t.is_empty());
    assert_eq!(t.len(), 1);

    assert!(t.insert(3, baz));
    assert!(!t.is_empty());
    assert_eq!(t.len(), 2);

    assert!(t.insert(1, foo));
    assert!(!t.is_empty());
    assert_eq!(t.len(), 3);

    assert_eq!(t.find(1).unwrap(), &foo);
    assert_eq!(t.find(3).unwrap(), &baz);
    assert_eq!(t.find(42).unwrap(), &bar);
}

#[test]
fn test_basic_len() {
    let foo = "foo";
    let bar = "bar";

    let mut t = BTree::new();
    assert_eq!(t.len(), 0);

    assert!(t.insert(1, foo));
    assert_eq!(t.len(), 1);

    assert!(t.insert(42, bar));
    assert_eq!(t.len(), 2);

    t.clear();
    assert!(t.is_empty());
    assert_eq!(t.len(), 0);
}

#[test]
fn test_clear() {
    let foo = "foo";
    let bar = "bar";

    let mut t = BTree::new();
    assert!(t.is_empty());

    assert!(t.insert(1, foo));
    assert!(!t.is_empty());

    assert!(t.insert(42, bar));
    assert!(!t.is_empty());

    t.clear();
    assert!(t.is_empty());

    assert_eq!(t.find(1), None);
    assert_eq!(t.find(42), None);
}

fn shuffled(n: usize, seed: u64) -> Vec<usize> {
    let mut keys: Vec<usize> = (0..n).collect();
    let mut state = seed.wrapping_mul(0x9E37_79B9_7F4A_7C15) | 1;
    let mut i = n;
    while i > 1 {
        state ^= state << 13;
        state ^= state >> 7;
        state ^= state << 17;
        let j = (state % (i as u64)) as usize;
        keys.swap(i - 1, j);
        i -= 1;
    }
    keys
}

#[test]
fn test_insert_split_random() {
    let iterations = 100000;

    let mut t = BTree::new();
    let random_keys = shuffled(iterations, 42);

    for &key in random_keys.iter() {
        t.insert(key, key);
    }

    for &k in random_keys.iter() {
        assert_eq!(t.find(k).unwrap(), &k);
    }
}
