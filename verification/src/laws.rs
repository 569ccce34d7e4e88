//! What holds of every valid tree, whatever inserts have made it.

use crate::order::{above, key_le, lemma_order_laws, total_order, within};
use crate::search::lemma_get_lookup;
use crate::slots::{lemma_rank_splits, lemma_rank_unique};
use crate::tree::BTree;
use vstd::prelude::*;

verus! {

/// `s` is the least key of `entries` that is not below `key`.
pub open spec fn is_ceiling<K: Ord, V>(entries: Map<K, V>, key: K, s: K) -> bool {
    &&& entries.contains_key(s)
    &&& key_le(key, s)
    &&& forall|k: K| #[trigger] entries.contains_key(k) && key_le(key, k) ==> key_le(s, k)
}

/// Where a search for `key` below a valid subtree succeeds, it has found
/// the value of the least key at or above `key` that a strict search finds
/// there. The key is returned.
pub proof fn lemma_found_in_subtree<K: Ord, V>(
    tree: BTree<K, V>,
    h: nat,
    lo: Option<K>,
    hi: Option<K>,
    key: K,
) -> (s: K)
    requires
        total_order::<K>(),
        tree.inv(h, lo, hi),
        above(lo, key),
        within(key, hi),
        tree.lookup(key) is Some,
    ensures
        tree.get(s, hi) == tree.lookup(key),
        key_le(key, s),
        within(s, hi),
        forall|k: K| (#[trigger] tree.get(k, hi)) is Some && key_le(key, k) ==> key_le(s, k),
    decreases h,
{
    lemma_order_laws::<K>();
    let keys = tree.spec_keys();
    let used = tree.spec_len();
    let pos = tree.position(key) as int;
    lemma_rank_splits(keys, used, key);
    if h > 0 {
        let sub = tree.child(pos);
        let s = lemma_found_in_subtree(
            sub,
            (h - 1) as nat,
            tree.lower(pos, lo),
            tree.upper(pos, hi),
            key,
        );
        lemma_rank_unique(keys, used, s, pos as nat);
        assert forall|k: K| (#[trigger] tree.get(k, hi)) is Some && key_le(key, k) implies key_le(
            s,
            k,
        ) by {
            let q = tree.position(k) as int;
            lemma_rank_splits(keys, used, k);
            if q == pos {
                assert(tree.get(k, hi) == sub.get(k, tree.upper(pos, hi)));
            }
        }
        s
    } else {
        if pos < used {
            key
        } else {
            let s = hi.unwrap();
            lemma_rank_unique(keys, used, s, used);
            s
        }
    }
}

/// Whatever a search in a valid tree returns for `key` is the value of the
/// least entry of the tree that is not below `key`: the value of `key`
/// itself where the tree holds it, and never a value that the tree does not
/// hold. The key of that entry is returned.
pub proof fn lemma_found_is_ceiling<K: Ord, V>(tree: BTree<K, V>, key: K) -> (s: K)
    requires
        tree.wf(),
        tree.lookup(key) is Some,
    ensures
        is_ceiling(tree@, key, s),
        tree.lookup(key) == Some(tree@[s]),
{
    lemma_found_in_subtree(tree, tree.height(), None, None, key)
}

/// The map that inserting the pairs of `pairs` in turn makes of the empty
/// map.
pub open spec fn inserted<K, V>(pairs: Seq<(K, V)>) -> Map<K, V>
    decreases pairs.len(),
{
    if pairs.len() == 0 {
        Map::empty()
    } else {
        inserted(pairs.drop_last()).insert(pairs.last().0, pairs.last().1)
    }
}

/// No key occurs twice in `pairs`.
pub open spec fn distinct_keys<K, V>(pairs: Seq<(K, V)>) -> bool {
    forall|i: int, j: int| 0 <= i < j < pairs.len() ==> pairs[i].0 != pairs[j].0
}

/// Every key of a valid tree is found, with its value.
pub proof fn lemma_entries_are_found<K: Ord, V>(tree: BTree<K, V>, key: K)
    requires
        tree.wf(),
        tree@.contains_key(key),
    ensures
        tree.lookup(key) == Some(tree@[key]),
{
    lemma_get_lookup(tree, tree.height(), None, None, key);
}

/// Inserting pairs with distinct keys gives a map that holds each pair.
pub proof fn lemma_inserted_holds<K, V>(pairs: Seq<(K, V)>, i: int)
    requires
        distinct_keys(pairs),
        0 <= i < pairs.len(),
    ensures
        inserted(pairs).contains_key(pairs[i].0),
        inserted(pairs)[pairs[i].0] == pairs[i].1,
    decreases pairs.len(),
{
    if i < pairs.len() - 1 {
        let front = pairs.drop_last();
        lemma_inserted_holds(front, i);
    }
}

/// After inserts of pairs with distinct keys into an empty tree, in any
/// order of the inserts, every one of the keys is found with its value.
pub proof fn lemma_distinct_inserts_are_found<K: Ord, V>(
    tree: BTree<K, V>,
    pairs: Seq<(K, V)>,
    i: int,
)
    requires
        tree.wf(),
        tree@ == inserted(pairs),
        distinct_keys(pairs),
        0 <= i < pairs.len(),
    ensures
        tree.lookup(pairs[i].0) == Some(pairs[i].1),
{
    lemma_inserted_holds(pairs, i);
    lemma_entries_are_found(tree, pairs[i].0);
}

/// Two valid trees with the same entries give the same answer to a search
/// for any key among them, however the two trees are built.
pub proof fn lemma_same_entries_same_finds<K: Ord, V>(a: BTree<K, V>, b: BTree<K, V>, key: K)
    requires
        a.wf(),
        b.wf(),
        a@ == b@,
        a@.contains_key(key),
    ensures
        a.lookup(key) == b.lookup(key),
        a.lookup(key) == Some(a@[key]),
{
    lemma_entries_are_found(a, key);
    lemma_entries_are_found(b, key);
}

/// A key that a leaf holds is found by a strict search.
pub proof fn lemma_stored_is_found<K: Ord, V>(
    tree: BTree<K, V>,
    h: nat,
    lo: Option<K>,
    hi: Option<K>,
    key: K,
)
    requires
        total_order::<K>(),
        tree.inv(h, lo, hi),
        tree.stores(key),
    ensures
        tree.get(key, hi) is Some,
    decreases h,
{
    let pos = tree.position(key) as int;
    if h > 0 {
        lemma_stored_is_found(
            tree.child(pos),
            (h - 1) as nat,
            tree.lower(pos, lo),
            tree.upper(pos, hi),
            key,
        );
    }
}

/// An insert adds a key to a leaf unless a leaf holds the key.
pub proof fn lemma_unstored_takes_place<K: Ord, V>(
    tree: BTree<K, V>,
    h: nat,
    lo: Option<K>,
    hi: Option<K>,
    key: K,
)
    requires
        total_order::<K>(),
        tree.inv(h, lo, hi),
        !tree.stores(key),
    ensures
        tree.takes_place(key),
    decreases h,
{
    let pos = tree.position(key) as int;
    lemma_rank_splits(tree.spec_keys(), tree.spec_len(), key);
    if h > 0 {
        lemma_unstored_takes_place(
            tree.child(pos),
            (h - 1) as nat,
            tree.lower(pos, lo),
            tree.upper(pos, hi),
            key,
        );
    }
}

/// The leaf that a search for `key` reaches decides whether an insert of
/// `key` adds a key: it does unless that leaf holds `key` among its own keys,
/// and even then where the leaf is full and `key` is its median.
pub proof fn lemma_takes_place_at_leaf<K: Ord, V>(
    tree: BTree<K, V>,
    h: nat,
    lo: Option<K>,
    hi: Option<K>,
    key: K,
)
    requires
        total_order::<K>(),
        tree.inv(h, lo, hi),
    ensures
        tree.takes_place(key) == (!tree.stores(key) || (tree.leaf_for(key).full()
            && tree.leaf_for(key).median() == Some(key))),
    decreases h,
{
    let pos = tree.position(key) as int;
    lemma_rank_splits(tree.spec_keys(), tree.spec_len(), key);
    if h > 0 {
        lemma_takes_place_at_leaf(
            tree.child(pos),
            (h - 1) as nat,
            tree.lower(pos, lo),
            tree.upper(pos, hi),
            key,
        );
    }
}

/// An insert of a key that a leaf holds among its own keys adds no key and
/// replaces the value, unless that leaf is full and splits at this very key.
/// The key was an entry of the tree before, so the insert changes no other
/// entry and adds none.
pub proof fn lemma_held_key_is_replaced<K: Ord, V>(tree: BTree<K, V>, key: K, value: V)
    requires
        tree.wf(),
        tree.stores(key),
        !(tree.leaf_for(key).full() && tree.leaf_for(key).median() == Some(key)),
    ensures
        !tree.takes_place(key),
        tree@.contains_key(key),
        tree@.insert(key, value).dom() == tree@.dom(),
        tree@.insert(key, value)[key] == value,
{
    lemma_takes_place_at_leaf(tree, tree.height(), None, None, key);
    lemma_stored_is_found(tree, tree.height(), None, None, key);
}

/// The upper bound of a valid subtree is found below it by a strict search,
/// where the subtree has one.
pub proof fn lemma_bound_is_found<K: Ord, V>(tree: BTree<K, V>, h: nat, lo: Option<K>, bound: K)
    requires
        total_order::<K>(),
        tree.inv(h, lo, Some(bound)),
    ensures
        tree.get(bound, Some(bound)) is Some,
    decreases h,
{
    lemma_order_laws::<K>();
    let pos = tree.position(bound) as int;
    lemma_rank_splits(tree.spec_keys(), tree.spec_len(), bound);
    if h > 0 {
        lemma_bound_is_found(tree.child(pos), (h - 1) as nat, tree.lower(pos, lo), bound);
    }
}

/// Every key in use in the root of a valid tree is an entry of the tree.
pub proof fn lemma_root_key_is_entry<K: Ord, V>(tree: BTree<K, V>, i: int)
    requires
        tree.wf(),
        0 <= i < tree.spec_len(),
    ensures
        tree.spec_keys()[i] is Some,
        tree@.contains_key(tree.spec_keys()[i].unwrap()),
{
    let h = tree.height();
    let keys = tree.spec_keys();
    let k = keys[i].unwrap();
    lemma_rank_unique(keys, tree.spec_len(), k, i as nat);
    if h > 0 {
        lemma_bound_is_found(tree.child(i), (h - 1) as nat, tree.lower(i, None), k);
    }
}

/// A valid tree is vacant exactly when none of its slots is occupied, and
/// exactly when it has no entry. It then has no key in use either.
pub proof fn lemma_vacant_is_empty<K: Ord, V>(tree: BTree<K, V>)
    requires
        tree.wf(),
    ensures
        tree.vacant() <==> forall|i: int|
            0 <= i < tree.spec_items().len() ==> (#[trigger] tree.spec_items()[i]) is None,
        tree.vacant() <==> tree@ == Map::<K, V>::empty(),
        tree.vacant() <==> tree.spec_len() == 0,
{
    if tree.vacant() {
        assert(tree@ =~= Map::<K, V>::empty());
    } else {
        lemma_root_key_is_entry(tree, 0);
    }
}

} // verus!
