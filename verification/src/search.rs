//! Searching: the place of a key within one node, the descent to the leaf
//! that is responsible for a key, and `find`.

use crate::laws::{is_ceiling, lemma_found_is_ceiling};
use crate::order::{is_le, is_same, total_order};
use crate::slots::{lemma_rank_splits, rank, scan};
use crate::tree::{refers_to, BTree, TreeItem};
use vstd::prelude::*;

verus! {

impl<K: Ord, V> BTree<K, V> {
    /// The node at which the descent for `key` ends: the first node on the
    /// way down whose first slot holds no child.
    pub open spec fn leaf_for(&self, key: K) -> BTree<K, V>
        decreases self,
    {
        let pos = self.position(key) as int;
        if self.height() == 0 || pos >= self.spec_items().len() {
            *self
        } else {
            match self.spec_items()[pos] {
                Some(TreeItem::TreeNode { value }) => value.leaf_for(key),
                _ => *self,
            }
        }
    }
}

/// Return the slot at which a search for `key` leaves the node `tree`: the
/// place of the first key that is not below `key`, or the number of keys in
/// use if there is no such key.
pub fn find_node_pos<K: Ord, V>(tree: &BTree<K, V>, key: &K) -> (pos: usize)
    requires
        total_order::<K>(),
    ensures
        pos == tree.position(*key),
{
    let mut i: usize = 0;
    while i < tree.keys.len()
        invariant
            total_order::<K>(),
            i <= tree.keys@.len(),
            scan(tree.keys@, tree.used as nat, *key, i as nat) == rank(
                tree.keys@,
                tree.used as nat,
                *key,
            ),
        decreases tree.keys@.len() - i,
    {
        match &tree.keys[i] {
            Some(k) => {
                if is_le(key, k) {
                    return i;
                }
            },
            None => {
                return tree.used;
            },
        }
        i += 1;
    }
    tree.used
}

/// Return true if the first slot of the node holds a value.
pub fn is_leaf<K, V>(tree: &BTree<K, V>) -> (b: bool)
    ensures
        b == tree.leafy(),
{
    if tree.nodes.len() == 0 {
        return false;
    }
    match &tree.nodes[0] {
        Some(TreeItem::TreeLeaf { .. }) => true,
        Some(TreeItem::TreeNode { .. }) | None => false,
    }
}

/// Return the node at which the descent for `key` ends.
pub fn find_node<'r, K: Ord, V>(tree: &'r BTree<K, V>, key: &K) -> (node: &'r BTree<K, V>)
    requires
        total_order::<K>(),
        tree.is_subtree(),
    ensures
        *node == tree.leaf_for(*key),
        node.height() == 0,
        node.is_subtree(),
{
    let mut current = tree;
    let ghost mut h = tree.height();
    let ghost (lo0, hi0) = choose|lo: Option<K>, hi: Option<K>| tree.inv(tree.height(), lo, hi);
    let ghost mut lo: Option<K> = lo0;
    let ghost mut hi: Option<K> = hi0;
    loop
        invariant
            total_order::<K>(),
            current.inv(h, lo, hi),
            current.leaf_for(*key) == tree.leaf_for(*key),
        ensures
            *current == tree.leaf_for(*key),
            h == 0,
            current.inv(0, lo, hi),
        decreases h,
    {
        proof {
            lemma_rank_splits(current.spec_keys(), current.spec_len(), *key);
        }
        match &current.nodes[0] {
            Some(TreeItem::TreeNode { .. }) => {
                let pos = find_node_pos(current, key);
                let ghost parent = *current;
                match &current.nodes[pos] {
                    Some(TreeItem::TreeNode { value }) => {
                        current = &**value;
                    },
                    Some(TreeItem::TreeLeaf { .. }) | None => vstd::pervasive::unreached(),
                }
                proof {
                    lo = parent.lower(pos as int, lo);
                    hi = parent.upper(pos as int, hi);
                    h = (h - 1) as nat;
                }
            },
            Some(TreeItem::TreeLeaf { .. }) | None => {
                break ;
            },
        }
    }
    current
}

/// What a strict search finds, `find` returns too.
pub proof fn lemma_get_lookup<K: Ord, V>(
    tree: BTree<K, V>,
    h: nat,
    lo: Option<K>,
    hi: Option<K>,
    key: K,
)
    requires
        total_order::<K>(),
        tree.loose_inv(h, lo, hi),
        tree.get(key, hi) is Some,
    ensures
        tree.lookup(key) == tree.get(key, hi),
    decreases h,
{
    let pos = tree.position(key) as int;
    if h > 0 {
        match tree.spec_items()[pos] {
            Some(TreeItem::TreeNode { value }) => {
                lemma_get_lookup(
                    *value,
                    (h - 1) as nat,
                    tree.lower(pos, lo),
                    tree.upper(pos, hi),
                    key,
                );
            },
            _ => {},
        }
    }
}

/// The descent ends at the node that decides the search.
pub proof fn lemma_leaf_for_lookup<K: Ord, V>(
    tree: BTree<K, V>,
    h: nat,
    lo: Option<K>,
    hi: Option<K>,
    key: K,
)
    requires
        total_order::<K>(),
        tree.inv(h, lo, hi),
    ensures
        tree.lookup(key) == tree.leaf_for(key).lookup(key),
    decreases h,
{
    lemma_rank_splits(tree.spec_keys(), tree.spec_len(), key);
    let pos = tree.position(key) as int;
    if h > 0 {
        match tree.spec_items()[pos] {
            Some(TreeItem::TreeNode { value }) => {
                lemma_leaf_for_lookup(
                    *value,
                    (h - 1) as nat,
                    tree.lower(pos, lo),
                    tree.upper(pos, hi),
                    key,
                );
            },
            _ => {},
        }
    }
}

impl<K: Ord, V> BTree<K, V> {
    /// Return a reference to the value that a search for `key` ends on.
    ///
    /// Every key of the tree is found with its value. In the leaf that the
    /// search reaches, the search also succeeds wherever it ends behind the
    /// last key on an occupied slot: a key that the tree does not hold may
    /// then be found with the value of the next key that separates two
    /// leaves. Whatever is returned is the value of the least key of the
    /// tree that is not below `key`.
    pub fn find(&self, key: K) -> (found: Option<&V>)
        requires
            self.wf(),
        ensures
            refers_to(found, self.lookup(key)),
            self@.contains_key(key) ==> found == Some(&self@[key]),
            found matches Some(v) ==> exists|s: K| #[trigger]
                is_ceiling(self@, key, s) && self@[s] == *v,
    {
        proof {
            lemma_leaf_for_lookup(*self, self.height(), None, None, key);
            if self@.contains_key(key) {
                lemma_get_lookup(*self, self.height(), None, None, key);
            }
            if self.lookup(key) is Some {
                let s = lemma_found_is_ceiling(*self, key);
                assert(is_ceiling(self@, key, s));
            }
        }
        let node = find_node(self, &key);
        if node.nodes[0].is_none() {
            return None;
        }
        let pos = find_node_pos(node, &key);
        proof {
            lemma_rank_splits(node.spec_keys(), node.spec_len(), key);
        }
        match &node.nodes[pos] {
            Some(TreeItem::TreeLeaf { value }) => {
                if pos == node.used {
                    Some(value)
                } else {
                    match &node.keys[pos] {
                        Some(k) => if is_same(k, &key) {
                            Some(value)
                        } else {
                            None
                        },
                        None => None,
                    }
                }
            },
            Some(TreeItem::TreeNode { .. }) | None => None,
        }
    }
}

} // verus!
