//! Inserting: one pass from the root down that splits every full node on the
//! way before it enters it, so that the leaf reached has room.

use crate::laws::{lemma_stored_is_found, lemma_unstored_takes_place};
use crate::order::{above, is_gt, is_same, key_le, lemma_order_laws, total_order, within};
use crate::search::{find_node_pos, is_leaf};
use crate::slots::{lemma_gap_rank, lemma_rank_splits, rotate_right, with_gap};
use crate::split::{
    lemma_back_valid, lemma_front_valid, lemma_median_inside, lemma_split_routes,
    lemma_split_valid, split_child,
};
use crate::tree::{lemma_height, BTree, TreeItem};
use vstd::prelude::*;

verus! {

/// `after` is a root without a key whose only child is `before`.
pub open spec fn pushed_down<K: Ord, V>(before: BTree<K, V>, after: BTree<K, V>) -> bool {
    &&& after.spec_degree() == before.spec_degree()
    &&& after.spec_len() == 0
    &&& after.spec_keys() == Seq::new(before.spec_keys().len(), |i: int| None::<K>)
    &&& after.spec_items() == Seq::new(
        before.spec_items().len(),
        |i: int| None::<TreeItem<K, V>>,
    ).update(0, Some(TreeItem::TreeNode { value: Box::new(before) }))
}

impl<K: Ord, V> BTree<K, V> {
    /// `after` is this leaf with `value` put in for `key`: in the place of the
    /// old value where the leaf holds `key`, else at the rank of `key`, with
    /// the keys and values from there on moved one place to the right.
    pub open spec fn put_into(&self, after: BTree<K, V>, key: K, value: V) -> bool {
        let pos = self.position(key) as int;
        &&& after.spec_degree() == self.spec_degree()
        &&& if pos < self.spec_len() && self.spec_keys()[pos] == Some(key) {
            &&& after.spec_len() == self.spec_len()
            &&& after.spec_keys() == self.spec_keys()
            &&& after.spec_items() == self.spec_items().update(
                pos,
                Some(TreeItem::TreeLeaf { value }),
            )
        } else {
            &&& after.spec_len() == self.spec_len() + 1
            &&& after.spec_keys() == with_gap(self.spec_keys(), pos, Some(key))
            &&& after.spec_items() == with_gap(
                self.spec_items(),
                pos,
                Some(TreeItem::TreeLeaf { value }),
            )
        }
    }

    /// `after` is this node with another node in the place of the child in
    /// slot `pos`, and nothing else changed.
    pub open spec fn child_replaced(&self, after: BTree<K, V>, pos: int) -> bool {
        &&& after.spec_degree() == self.spec_degree()
        &&& after.spec_len() == self.spec_len()
        &&& after.spec_keys() == self.spec_keys()
        &&& after.spec_items()[pos] matches Some(TreeItem::TreeNode { .. })
        &&& after.spec_items() == self.spec_items().update(pos, after.spec_items()[pos])
    }

    /// `after` is this inner node after `value` has been put in for `key`
    /// below the child that the search for `key` goes on to. Nothing but
    /// that child has changed.
    pub open spec fn descends_into(&self, after: BTree<K, V>, key: K, value: V) -> bool
        decreases after, 0nat,
    {
        let pos = self.position(key) as int;
        &&& self.child_replaced(after, pos)
        &&& 0 <= pos < after.spec_items().len()
        &&& match after.spec_items()[pos] {
            Some(TreeItem::TreeNode { value: grown }) => self.child(pos).grows_into(
                *grown,
                key,
                value,
            ),
            _ => false,
        }
    }

    /// `after` is this node, which has room, after `value` has been put in
    /// for `key` below it: into the node itself where it is a leaf; else,
    /// after the child that the search for `key` goes on to has been split if
    /// it was full, below the child that the search then goes on to.
    pub open spec fn grows_into(&self, after: BTree<K, V>, key: K, value: V) -> bool
        decreases after, 1nat,
    {
        let pos = self.position(key) as int;
        if self.height() == 0 {
            self.put_into(after, key, value)
        } else if self.child(pos).full() {
            exists|mid: BTree<K, V>| #[trigger]
                self.split_into(mid, pos) && mid.descends_into(after, key, value)
        } else {
            self.descends_into(after, key, value)
        }
    }

    /// `after` is this tree after an insert of `value` for `key`: a full root
    /// is first pushed down below a new root and split there.
    pub open spec fn inserts_into(&self, after: BTree<K, V>, key: K, value: V) -> bool {
        if self.full() {
            exists|pushed: BTree<K, V>, halved: BTree<K, V>|
                pushed_down(*self, pushed) && #[trigger] pushed.split_into(halved, 0)
                    && halved.grows_into(after, key, value)
        } else {
            self.grows_into(after, key, value)
        }
    }
}

/// A leaf with room stays a valid leaf when a value is put in for a key
/// within its bounds, and then holds the key with that value.
pub proof fn lemma_put_valid<K: Ord, V>(
    before: BTree<K, V>,
    after: BTree<K, V>,
    key: K,
    value: V,
    lo: Option<K>,
    hi: Option<K>,
)
    requires
        total_order::<K>(),
        before.inv(0, lo, hi),
        !before.full(),
        above(lo, key),
        within(key, hi),
        before.put_into(after, key, value),
    ensures
        after.inv(0, lo, hi),
        after.stores(key),
        after.get(key, hi) == Some(value),
        after.height() == 0,
{
    lemma_order_laws::<K>();
    let keys = before.spec_keys();
    let used = before.spec_len();
    let pos = before.position(key) as int;
    lemma_rank_splits(keys, used, key);
    if !(pos < used && keys[pos] == Some(key)) {
        lemma_gap_rank(keys, used, key, pos as nat, key);
        assert(key_le(key, key));
    }
}

/// Putting a value into a leaf for one key changes nothing of what a strict
/// search finds for another.
pub proof fn lemma_put_routes<K: Ord, V>(
    before: BTree<K, V>,
    after: BTree<K, V>,
    key: K,
    value: V,
    lo: Option<K>,
    hi: Option<K>,
    other: K,
)
    requires
        total_order::<K>(),
        before.inv(0, lo, hi),
        !before.full(),
        above(lo, key),
        within(key, hi),
        before.put_into(after, key, value),
        other != key,
    ensures
        after.get(other, hi) == before.get(other, hi),
{
    lemma_order_laws::<K>();
    let keys = before.spec_keys();
    let used = before.spec_len();
    let pos = before.position(key) as int;
    lemma_rank_splits(keys, used, key);
    lemma_rank_splits(keys, used, other);
    if !(pos < used && keys[pos] == Some(key)) {
        lemma_gap_rank(keys, used, key, pos as nat, other);
    }
    lemma_rank_splits(after.spec_keys(), after.spec_len(), other);
}

/// Where a child is replaced, a search that goes on to that child finds what
/// it finds in the new child, and any other search finds what it found.
pub proof fn lemma_descend_routes<K: Ord, V>(
    before: BTree<K, V>,
    after: BTree<K, V>,
    pos: int,
    h: nat,
    lo: Option<K>,
    hi: Option<K>,
    key: K,
)
    requires
        total_order::<K>(),
        h > 0,
        before.inv(h, lo, hi),
        0 <= pos <= before.spec_len(),
        before.child_replaced(after, pos),
    ensures
        after.position(key) == before.position(key),
        before.position(key) == pos ==> {
            &&& after.get(key, hi) == after.child(pos).get(key, before.upper(pos, hi))
            &&& before.get(key, hi) == before.child(pos).get(key, before.upper(pos, hi))
            &&& after.stores(key) == after.child(pos).stores(key)
            &&& before.takes_place(key) == before.child(pos).takes_place(key)
        },
        before.position(key) != pos ==> after.get(key, hi) == before.get(key, hi),
{
}

/// What a step down into a child with room makes of a valid subtree: see
/// `lemma_grows`.
proof fn lemma_descends<K: Ord, V>(
    before: BTree<K, V>,
    after: BTree<K, V>,
    key: K,
    value: V,
    h: nat,
    lo: Option<K>,
    hi: Option<K>,
)
    requires
        total_order::<K>(),
        h > 0,
        before.inv(h, lo, hi),
        above(lo, key),
        within(key, hi),
        !before.child(before.position(key) as int).full(),
        before.descends_into(after, key, value),
    ensures
        after.inv(h, lo, hi),
        after.spec_degree() == before.spec_degree(),
        after.spec_len() == before.spec_len(),
        after.spec_keys() == before.spec_keys(),
        forall|k: K| #[trigger]
            after.get(k, hi) == (if k == key {
                Some(value)
            } else {
                before.get(k, hi)
            }),
        after.stores(key),
    decreases h, 0nat,
{
    let g = (h - 1) as nat;
    let pos = before.position(key) as int;
    lemma_rank_splits(before.spec_keys(), before.spec_len(), key);
    lemma_grows(
        before.child(pos),
        after.child(pos),
        key,
        value,
        g,
        before.lower(pos, lo),
        before.upper(pos, hi),
    );
    assert forall|k: K| #[trigger]
        after.get(k, hi) == (if k == key {
            Some(value)
        } else {
            before.get(k, hi)
        }) by {
        lemma_descend_routes(before, after, pos, h, lo, hi, k);
    }
}

/// An insert below a node with room keeps a valid subtree valid. Afterwards
/// a strict search finds the new value for the key and, for any other key,
/// what it found before; and a leaf holds the key among its own keys.
pub proof fn lemma_grows<K: Ord, V>(
    before: BTree<K, V>,
    after: BTree<K, V>,
    key: K,
    value: V,
    h: nat,
    lo: Option<K>,
    hi: Option<K>,
)
    requires
        total_order::<K>(),
        before.inv(h, lo, hi),
        !before.full(),
        above(lo, key),
        within(key, hi),
        before.grows_into(after, key, value),
    ensures
        after.inv(h, lo, hi),
        after.spec_degree() == before.spec_degree(),
        after.spec_len() == before.len_after(key),
        forall|k: K| #[trigger]
            after.get(k, hi) == (if k == key {
                Some(value)
            } else {
                before.get(k, hi)
            }),
        after.stores(key),
        h > 0 && !before.child(before.position(key) as int).full() ==> after.spec_keys()
            == before.spec_keys(),
    decreases h, 1nat,
{
    lemma_order_laws::<K>();
    lemma_rank_splits(before.spec_keys(), before.spec_len(), key);
    let pos = before.position(key) as int;
    if h == 0 {
        lemma_put_valid(before, after, key, value, lo, hi);
        assert forall|k: K| #[trigger]
            after.get(k, hi) == (if k == key {
                Some(value)
            } else {
                before.get(k, hi)
            }) by {
            if k != key {
                lemma_put_routes(before, after, key, value, lo, hi, k);
            }
        }
    } else {
        let g = (h - 1) as nat;
        assert(before.inner_slots(g, lo, hi));
        assert(before.spec_items()[pos] is Some);
        if before.child(pos).full() {
            let mid = choose|mid: BTree<K, V>| #[trigger]
                before.split_into(mid, pos) && mid.descends_into(after, key, value);
            lemma_split_routes(before, mid, pos, h, lo, hi, key);
            lemma_front_valid(
                before.child(pos),
                mid.child(pos),
                g,
                before.lower(pos, lo),
                before.upper(pos, hi),
            );
            lemma_back_valid(
                before.child(pos),
                mid.child(pos + 1),
                g,
                before.lower(pos, lo),
                before.upper(pos, hi),
            );
            lemma_descends(mid, after, key, value, h, lo, hi);
            assert forall|k: K| #[trigger]
                after.get(k, hi) == (if k == key {
                    Some(value)
                } else {
                    before.get(k, hi)
                }) by {
                lemma_split_routes(before, mid, pos, h, lo, hi, k);
            }
        } else {
            lemma_descends(before, after, key, value, h, lo, hi);
        }
    }
}

/// Put `value` into the subtree below `tree` for `key`. The node `tree` has
/// room; a full child on the way down is split before the descent enters
/// it. Returns true if a key was added to a leaf, false if the leaf held
/// `key` and only its value was replaced.
pub fn insert_non_full<K: Ord, V>(tree: &mut BTree<K, V>, key: K, value: V) -> (added: bool)
    requires
        total_order::<K>(),
        old(tree).is_subtree(),
        !old(tree).full(),
    ensures
        old(tree).grows_into(*final(tree), key, value),
        added == old(tree).takes_place(key),
    decreases old(tree).height(),
{
    let ghost h = tree.height();
    let ghost (lo, hi) = choose|lo: Option<K>, hi: Option<K>| tree.inv(tree.height(), lo, hi);
    proof {
        lemma_order_laws::<K>();
        lemma_rank_splits(tree.spec_keys(), tree.spec_len(), key);
    }
    if tree.used == 0 || is_leaf(tree) {
        let pos = find_node_pos(tree, &key);
        let new_key = match &tree.keys[pos] {
            None => true,
            Some(k) => !is_same(k, &key),
        };
        if new_key {
            if tree.used > 0 {
                rotate_right(&mut tree.keys, pos, tree.used);
                rotate_right(&mut tree.nodes, pos, tree.used + 1);
            }
            tree.used += 1;
        }
        tree.keys[pos] = Some(key);
        tree.nodes[pos] = Some(TreeItem::TreeLeaf { value });
        proof {
            if new_key {
                assert(tree.spec_keys() =~= with_gap(
                    old(tree).spec_keys(),
                    pos as int,
                    Some(key),
                ));
                assert(tree.spec_items() =~= with_gap(
                    old(tree).spec_items(),
                    pos as int,
                    Some(TreeItem::TreeLeaf { value }),
                ));
            } else {
                assert(tree.spec_keys() =~= old(tree).spec_keys());
            }
        }
        new_key
    } else {
        assert(tree.inner_slots((h - 1) as nat, lo, hi));
        let mut pos = find_node_pos(tree, &key);
        let split = match &tree.nodes[pos] {
            Some(TreeItem::TreeNode { value: t }) => t.used == t.capacity(),
            Some(TreeItem::TreeLeaf { .. }) | None => vstd::pervasive::unreached(),
        };
        if split {
            split_child(tree, pos);
            proof {
                lemma_split_routes(*old(tree), *tree, pos as int, h, lo, hi, key);
                lemma_median_inside(
                    old(tree).child(pos as int),
                    (h - 1) as nat,
                    old(tree).lower(pos as int, lo),
                    old(tree).upper(pos as int, hi),
                );
                lemma_front_valid(
                    old(tree).child(pos as int),
                    tree.child(pos as int),
                    (h - 1) as nat,
                    old(tree).lower(pos as int, lo),
                    old(tree).upper(pos as int, hi),
                );
                lemma_back_valid(
                    old(tree).child(pos as int),
                    tree.child(pos + 1),
                    (h - 1) as nat,
                    old(tree).lower(pos as int, lo),
                    old(tree).upper(pos as int, hi),
                );
            }
            match &tree.keys[pos] {
                Some(k) => {
                    if is_gt(&key, k) {
                        pos += 1;
                    }
                },
                None => {},
            }
        }
        let ghost mid = *tree;
        proof {
            let sub = mid.child(pos as int);
            lemma_height(sub, (h - 1) as nat, mid.lower(pos as int, lo), mid.upper(pos as int, hi));
            assert(sub.inv(sub.height(), mid.lower(pos as int, lo), mid.upper(pos as int, hi)));
        }
        let added = match &mut tree.nodes[pos] {
            Some(TreeItem::TreeNode { value: t }) => insert_non_full(&mut **t, key, value),
            Some(TreeItem::TreeLeaf { .. }) | None => vstd::pervasive::unreached(),
        };
        added
    }
}

/// Make room above a root: what the root holds moves into a new node, which
/// becomes the only child of the root. The root is left without a key, one
/// level higher than before.
pub fn push_down_root<K: Ord, V>(tree: &mut BTree<K, V>)
    requires
        old(tree).layout(),
    ensures
        pushed_down(*old(tree), *final(tree)),
        final(tree).spec_len() == 0,
        final(tree).child(0) == *old(tree),
        final(tree).height() == old(tree).height() + 1,
{
    let mut child = BTree::with_degree(tree.degree);
    core::mem::swap(&mut tree.keys, &mut child.keys);
    core::mem::swap(&mut tree.nodes, &mut child.nodes);
    child.used = tree.used;
    tree.used = 0;
    tree.nodes[0] = Some(TreeItem::TreeNode { value: child });
}

impl<K: Ord, V> BTree<K, V> {
    /// Insert a key-value pair into the tree. Return true if a key was added
    /// to a leaf, false if the value of a key that a leaf held was replaced.
    ///
    /// A full root is split first: the tree then grows by one level and the
    /// root is left with one key, the median of the keys that it held.
    /// Afterwards the tree holds `value` for `key` and every other entry as
    /// before. A key that the tree did not hold is always added. A key that
    /// the tree held is added once more where no leaf holds it among its own
    /// keys, which is so where it separates two subtrees, and where the full
    /// leaf that holds it is split at this very key.
    pub fn insert(&mut self, key: K, value: V) -> (added: bool)
        requires
            old(self).wf(),
        ensures
            final(self).wf(),
            final(self)@ == old(self)@.insert(key, value),
            added == old(self).takes_place(key),
            !old(self)@.contains_key(key) ==> added,
            old(self).inserts_into(*final(self), key, value),
            final(self).stores(key),
            final(self).spec_degree() == old(self).spec_degree(),
            final(self).height() == old(self).height() + (if old(self).full() {
                1nat
            } else {
                0nat
            }),
            final(self).spec_len() == old(self).len_after(key),
            old(self).full() ==> final(self).spec_keys()[0] == old(self).median(),
            !final(self).vacant(),
    {
        let ghost h0 = self.height();
        let ghost mut h = h0;
        let ghost mut pushed = *self;
        if self.used == self.capacity() {
            push_down_root(self);
            proof {
                pushed = *self;
            }
            split_child(self, 0);
            proof {
                h = h0 + 1;
                lemma_split_valid(pushed, *self, 0, h, None, None);
                assert forall|k: K| #[trigger] self.get(k, None) == old(self).get(k, None) by {
                    lemma_split_routes(pushed, *self, 0, h, None, None, k);
                }
                lemma_split_routes(pushed, *self, 0, h, None, None, key);
            }
        }
        let ghost mid = *self;
        proof {
            lemma_height(mid, h, None, None);
        }
        let added = insert_non_full(self, key, value);
        proof {
            lemma_grows(mid, *self, key, value, h, None, None);
            lemma_height(*self, h, None, None);
            if !old(self)@.contains_key(key) {
                if old(self).stores(key) {
                    lemma_stored_is_found(*old(self), h0, None, None, key);
                }
                lemma_unstored_takes_place(*old(self), h0, None, None, key);
            }
        }
        added
    }
}

} // verus!
