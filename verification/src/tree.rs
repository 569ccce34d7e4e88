//! The node type, its mathematical model, and the operations on one node.
//!
//! A tree is a single root node. A node holds `used` keys in ascending order
//! and, beside them, a row of slots: the slots of a leaf hold values, those of
//! an inner node hold child nodes. Slot `i` of a leaf belongs to key `i`. The
//! slot after the last key of a leaf, where it is occupied, holds the value of
//! the key that separates this leaf from its right neighbour higher up in the
//! tree.
//!
//! The model of a tree is the map from each key that a strict search finds to
//! the value found (`BTree::view`). `BTree::lookup` describes what `find`
//! returns, which is more generous at a leaf's last slot.

use crate::order::total_order;
use crate::slots::{ascending, bounded, packed, rank};
use vstd::prelude::*;

verus! {

/// The minimum degree of the trees that `BTree::new` makes.
pub const BTREE_MIN_DEGREE: usize = 20;

/// The fewest keys that a node of such a tree holds after a split. No
/// operation of the tree takes a key out again, so the tree never has to
/// restore this bound.
pub const BTREE_KEYS_LBOUND: usize = BTREE_MIN_DEGREE - 1;

/// The most keys that a node of such a tree holds.
pub const BTREE_KEYS_UBOUND: usize = 2 * BTREE_MIN_DEGREE - 1;

/// What one slot of a node holds: a child node or a value.
#[allow(inconsistent_fields)]
pub enum TreeItem<K, V> {
    TreeNode { value: Box<BTree<K, V>> },
    TreeLeaf { value: V },
}

/// A node of a B-tree, and with it the subtree below. The root stands for the
/// whole tree.
pub struct BTree<K, V> {
    pub(crate) degree: usize,
    pub(crate) used: usize,
    pub(crate) keys: Vec<Option<K>>,
    pub(crate) nodes: Vec<Option<TreeItem<K, V>>>,
}

/// `r` is `o`, with a reference in the place of what `o` holds.
pub open spec fn refers_to<T>(r: Option<&T>, o: Option<T>) -> bool {
    match r {
        Some(x) => o == Some(*x),
        None => o is None,
    }
}

impl<K, V> BTree<K, V> {
    /// The minimum degree that the node was made with.
    pub open(crate) spec fn spec_degree(&self) -> nat {
        self.degree as nat
    }

    /// The number of keys in use in this node.
    pub open(crate) spec fn spec_len(&self) -> nat {
        self.used as nat
    }

    /// The row of keys of this node.
    pub open(crate) spec fn spec_keys(&self) -> Seq<Option<K>> {
        self.keys@
    }

    /// The row of slots of this node.
    pub open(crate) spec fn spec_items(&self) -> Seq<Option<TreeItem<K, V>>> {
        self.nodes@
    }

    /// No slot of this node is occupied.
    pub open spec fn vacant(&self) -> bool {
        self.spec_items().len() == 0 || self.spec_items()[0] is None
    }

    /// The first slot of this node holds a value.
    pub open spec fn leafy(&self) -> bool {
        self.spec_items().len() > 0 && self.spec_items()[0] matches Some(TreeItem::TreeLeaf { .. })
    }

    /// The number of levels of inner nodes above the leaves.
    pub open spec fn height(&self) -> nat
        decreases self,
    {
        if self.spec_items().len() == 0 {
            0
        } else {
            match self.spec_items()[0] {
                Some(TreeItem::TreeNode { value }) => 1 + value.height(),
                _ => 0,
            }
        }
    }

    /// The sizes of the two rows fit the degree, and the keys in use stand
    /// at the front of their row.
    pub open spec fn layout(&self) -> bool {
        let t = self.spec_degree();
        &&& t >= 2
        &&& 2 * t <= usize::MAX
        &&& self.spec_keys().len() == 2 * t - 1
        &&& self.spec_items().len() == 2 * t
        &&& packed(self.spec_keys(), self.spec_len())
    }

    /// The upper bound of what slot `i` covers, where `hi` bounds the node.
    pub open spec fn upper(&self, i: int, hi: Option<K>) -> Option<K> {
        if 0 <= i < self.spec_len() {
            self.spec_keys()[i]
        } else {
            hi
        }
    }

    /// The lower bound of what slot `i` covers, where `lo` bounds the node.
    pub open spec fn lower(&self, i: int, lo: Option<K>) -> Option<K> {
        if 0 < i <= self.spec_len() {
            self.spec_keys()[i - 1]
        } else {
            lo
        }
    }

    /// The slots of a leaf: a value beside each key, after them one more
    /// value exactly where the leaf has an upper bound, and nothing behind.
    pub open spec fn leaf_slots(&self, hi: Option<K>) -> bool {
        forall|i: int|
            0 <= i < self.spec_items().len() ==> {
                let item = #[trigger] self.spec_items()[i];
                if i < self.spec_len() || (i == self.spec_len() && hi is Some) {
                    item matches Some(TreeItem::TreeLeaf { .. })
                } else {
                    item is None
                }
            }
    }
}

impl<K: Ord, V> BTree<K, V> {
    /// The slots of an inner node whose children stand `h` levels above the
    /// leaves: one child before each key and one after the last, each a valid
    /// subtree of the same degree between the keys beside it.
    pub open spec fn inner_slots(&self, h: nat, lo: Option<K>, hi: Option<K>) -> bool
        decreases h, 3nat,
    {
        forall|i: int|
            0 <= i < self.spec_items().len() ==> {
                let item = #[trigger] self.spec_items()[i];
                if i <= self.spec_len() {
                    item matches Some(TreeItem::TreeNode { value })
                        && value.spec_degree() == self.spec_degree()
                        && value.inv(h, self.lower(i, lo), self.upper(i, hi))
                } else {
                    item is None
                }
            }
    }

    /// What holds of every node but a root that is being split: see `inv`.
    /// An inner node may here be without a key.
    pub open spec fn loose_inv(&self, h: nat, lo: Option<K>, hi: Option<K>) -> bool
        decreases h, 1nat,
    {
        &&& self.layout()
        &&& ascending(self.spec_keys(), self.spec_len())
        &&& bounded(self.spec_keys(), self.spec_len(), lo, hi)
        &&& if h == 0 {
            &&& self.leaf_slots(hi)
            &&& (lo is Some || hi is Some) ==> self.spec_len() >= 1
        } else {
            self.inner_slots((h - 1) as nat, lo, hi)
        }
    }

    /// The node is the root of a valid subtree that stands `h` levels above
    /// its leaves and holds keys above `lo` and at or below `hi` only.
    pub open spec fn inv(&self, h: nat, lo: Option<K>, hi: Option<K>) -> bool
        decreases h, 2nat,
    {
        &&& self.loose_inv(h, lo, hi)
        &&& h > 0 ==> self.spec_len() >= 1
    }

    /// The node is the root of a valid subtree between some bounds.
    pub open spec fn is_subtree(&self) -> bool {
        exists|lo: Option<K>, hi: Option<K>| self.inv(self.height(), lo, hi)
    }

    /// The node is the root of a valid tree, and its keys are totally ordered.
    pub open spec fn wf(&self) -> bool {
        &&& total_order::<K>()
        &&& self.inv(self.height(), None, None)
    }

    /// The slot at which a search for `key` leaves this node.
    pub open spec fn position(&self, key: K) -> nat {
        rank(self.spec_keys(), self.spec_len(), key)
    }

    /// What a strict search for `key` finds below this node, where `hi` is the
    /// upper bound of the node: the value beside `key` in the leaf that the
    /// search reaches or, where `key` is that leaf's upper bound, the value
    /// in the slot after the leaf's last key.
    pub open spec fn get(&self, key: K, hi: Option<K>) -> Option<V>
        decreases self,
    {
        let pos = self.position(key) as int;
        if self.vacant() || pos >= self.spec_items().len() {
            None
        } else {
            match self.spec_items()[pos] {
                Some(TreeItem::TreeNode { value }) => value.get(key, self.upper(pos, hi)),
                Some(TreeItem::TreeLeaf { value }) => if self.upper(pos, hi) == Some(key) {
                    Some(value)
                } else {
                    None
                },
                None => None,
            }
        }
    }

    /// What `find` returns for `key`. At a leaf the search succeeds where it
    /// ends on `key` itself, and also wherever it ends behind the leaf's last
    /// key on an occupied slot.
    pub open spec fn lookup(&self, key: K) -> Option<V>
        decreases self,
    {
        let pos = self.position(key) as int;
        if self.vacant() || pos >= self.spec_items().len() {
            None
        } else {
            match self.spec_items()[pos] {
                Some(TreeItem::TreeNode { value }) => value.lookup(key),
                Some(TreeItem::TreeLeaf { value }) => if pos == self.spec_len()
                    || self.spec_keys()[pos] == Some(key) {
                    Some(value)
                } else {
                    None
                },
                None => None,
            }
        }
    }

    /// Every key place of the node is in use.
    pub open spec fn full(&self) -> bool {
        self.spec_len() == self.spec_keys().len()
    }

    /// The key in the middle of a full node.
    pub open spec fn median(&self) -> Option<K> {
        self.spec_keys()[self.spec_degree() - 1]
    }

    /// The child in slot `pos`.
    pub open spec fn child(&self, pos: int) -> BTree<K, V>
        recommends
            0 <= pos < self.spec_items().len(),
            self.spec_items()[pos] matches Some(TreeItem::TreeNode { .. }),
    {
        match self.spec_items()[pos] {
            Some(TreeItem::TreeNode { value }) => *value,
            _ => arbitrary(),
        }
    }

    /// Whether an insert of `key` adds a key to a leaf. It does unless the
    /// leaf that the search for `key` reaches holds `key` among its own keys,
    /// and it does even then where that leaf is full and `key` is its median:
    /// the split moves the median up before the insert reaches the leaf.
    pub open spec fn takes_place(&self, key: K) -> bool
        decreases self,
    {
        let pos = self.position(key) as int;
        if self.height() > 0 && pos < self.spec_items().len() {
            match self.spec_items()[pos] {
                Some(TreeItem::TreeNode { value }) => value.takes_place(key),
                _ => true,
            }
        } else {
            (self.full() && self.median() == Some(key)) || !(pos < self.spec_len()
                && self.spec_keys()[pos] == Some(key))
        }
    }

    /// The number of keys in use in this node after an insert of `key`: one,
    /// where the node was full and has been split as a root; else one more
    /// than before, where the node is a leaf and the insert adds a key, or
    /// where the child that the search goes on to is full.
    pub open spec fn len_after(&self, key: K) -> nat {
        if self.full() {
            1
        } else if self.height() == 0 {
            if self.takes_place(key) {
                self.spec_len() + 1
            } else {
                self.spec_len()
            }
        } else if self.child(self.position(key) as int).full() {
            self.spec_len() + 1
        } else {
            self.spec_len()
        }
    }

    /// Whether the leaf that a search for `key` reaches holds `key` among its
    /// own keys.
    pub open spec fn stores(&self, key: K) -> bool
        decreases self,
    {
        let pos = self.position(key) as int;
        if self.vacant() || pos >= self.spec_items().len() {
            false
        } else {
            match self.spec_items()[pos] {
                Some(TreeItem::TreeNode { value }) => value.stores(key),
                Some(TreeItem::TreeLeaf { .. }) => pos < self.spec_len() && self.spec_keys()[pos]
                    == Some(key),
                None => false,
            }
        }
    }
}

impl<K: Ord, V> View for BTree<K, V> {
    type V = Map<K, V>;

    /// The entries of the tree: each key that a strict search from the root
    /// finds, with the value found.
    open spec fn view(&self) -> Map<K, V> {
        Map::new(|k: K| self.get(k, None) is Some, |k: K| self.get(k, None).unwrap())
    }
}

impl<K, V> BTree<K, V> {
    /// The node that `with_degree` makes: no key in use, every place empty.
    pub open spec fn blank(&self, t: nat) -> bool {
        &&& self.spec_degree() == t
        &&& self.spec_len() == 0
        &&& self.spec_keys() == Seq::new((2 * t - 1) as nat, |i: int| None::<K>)
        &&& self.spec_items() == Seq::new(2 * t, |i: int| None::<TreeItem<K, V>>)
    }

    /// Return the number of keys that a node can hold.
    pub fn capacity(&self) -> (n: usize)
        ensures
            n == self.spec_keys().len(),
            self.layout() ==> n == 2 * self.spec_degree() - 1,
    {
        self.keys.len()
    }

    /// Return the minimum degree that the tree was made with.
    pub fn min_degree(&self) -> (t: usize)
        ensures
            t == self.spec_degree(),
    {
        self.degree
    }

    /// Return the number of keys in use in the root node. Keys further down
    /// are not counted.
    pub fn len(&self) -> (n: usize)
        ensures
            n == self.spec_len(),
            self.layout() ==> forall|i: int|
                0 <= i < self.spec_keys().len() ==> ((#[trigger] self.spec_keys()[i]) is Some <==> i
                    < n),
    {
        self.used
    }

    /// Return true if the root holds neither a value nor a child.
    pub fn is_empty(&self) -> (b: bool)
        ensures
            b == self.vacant(),
    {
        self.nodes.len() == 0 || self.nodes[0].is_none()
    }

    /// Return the key at place `pos` of the root, if there is one.
    pub fn key(&self, pos: usize) -> (k: Option<&K>)
        ensures
            pos < self.spec_keys().len() ==> refers_to(k, self.spec_keys()[pos as int]),
            pos >= self.spec_keys().len() ==> k is None,
    {
        if pos < self.keys.len() {
            self.keys[pos].as_ref()
        } else {
            None
        }
    }

    /// Return what slot `pos` of the root holds, if it is occupied.
    pub fn item(&self, pos: usize) -> (item: Option<&TreeItem<K, V>>)
        ensures
            pos < self.spec_items().len() ==> refers_to(item, self.spec_items()[pos as int]),
            pos >= self.spec_items().len() ==> item is None,
    {
        if pos < self.nodes.len() {
            self.nodes[pos].as_ref()
        } else {
            None
        }
    }
}

impl<K: Ord, V> BTree<K, V> {
    /// Make an empty tree of minimum degree `t`: each of its nodes will hold
    /// at most `2 * t - 1` keys.
    pub fn with_degree(t: usize) -> (tree: Box<BTree<K, V>>)
        requires
            t >= 2,
            2 * t <= usize::MAX,
        ensures
            tree.blank(t as nat),
            tree@ == Map::<K, V>::empty(),
            tree.height() == 0,
            total_order::<K>() ==> tree.wf(),
    {
        let mut keys: Vec<Option<K>> = Vec::new();
        let mut nodes: Vec<Option<TreeItem<K, V>>> = Vec::new();
        let mut i: usize = 0;
        while i < 2 * t - 1
            invariant
                t >= 2,
                2 * t <= usize::MAX,
                i <= 2 * t - 1,
                keys@.len() == i,
                nodes@.len() == i,
                forall|j: int| 0 <= j < i ==> (#[trigger] keys@[j]) is None,
                forall|j: int| 0 <= j < i ==> (#[trigger] nodes@[j]) is None,
            decreases 2 * t - 1 - i,
        {
            keys.push(None);
            nodes.push(None);
            i += 1;
        }
        nodes.push(None);
        let tree = Box::new(BTree { degree: t, used: 0, keys, nodes });
        proof {
            assert(tree.spec_keys() =~= Seq::new((2 * t - 1) as nat, |i: int| None::<K>));
            assert(tree.spec_items() =~= Seq::new((2 * t) as nat, |i: int| None::<TreeItem<K, V>>));
        }
        tree
    }

    /// Make an empty tree of minimum degree `BTREE_MIN_DEGREE`.
    pub fn new() -> (tree: Box<BTree<K, V>>)
        ensures
            tree.blank(BTREE_MIN_DEGREE as nat),
            tree@ == Map::<K, V>::empty(),
            tree.height() == 0,
            total_order::<K>() ==> tree.wf(),
    {
        Self::with_degree(BTREE_MIN_DEGREE)
    }

    /// Empty the root: no key stays in use and every place becomes empty.
    /// The degree stays.
    pub fn clear(&mut self)
        ensures
            final(self).spec_degree() == old(self).spec_degree(),
            final(self).spec_len() == 0,
            final(self).spec_keys() == Seq::new(old(self).spec_keys().len(), |i: int| None::<K>),
            final(self).spec_items() == Seq::new(
                old(self).spec_items().len(),
                |i: int| None::<TreeItem<K, V>>,
            ),
            old(self).layout() ==> final(self).blank(old(self).spec_degree()),
            final(self).vacant(),
            final(self)@ == Map::<K, V>::empty(),
            old(self).wf() ==> final(self).wf(),
    {
        let mut i: usize = 0;
        while i < self.keys.len()
            invariant
                self.keys@.len() == old(self).keys@.len(),
                self.nodes == old(self).nodes,
                self.degree == old(self).degree,
                i <= self.keys@.len(),
                forall|j: int| 0 <= j < i ==> (#[trigger] self.keys@[j]) is None,
            decreases self.keys@.len() - i,
        {
            self.keys[i] = None;
            i += 1;
        }
        let mut i: usize = 0;
        while i < self.nodes.len()
            invariant
                self.nodes@.len() == old(self).nodes@.len(),
                self.keys@.len() == old(self).keys@.len(),
                forall|j: int| 0 <= j < self.keys@.len() ==> (#[trigger] self.keys@[j]) is None,
                self.degree == old(self).degree,
                i <= self.nodes@.len(),
                forall|j: int| 0 <= j < i ==> (#[trigger] self.nodes@[j]) is None,
            decreases self.nodes@.len() - i,
        {
            self.nodes[i] = None;
            i += 1;
        }
        self.used = 0;
        assert(self.keys@ =~= Seq::new(old(self).spec_keys().len(), |i: int| None::<K>));
        assert(self.nodes@ =~= Seq::new(
            old(self).spec_items().len(),
            |i: int| None::<TreeItem<K, V>>,
        ));
    }
}

/// In a valid subtree the height says how the first slot is filled.
pub proof fn lemma_height<K: Ord, V>(tree: BTree<K, V>, h: nat, lo: Option<K>, hi: Option<K>)
    requires
        tree.loose_inv(h, lo, hi),
    ensures
        tree.height() == h,
        h > 0 <==> (tree.spec_items()[0] matches Some(TreeItem::TreeNode { .. })),
    decreases h,
{
    if h > 0 {
        match tree.spec_items()[0] {
            Some(TreeItem::TreeNode { value }) => {
                lemma_height(*value, (h - 1) as nat, tree.lower(0, lo), tree.upper(0, hi));
            },
            _ => {},
        }
    }
}

} // verus!
