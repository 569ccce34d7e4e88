//! Splitting a full child: its median key moves up into the parent, the keys
//! and slots behind the median move into a new right sibling.

use crate::order::{above, key_le, key_lt, lemma_order_laws, total_order};
use crate::slots::{
    lemma_gap_rank, lemma_rank_splits, lemma_sub_rank, rotate_right, sub_row, with_gap,
};
use crate::tree::{BTree, TreeItem};
use vstd::prelude::*;

verus! {

impl<K: Ord, V> BTree<K, V> {
    /// This node is what a split leaves of the full node `whole`: the keys
    /// before the median and the slots beside and between them.
    pub open spec fn is_front_of(&self, whole: BTree<K, V>) -> bool {
        let t = whole.spec_degree() as int;
        &&& self.spec_degree() == whole.spec_degree()
        &&& self.spec_len() == t - 1
        &&& self.spec_keys() == sub_row(whole.spec_keys(), 0, t - 1)
        &&& self.spec_items() == sub_row(whole.spec_items(), 0, t)
    }

    /// This node is what a split makes of the back of the full node `whole`:
    /// the keys behind the median and the slots beside and between them.
    pub open spec fn is_back_of(&self, whole: BTree<K, V>) -> bool {
        let t = whole.spec_degree() as int;
        &&& self.spec_degree() == whole.spec_degree()
        &&& self.spec_len() == t - 1
        &&& self.spec_keys() == sub_row(whole.spec_keys(), t, t - 1)
        &&& self.spec_items() == sub_row(whole.spec_items(), t, t)
    }

    /// Slot `pos` of this node holds a full child that the node has room to
    /// split.
    pub open spec fn can_split(&self, pos: int) -> bool {
        &&& self.layout()
        &&& !self.full()
        &&& 0 <= pos <= self.spec_len()
        &&& forall|i: int|
            self.spec_len() < i < self.spec_items().len() ==> (#[trigger] self.spec_items()[i]) is None
        &&& self.spec_items()[pos] matches Some(TreeItem::TreeNode { value })
        &&& self.child(pos).layout()
        &&& self.child(pos).full()
        &&& self.child(pos).spec_degree() == self.spec_degree()
    }

    /// `after` is this node with the child in slot `pos` split: the child's
    /// median has been put in among the keys at `pos`, the child has kept its
    /// front, and its back stands as a new child in slot `pos + 1`. The
    /// other children stand as before, those behind `pos` one slot further
    /// right.
    pub open spec fn split_into(&self, after: BTree<K, V>, pos: int) -> bool {
        &&& after.spec_degree() == self.spec_degree()
        &&& after.spec_len() == self.spec_len() + 1
        &&& after.spec_keys() == with_gap(self.spec_keys(), pos, self.child(pos).median())
        &&& after.spec_items().len() == self.spec_items().len()
        &&& forall|i: int|
            0 <= i < after.spec_items().len() && i != pos && i != pos + 1
                ==> #[trigger] after.spec_items()[i] == (if i < pos {
                self.spec_items()[i]
            } else {
                self.spec_items()[i - 1]
            })
        &&& after.spec_items()[pos] matches Some(TreeItem::TreeNode { .. })
        &&& after.spec_items()[pos + 1] matches Some(TreeItem::TreeNode { .. })
        &&& after.child(pos).is_front_of(self.child(pos))
        &&& after.child(pos + 1).is_back_of(self.child(pos))
    }
}

/// Split a full node in two. The node keeps the keys before its median and
/// the slots that belong to them; the median and a new node with the rest
/// are returned.
pub fn halve<K: Ord, V>(left: &mut BTree<K, V>) -> (out: (Option<K>, Box<BTree<K, V>>))
    requires
        old(left).layout(),
        old(left).full(),
    ensures
        out.0 == old(left).median(),
        final(left).is_front_of(*old(left)),
        out.1.is_back_of(*old(left)),
{
    let t = left.degree;
    let mut right = BTree::with_degree(t);
    let mut i: usize = 0;
    // Move the larger `t - 1` keys from the left to the right node.
    while i < t - 1
        invariant
            t == old(left).degree >= 2,
            2 * t <= usize::MAX,
            i <= t - 1,
            left.degree == t,
            right.degree == t,
            left.nodes == old(left).nodes,
            right.nodes@ == Seq::new(2 * t as nat, |j: int| None::<TreeItem<K, V>>),
            left.keys@.len() == 2 * t - 1,
            right.keys@.len() == 2 * t - 1,
            old(left).keys@.len() == 2 * t - 1,
            forall|j: int|
                0 <= j < 2 * t - 1 ==> #[trigger] left.keys@[j] == (if t <= j < t + i {
                    None
                } else {
                    old(left).keys@[j]
                }),
            forall|j: int|
                0 <= j < 2 * t - 1 ==> #[trigger] right.keys@[j] == (if j < i {
                    old(left).keys@[t + j]
                } else {
                    None
                }),
        decreases t - 1 - i,
    {
        core::mem::swap(&mut right.keys[i], &mut left.keys[i + t]);
        i += 1;
    }
    i = 0;
    // Move the larger `t` slots from the left to the right node.
    while i < t
        invariant
            t == old(left).degree >= 2,
            2 * t <= usize::MAX,
            i <= t,
            left.degree == t,
            right.degree == t,
            left.keys@.len() == 2 * t - 1,
            right.keys@ == sub_row(old(left).keys@, t as int, t - 1),
            forall|j: int|
                0 <= j < 2 * t - 1 ==> #[trigger] left.keys@[j] == (if t <= j {
                    None
                } else {
                    old(left).keys@[j]
                }),
            left.nodes@.len() == 2 * t,
            right.nodes@.len() == 2 * t,
            old(left).nodes@.len() == 2 * t,
            forall|j: int|
                0 <= j < 2 * t ==> #[trigger] left.nodes@[j] == (if t <= j < t + i {
                    None
                } else {
                    old(left).nodes@[j]
                }),
            forall|j: int|
                0 <= j < 2 * t ==> #[trigger] right.nodes@[j] == (if j < i {
                    old(left).nodes@[t + j]
                } else {
                    None
                }),
        decreases t - i,
    {
        core::mem::swap(&mut right.nodes[i], &mut left.nodes[i + t]);
        i += 1;
    }
    let median = left.keys[t - 1].take();
    left.used = t - 1;
    right.used = t - 1;
    proof {
        assert(left.keys@ =~= sub_row(old(left).keys@, 0, t - 1));
        assert(left.nodes@ =~= sub_row(old(left).nodes@, 0, t as int));
        assert(right.nodes@ =~= sub_row(old(left).nodes@, t as int, t as int));
    }
    (median, right)
}

/// Split the full child in slot `pos` of `tree`. The keys of `tree` from
/// `pos` on and its slots behind `pos` move one place to the right; the
/// child's median takes the key place `pos`, and a new node with the child's
/// larger keys and their slots takes slot `pos + 1`. Both halves are left
/// with one key less than the minimum degree, and `tree` with one key and
/// one child more than before.
pub fn split_child<K: Ord, V>(tree: &mut BTree<K, V>, pos: usize)
    requires
        old(tree).can_split(pos as int),
    ensures
        old(tree).split_into(*final(tree), pos as int),
        final(tree).spec_len() == old(tree).spec_len() + 1,
        final(tree).child(pos as int).spec_len() == old(tree).spec_degree() - 1,
        final(tree).child(pos + 1).spec_len() == old(tree).spec_degree() - 1,
{
    // Make a free place in the parent for the median key and the new node.
    rotate_right(&mut tree.nodes, pos + 1, tree.used + 1);
    rotate_right(&mut tree.keys, pos, tree.used);
    let (median, right) = match &mut tree.nodes[pos] {
        Some(TreeItem::TreeNode { value }) => halve(&mut **value),
        Some(TreeItem::TreeLeaf { .. }) | None => vstd::pervasive::unreached(),
    };
    tree.keys[pos] = median;
    tree.nodes[pos + 1] = Some(TreeItem::TreeNode { value: right });
    tree.used += 1;
    proof {
        assert(tree.keys@ =~= with_gap(
            old(tree).spec_keys(),
            pos as int,
            old(tree).child(pos as int).median(),
        ));
    }
}

/// The median of a full valid subtree lies strictly inside the bounds of the
/// subtree.
pub proof fn lemma_median_inside<K: Ord, V>(
    whole: BTree<K, V>,
    h: nat,
    lo: Option<K>,
    hi: Option<K>,
)
    requires
        total_order::<K>(),
        whole.inv(h, lo, hi),
        whole.full(),
    ensures
        whole.median() is Some,
        above(lo, whole.median().unwrap()),
        hi matches Some(x) ==> key_lt(whole.median().unwrap(), x),
{
    lemma_order_laws::<K>();
    let t = whole.spec_degree() as int;
    let keys = whole.spec_keys();
    assert(keys[t] is Some);
}

/// The front half of a full valid subtree is a valid subtree that the median
/// bounds from above.
pub proof fn lemma_front_valid<K: Ord, V>(
    whole: BTree<K, V>,
    left: BTree<K, V>,
    h: nat,
    lo: Option<K>,
    hi: Option<K>,
)
    requires
        total_order::<K>(),
        whole.inv(h, lo, hi),
        whole.full(),
        left.is_front_of(whole),
    ensures
        left.inv(h, lo, whole.median()),
        !left.full(),
{
    assert(whole.median() is Some);
}

/// The back half of a full valid subtree is a valid subtree that the median
/// bounds from below.
pub proof fn lemma_back_valid<K: Ord, V>(
    whole: BTree<K, V>,
    right: BTree<K, V>,
    h: nat,
    lo: Option<K>,
    hi: Option<K>,
)
    requires
        total_order::<K>(),
        whole.inv(h, lo, hi),
        whole.full(),
        right.is_back_of(whole),
    ensures
        right.inv(h, whole.median(), hi),
        !right.full(),
{
    if h > 0 {
        assert(whole.inner_slots((h - 1) as nat, lo, hi));
    }
}

/// A search for a key at or below the median of a full node goes through the
/// front half as through the whole node.
pub proof fn lemma_front_routes<K: Ord, V>(
    whole: BTree<K, V>,
    left: BTree<K, V>,
    h: nat,
    lo: Option<K>,
    hi: Option<K>,
    key: K,
)
    requires
        total_order::<K>(),
        whole.inv(h, lo, hi),
        whole.full(),
        left.is_front_of(whole),
        key_le(key, whole.median().unwrap()),
    ensures
        left.position(key) == whole.position(key),
        whole.position(key) <= whole.spec_degree() - 1,
        left.spec_items()[left.position(key) as int] == whole.spec_items()[whole.position(
            key,
        ) as int],
        left.upper(left.position(key) as int, whole.median()) == whole.upper(
            whole.position(key) as int,
            hi,
        ),
        left.get(key, whole.median()) == whole.get(key, hi),
        left.takes_place(key) == whole.takes_place(key),
{
    lemma_order_laws::<K>();
    let t = whole.spec_degree() as int;
    let keys = whole.spec_keys();
    lemma_sub_rank(keys, whole.spec_len(), 0, (t - 1) as nat, key);
}

/// A search for a key above the median of a full node goes through the back
/// half as through the whole node.
pub proof fn lemma_back_routes<K: Ord, V>(
    whole: BTree<K, V>,
    right: BTree<K, V>,
    h: nat,
    lo: Option<K>,
    hi: Option<K>,
    key: K,
)
    requires
        total_order::<K>(),
        whole.inv(h, lo, hi),
        whole.full(),
        right.is_back_of(whole),
        key_lt(whole.median().unwrap(), key),
    ensures
        right.position(key) == whole.position(key) - whole.spec_degree(),
        whole.position(key) >= whole.spec_degree(),
        right.spec_items()[right.position(key) as int] == whole.spec_items()[whole.position(
            key,
        ) as int],
        right.upper(right.position(key) as int, hi) == whole.upper(whole.position(key) as int, hi),
        right.get(key, hi) == whole.get(key, hi),
        right.takes_place(key) == whole.takes_place(key),
{
    lemma_order_laws::<K>();
    let t = whole.spec_degree() as int;
    let keys = whole.spec_keys();
    lemma_sub_rank(keys, whole.spec_len(), t as nat, (t - 1) as nat, key);
}

/// Splitting a full child keeps a valid subtree valid, and leaves the parent
/// with at least one key.
pub proof fn lemma_split_valid<K: Ord, V>(
    before: BTree<K, V>,
    after: BTree<K, V>,
    pos: int,
    h: nat,
    lo: Option<K>,
    hi: Option<K>,
)
    requires
        total_order::<K>(),
        h > 0,
        before.loose_inv(h, lo, hi),
        before.can_split(pos),
        before.split_into(after, pos),
    ensures
        after.inv(h, lo, hi),
{
    lemma_order_laws::<K>();
    let g = (h - 1) as nat;
    let whole = before.child(pos);
    assert(whole.inv(g, before.lower(pos, lo), before.upper(pos, hi)));
    lemma_median_inside(whole, g, before.lower(pos, lo), before.upper(pos, hi));
    assert(after.inner_slots(g, lo, hi)) by {
        assert forall|i: int| 0 <= i < after.spec_items().len() implies {
            let item = #[trigger] after.spec_items()[i];
            if i <= after.spec_len() {
                item matches Some(TreeItem::TreeNode { value }) && value.spec_degree()
                    == after.spec_degree() && value.inv(g, after.lower(i, lo), after.upper(i, hi))
            } else {
                item is None
            }
        } by {}
    }
}

/// Splitting a full child changes neither what a search finds below the
/// parent nor whether an insert adds a key; the search goes on to the front
/// half for a key at or below the median and to the back half for any other.
pub proof fn lemma_split_routes<K: Ord, V>(
    before: BTree<K, V>,
    after: BTree<K, V>,
    pos: int,
    h: nat,
    lo: Option<K>,
    hi: Option<K>,
    key: K,
)
    requires
        total_order::<K>(),
        h > 0,
        before.loose_inv(h, lo, hi),
        before.can_split(pos),
        before.split_into(after, pos),
    ensures
        after.position(key) == (if before.position(key) < pos {
            before.position(key) as int
        } else if before.position(key) > pos {
            before.position(key) as int + 1
        } else if key_le(key, before.child(pos).median().unwrap()) {
            pos
        } else {
            pos + 1
        }),
        after.get(key, hi) == before.get(key, hi),
        after.takes_place(key) == before.takes_place(key),
{
    lemma_order_laws::<K>();
    let g = (h - 1) as nat;
    let keys = before.spec_keys();
    let used = before.spec_len();
    let whole = before.child(pos);
    let left = after.child(pos);
    let right = after.child(pos + 1);
    let m = whole.median().unwrap();
    let p = before.position(key) as int;
    lemma_median_inside(whole, g, before.lower(pos, lo), before.upper(pos, hi));
    lemma_gap_rank(keys, used, m, pos as nat, key);
    lemma_rank_splits(keys, used, key);
    if p == pos {
        if key_le(key, m) {
            lemma_front_routes(whole, left, g, before.lower(pos, lo), before.upper(pos, hi), key);
        } else {
            lemma_back_routes(whole, right, g, before.lower(pos, lo), before.upper(pos, hi), key);
        }
    }
}

} // verus!
