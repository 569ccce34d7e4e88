//! Equality of trees: two nodes are equal where they have as many keys in
//! use and their rows of keys and of slots agree place by place, child nodes
//! compared in the same way.

use crate::tree::{BTree, TreeItem};
use vstd::laws_eq::obeys_concrete_eq;
use vstd::prelude::*;
use vstd::std_specs::cmp::PartialEqSpec;

verus! {

/// Two rows of keys are as long as each other and agree place by place.
pub open spec fn rows_agree<T: PartialEq>(a: Seq<Option<T>>, b: Seq<Option<T>>) -> bool {
    &&& a.len() == b.len()
    &&& forall|i: int| 0 <= i < a.len() ==> PartialEqSpec::eq_spec(&#[trigger] a[i], &b[i])
}

/// Two slots agree: both are empty, or they hold equal values, or they hold
/// child nodes that agree.
pub open spec fn slots_agree<K: PartialEq, V: PartialEq>(
    a: Option<TreeItem<K, V>>,
    b: Option<TreeItem<K, V>>,
) -> bool
    decreases a,
{
    match (a, b) {
        (None, None) => true,
        (Some(x), Some(y)) => items_agree(x, y),
        _ => false,
    }
}

/// Two occupied slots agree: they hold equal values, or child nodes that
/// agree.
pub open spec fn items_agree<K: PartialEq, V: PartialEq>(
    a: TreeItem<K, V>,
    b: TreeItem<K, V>,
) -> bool
    decreases a,
{
    match (a, b) {
        (TreeItem::TreeNode { value: x }, TreeItem::TreeNode { value: y }) => x.agrees(*y),
        (TreeItem::TreeLeaf { value: x }, TreeItem::TreeLeaf { value: y }) => PartialEqSpec::eq_spec(
            &x,
            &y,
        ),
        _ => false,
    }
}

impl<K: PartialEq, V: PartialEq> BTree<K, V> {
    /// Two nodes agree: they have as many keys in use, and their rows of keys
    /// and of slots agree.
    pub open spec fn agrees(&self, other: BTree<K, V>) -> bool
        decreases self,
    {
        &&& self.spec_len() == other.spec_len()
        &&& rows_agree(self.spec_keys(), other.spec_keys())
        &&& self.spec_items().len() == other.spec_items().len()
        &&& forall|i: int|
            0 <= i < self.spec_items().len() ==> slots_agree(
                #[trigger] self.spec_items()[i],
                other.spec_items()[i],
            )
    }

    /// Decides whether two nodes agree.
    pub fn same(&self, other: &BTree<K, V>) -> (r: bool)
        ensures
            K::obeys_eq_spec() && V::obeys_eq_spec() ==> r == self.agrees(*other),
        decreases self,
    {
        if self.used != other.used {
            return false;
        }
        if self.keys.len() != other.keys.len() || self.nodes.len() != other.nodes.len() {
            return false;
        }
        let mut i: usize = 0;
        while i < self.keys.len()
            invariant
                i <= self.keys@.len() == other.keys@.len(),
                K::obeys_eq_spec() ==> forall|j: int|
                    0 <= j < i ==> PartialEqSpec::eq_spec(&#[trigger] self.keys@[j], &other.keys@[j]),
            decreases self.keys@.len() - i,
        {
            if !(self.keys[i] == other.keys[i]) {
                return false;
            }
            i += 1;
        }
        let mut i: usize = 0;
        while i < self.nodes.len()
            invariant
                i <= self.nodes@.len() == other.nodes@.len(),
                self.used == other.used,
                K::obeys_eq_spec() ==> rows_agree(self.keys@, other.keys@),
                K::obeys_eq_spec() && V::obeys_eq_spec() ==> forall|j: int|
                    0 <= j < i ==> slots_agree(#[trigger] self.nodes@[j], other.nodes@[j]),
            decreases self, self.nodes@.len() - i,
        {
            let agree = match &self.nodes[i] {
                None => other.nodes[i].is_none(),
                Some(a) => match &other.nodes[i] {
                    None => false,
                    Some(b) => same_item(a, b),
                },
            };
            if !agree {
                return false;
            }
            i += 1;
        }
        true
    }
}

/// Decides whether two occupied slots agree.
pub fn same_item<K: PartialEq, V: PartialEq>(a: &TreeItem<K, V>, b: &TreeItem<K, V>) -> (r: bool)
    ensures
        K::obeys_eq_spec() && V::obeys_eq_spec() ==> r == items_agree(*a, *b),
    decreases a,
{
    match a {
        TreeItem::TreeNode { value: v1 } => {
            match b {
                TreeItem::TreeNode { value: v2 } => v1.same(&**v2),
                TreeItem::TreeLeaf { .. } => false,
            }
        },
        TreeItem::TreeLeaf { value: v1 } => {
            match b {
                TreeItem::TreeLeaf { value: v2 } => v1 == v2,
                TreeItem::TreeNode { .. } => false,
            }
        },
    }
}

/// Where keys and values compare equal exactly when they are the same, a
/// search finds the same in two nodes that agree.
pub proof fn lemma_agreeing_nodes_search_alike<K: Ord, V: PartialEq>(
    a: BTree<K, V>,
    b: BTree<K, V>,
    key: K,
    hi: Option<K>,
)
    requires
        obeys_concrete_eq::<K>(),
        obeys_concrete_eq::<V>(),
        a.agrees(b),
    ensures
        a.lookup(key) == b.lookup(key),
        a.get(key, hi) == b.get(key, hi),
    decreases a,
{
    reveal(obeys_concrete_eq);
    assert(a.spec_keys() =~= b.spec_keys());
    let pos = a.position(key) as int;
    if 0 <= pos < a.spec_items().len() {
        match (a.spec_items()[pos], b.spec_items()[pos]) {
            (
                Some(TreeItem::TreeNode { value: x }),
                Some(TreeItem::TreeNode { value: y }),
            ) => {
                lemma_agreeing_nodes_search_alike(*x, *y, key, a.upper(pos, hi));
            },
            _ => {},
        }
    }
}

/// Where keys and values compare equal exactly when they are the same, two
/// trees that are equal have the same entries.
pub proof fn lemma_equal_trees_have_same_entries<K: Ord, V: PartialEq>(a: BTree<K, V>, b: BTree<K, V>)
    requires
        obeys_concrete_eq::<K>(),
        obeys_concrete_eq::<V>(),
        a.agrees(b),
    ensures
        a@ == b@,
{
    assert forall|k: K| a.get(k, None) == b.get(k, None) by {
        lemma_agreeing_nodes_search_alike(a, b, k, None);
    }
}

impl<K: PartialEq, V: PartialEq> PartialEq for TreeItem<K, V> {
    fn eq(&self, other: &TreeItem<K, V>) -> (r: bool) {
        same_item(self, other)
    }
}

impl<K: PartialEq, V: PartialEq> vstd::std_specs::cmp::PartialEqSpecImpl for TreeItem<K, V> {
    open spec fn obeys_eq_spec() -> bool {
        K::obeys_eq_spec() && V::obeys_eq_spec()
    }

    open spec fn eq_spec(&self, other: &TreeItem<K, V>) -> bool {
        items_agree(*self, *other)
    }
}

impl<K: PartialEq, V: PartialEq> PartialEq for BTree<K, V> {
    fn eq(&self, other: &BTree<K, V>) -> (r: bool) {
        self.same(other)
    }
}

impl<K: PartialEq, V: PartialEq> vstd::std_specs::cmp::PartialEqSpecImpl for BTree<K, V> {
    open spec fn obeys_eq_spec() -> bool {
        K::obeys_eq_spec() && V::obeys_eq_spec()
    }

    open spec fn eq_spec(&self, other: &BTree<K, V>) -> bool {
        self.agrees(*other)
    }
}

} // verus!
