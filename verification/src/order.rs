//! The order on keys, as the tree's invariants and proofs speak of it.
//!
//! The tree compares keys with the operators of `Ord`. Everything proved about
//! it assumes that these operators describe a strict total order and that two
//! keys compare equal exactly when they are the same value; `total_order`
//! says so, and the primitive integer types satisfy it.

use core::cmp::Ordering;
use vstd::laws_cmp::obeys_cmp;
use vstd::laws_eq::obeys_concrete_eq;
use vstd::prelude::*;
use vstd::std_specs::cmp::PartialOrdSpec;

verus! {

/// Whether the comparison operators of `K` form a strict total order whose
/// notion of equality is equality of values.
pub open spec fn total_order<K: Ord>() -> bool {
    &&& obeys_cmp::<K>()
    &&& obeys_concrete_eq::<K>()
}

/// `a` is strictly below `b`.
pub open spec fn key_lt<K: Ord>(a: K, b: K) -> bool {
    a.partial_cmp_spec(&b) == Some(Ordering::Less)
}

/// `a` is below `b` or is `b`.
pub open spec fn key_le<K: Ord>(a: K, b: K) -> bool {
    key_lt(a, b) || a == b
}

/// `k` lies strictly above the lower bound, if there is one.
pub open spec fn above<K: Ord>(lo: Option<K>, k: K) -> bool {
    lo matches Some(l) ==> key_lt(l, k)
}

/// `k` lies at or below the upper bound, if there is one.
pub open spec fn within<K: Ord>(k: K, hi: Option<K>) -> bool {
    hi matches Some(h) ==> key_le(k, h)
}

/// The laws of a strict total order, in the form in which proofs use them.
pub proof fn lemma_order_laws<K: Ord>()
    requires
        total_order::<K>(),
    ensures
        forall|a: K| !#[trigger] key_lt(a, a),
        forall|a: K, b: K| #[trigger] key_lt(a, b) ==> !key_lt(b, a),
        forall|a: K, b: K| !(#[trigger] key_lt(a, b)) ==> a == b || key_lt(b, a),
        forall|a: K, b: K, c: K| #[trigger] key_lt(a, b) && #[trigger] key_lt(b, c) ==> key_lt(a, c),
{
    reveal(vstd::laws_cmp::obeys_partial_cmp_spec_properties);
    reveal(vstd::laws_cmp::obeys_cmp_partial_ord);
    reveal(vstd::laws_cmp::obeys_cmp_ord);
    reveal(vstd::laws_eq::obeys_concrete_eq);
}

/// Every fixed-width integer type is ordered as `total_order` asks.
pub proof fn lemma_integers_ordered()
    ensures
        total_order::<u8>(),
        total_order::<u16>(),
        total_order::<u32>(),
        total_order::<u64>(),
        total_order::<u128>(),
        total_order::<usize>(),
        total_order::<i8>(),
        total_order::<i16>(),
        total_order::<i32>(),
        total_order::<i64>(),
        total_order::<i128>(),
        total_order::<isize>(),
{
    broadcast use vstd::laws_cmp::group_laws_cmp;
    broadcast use vstd::laws_eq::group_laws_eq;
}

/// Decides `a <= b`.
pub fn is_le<K: Ord>(a: &K, b: &K) -> (r: bool)
    requires
        total_order::<K>(),
    ensures
        r == key_le(*a, *b),
{
    proof {
        reveal(vstd::laws_cmp::obeys_partial_cmp_spec_properties);
        reveal(vstd::laws_cmp::obeys_cmp_partial_ord);
        reveal(vstd::laws_cmp::obeys_cmp_ord);
        reveal(vstd::laws_eq::obeys_concrete_eq);
    }
    a <= b
}

/// Decides `a == b`.
pub fn is_same<K: Ord>(a: &K, b: &K) -> (r: bool)
    requires
        total_order::<K>(),
    ensures
        r == (*a == *b),
{
    proof {
        reveal(vstd::laws_cmp::obeys_cmp_partial_ord);
        reveal(vstd::laws_eq::obeys_concrete_eq);
    }
    a == b
}

/// Decides `a > b`.
pub fn is_gt<K: Ord>(a: &K, b: &K) -> (r: bool)
    requires
        total_order::<K>(),
    ensures
        r == key_lt(*b, *a),
{
    proof {
        reveal(vstd::laws_cmp::obeys_partial_cmp_spec_properties);
        reveal(vstd::laws_cmp::obeys_cmp_partial_ord);
        reveal(vstd::laws_cmp::obeys_cmp_ord);
        reveal(vstd::laws_eq::obeys_concrete_eq);
    }
    a > b
}

} // verus!
