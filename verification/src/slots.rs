//! The rows of one node as plain sequences: where a search leaves a row of
//! keys, what a row looks like after a place has been opened in it, and how
//! the two go together.

use crate::order::{above, key_le, key_lt, lemma_order_laws, total_order, within};
use vstd::prelude::*;

verus! {

/// The place at which a search for `key` leaves a row of keys: the index of
/// the first key that is not below `key`, looked for from `from` on. The walk
/// ends with `used` at the first empty place and at the end of the row.
pub open spec fn scan<K: Ord>(keys: Seq<Option<K>>, used: nat, key: K, from: nat) -> nat
    decreases keys.len() - from,
{
    if from >= keys.len() {
        used
    } else {
        match keys[from as int] {
            Some(k) => if key_le(key, k) {
                from
            } else {
                scan(keys, used, key, from + 1)
            },
            None => used,
        }
    }
}

/// The place at which a search for `key` leaves a row of keys.
pub open spec fn rank<K: Ord>(keys: Seq<Option<K>>, used: nat, key: K) -> nat {
    scan(keys, used, key, 0)
}

/// The first `used` places hold a key and no other place does.
pub open spec fn packed<K>(keys: Seq<Option<K>>, used: nat) -> bool {
    &&& used <= keys.len()
    &&& forall|i: int| 0 <= i < keys.len() ==> ((#[trigger] keys[i]) is Some <==> i < used)
}

/// The keys in use stand in strictly ascending order.
pub open spec fn ascending<K: Ord>(keys: Seq<Option<K>>, used: nat) -> bool {
    forall|i: int, j: int|
        0 <= i < j < used ==> key_lt((#[trigger] keys[i]).unwrap(), (#[trigger] keys[j]).unwrap())
}

/// Every key in use lies above `lo` and at or below `hi`.
pub open spec fn bounded<K: Ord>(keys: Seq<Option<K>>, used: nat, lo: Option<K>, hi: Option<K>) -> bool {
    forall|i: int|
        0 <= i < used ==> above(lo, (#[trigger] keys[i]).unwrap()) && within(keys[i].unwrap(), hi)
}

/// `p` separates the keys below `key` from those that are not.
pub open spec fn splits_at<K: Ord>(keys: Seq<Option<K>>, used: nat, key: K, p: nat) -> bool {
    &&& p <= used
    &&& forall|i: int| 0 <= i < p ==> key_lt((#[trigger] keys[i]).unwrap(), key)
    &&& p < used ==> key_le(key, keys[p as int].unwrap())
}

proof fn lemma_scan<K: Ord>(keys: Seq<Option<K>>, used: nat, key: K, from: nat)
    requires
        total_order::<K>(),
        packed(keys, used),
        from <= used,
        forall|i: int| 0 <= i < from ==> key_lt((#[trigger] keys[i]).unwrap(), key),
    ensures
        splits_at(keys, used, key, scan(keys, used, key, from)),
    decreases keys.len() - from,
{
    lemma_order_laws::<K>();
    if from < keys.len() {
        match keys[from as int] {
            Some(k) => {
                if !key_le(key, k) {
                    lemma_scan(keys, used, key, from + 1);
                }
            },
            None => {},
        }
    }
}

/// In a packed row, `rank` separates the keys below `key` from the others.
pub proof fn lemma_rank_splits<K: Ord>(keys: Seq<Option<K>>, used: nat, key: K)
    requires
        total_order::<K>(),
        packed(keys, used),
    ensures
        splits_at(keys, used, key, rank(keys, used, key)),
{
    lemma_scan(keys, used, key, 0);
}

proof fn lemma_scan_reaches<K: Ord>(keys: Seq<Option<K>>, used: nat, key: K, p: nat, from: nat)
    requires
        total_order::<K>(),
        packed(keys, used),
        splits_at(keys, used, key, p),
        from <= p,
    ensures
        scan(keys, used, key, from) == p,
    decreases keys.len() - from,
{
    lemma_order_laws::<K>();
    if from < p {
        lemma_scan_reaches(keys, used, key, p, from + 1);
    }
}

/// In a packed row, only `rank` separates the keys below `key` from the others.
pub proof fn lemma_rank_unique<K: Ord>(keys: Seq<Option<K>>, used: nat, key: K, p: nat)
    requires
        total_order::<K>(),
        packed(keys, used),
        splits_at(keys, used, key, p),
    ensures
        rank(keys, used, key) == p,
{
    lemma_scan_reaches(keys, used, key, p, 0);
}

/// The row `s` after `x` has been put in at `pos`: what stood at `pos` or
/// behind it has moved one place to the right, and the last place is lost.
pub open spec fn with_gap<T>(s: Seq<T>, pos: int, x: T) -> Seq<T> {
    Seq::new(
        s.len(),
        |i: int|
            if i < pos {
                s[i]
            } else if i == pos {
                x
            } else {
                s[i - 1]
            },
    )
}

/// The row `s` after the places `pos..=end` have been turned one place to
/// the right: what stood at `end` stands at `pos`.
pub open spec fn rotated<T>(s: Seq<T>, pos: int, end: int) -> Seq<T> {
    Seq::new(
        s.len(),
        |i: int|
            if i == pos {
                s[end]
            } else if pos < i <= end {
                s[i - 1]
            } else {
                s[i]
            },
    )
}

/// A row as long as `s` that starts with the `n` places of `s` from `from`
/// on and is empty behind them.
pub open spec fn sub_row<T>(s: Seq<Option<T>>, from: int, n: int) -> Seq<Option<T>> {
    Seq::new(
        s.len(),
        |i: int|
            if i < n {
                s[from + i]
            } else {
                None
            },
    )
}

/// Exchange what two places of a row hold.
pub fn swap_places<T>(v: &mut Vec<Option<T>>, i: usize, j: usize)
    requires
        i < old(v)@.len(),
        j < old(v)@.len(),
    ensures
        final(v)@ == old(v)@.update(i as int, old(v)@[j as int]).update(j as int, old(v)@[i as int]),
{
    if i != j {
        let a = v[i].take();
        let b = v[j].take();
        v[i] = b;
        v[j] = a;
    }
}

/// Turn the places `pos..=end` of a row one place to the right, by exchanging
/// neighbours from the right end down.
pub fn rotate_right<T>(v: &mut Vec<Option<T>>, pos: usize, end: usize)
    requires
        pos <= end < old(v)@.len(),
    ensures
        final(v)@ == rotated(old(v)@, pos as int, end as int),
{
    let mut i: usize = end;
    while i > pos
        invariant
            pos <= i <= end < v@.len(),
            v@.len() == old(v)@.len(),
            forall|j: int|
                0 <= j < v@.len() ==> #[trigger] v@[j] == (if j == i {
                    old(v)@[end as int]
                } else if i < j <= end {
                    old(v)@[j - 1]
                } else {
                    old(v)@[j]
                }),
        decreases i,
    {
        swap_places(v, i - 1, i);
        i -= 1;
    }
}

/// A key put in at its rank keeps the row packed and ascending, and moves
/// the rank of every key above it one place to the right.
pub proof fn lemma_gap_rank<K: Ord>(keys: Seq<Option<K>>, used: nat, x: K, pos: nat, key: K)
    requires
        total_order::<K>(),
        packed(keys, used),
        used < keys.len(),
        ascending(keys, used),
        splits_at(keys, used, x, pos),
        pos < used ==> keys[pos as int] != Some(x),
    ensures
        packed(with_gap(keys, pos as int, Some(x)), used + 1),
        ascending(with_gap(keys, pos as int, Some(x)), used + 1),
        rank(with_gap(keys, pos as int, Some(x)), used + 1, key) == if key_le(key, x) {
            rank(keys, used, key)
        } else {
            rank(keys, used, key) + 1
        },
{
    lemma_order_laws::<K>();
    let row = with_gap(keys, pos as int, Some(x));
    let p = rank(keys, used, key);
    lemma_rank_splits(keys, used, key);
    if key_le(key, x) {
        lemma_rank_unique(row, used + 1, key, p);
    } else {
        lemma_rank_unique(row, used + 1, key, p + 1);
    }
}

/// Within a stretch of an ascending row, a key that belongs to the stretch
/// has the rank that it has in the whole row, counted from where the
/// stretch starts.
pub proof fn lemma_sub_rank<K: Ord>(keys: Seq<Option<K>>, used: nat, from: nat, n: nat, key: K)
    requires
        total_order::<K>(),
        packed(keys, used),
        ascending(keys, used),
        from + n <= used,
        from > 0 ==> key_lt(keys[from - 1].unwrap(), key),
        from + n < used ==> key_le(key, keys[(from + n) as int].unwrap()),
    ensures
        packed(sub_row(keys, from as int, n as int), n),
        ascending(sub_row(keys, from as int, n as int), n),
        from <= rank(keys, used, key) <= from + n,
        rank(sub_row(keys, from as int, n as int), n, key) == rank(keys, used, key) - from,
{
    lemma_order_laws::<K>();
    let row = sub_row(keys, from as int, n as int);
    let p = rank(keys, used, key);
    lemma_rank_splits(keys, used, key);
    lemma_rank_unique(row, n, key, (p - from) as nat);
}

} // verus!
