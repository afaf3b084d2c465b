//! What an insertion does to a valid tree.

use crate::order::{lemma_total_order, less, total_order};
use crate::rebalance::{lemma_rebalance_balanced, lemma_rebalance_keeps, lemma_rebalance_ordered};
use crate::shape::Shape;
use vstd::prelude::*;

verus! {

/// Inserting into a valid tree gives a valid tree that holds the new key
/// beside the old ones. The tree grows by at most 1 in height. Where it held
/// the key already, it does not change at all.
pub proof fn lemma_insert<T: Ord>(s: Shape<T>, key: T)
    requires
        total_order::<T>(),
        s.valid(),
    ensures
        s.insert(key).valid(),
        s.insert(key).keys() == s.keys().insert(key),
        s.height() <= s.insert(key).height() <= s.height() + 1,
        s.keys().contains(key) ==> s.insert(key) == s,
        !s.keys().contains(key) ==> s.insert(key).size() == s.size() + 1,
    decreases s,
{
    lemma_total_order::<T>();
    match s {
        Shape::Nil => {},
        Shape::Fork { left, key: here, right } => {
            if less(here, key) {
                lemma_insert(*right, key);
                let grown = Shape::fork(*left, here, right.insert(key));
                lemma_rebalance_balanced(grown);
                lemma_rebalance_ordered(grown);
                lemma_rebalance_keeps(grown);
                if s.keys().contains(key) {
                    assert(!left.keys().contains(key));
                }
            } else if less(key, here) {
                lemma_insert(*left, key);
                let grown = Shape::fork(left.insert(key), here, *right);
                lemma_rebalance_balanced(grown);
                lemma_rebalance_ordered(grown);
                lemma_rebalance_keeps(grown);
                if s.keys().contains(key) {
                    assert(!right.keys().contains(key));
                }
            }
        },
    }
}

/// Inserting a key a second time changes nothing: neither the keys from
/// left to right nor the height, nor anything else of the tree.
pub proof fn lemma_insert_twice<T: Ord>(s: Shape<T>, key: T)
    requires
        total_order::<T>(),
        s.valid(),
    ensures
        s.insert(key).insert(key) == s.insert(key),
        s.insert(key).insert(key).inorder() == s.insert(key).inorder(),
        s.insert(key).insert(key).height() == s.insert(key).height(),
{
    lemma_insert(s, key);
    lemma_insert(s.insert(key), key);
}

/// Inserting keys one after the other into a valid tree gives a valid tree
/// that holds them beside the old ones.
pub proof fn lemma_insert_all<T: Ord>(s: Shape<T>, keys: Seq<T>)
    requires
        total_order::<T>(),
        s.valid(),
    ensures
        s.insert_all(keys).valid(),
        s.insert_all(keys).keys() == s.keys().union(keys.to_set()),
    decreases keys.len(),
{
    if keys.len() > 0 {
        let front = keys.drop_last();
        lemma_insert_all(s, front);
        lemma_insert(s.insert_all(front), keys.last());
        assert forall|k: T| keys.to_set().contains(k) <==> front.to_set().contains(k) || k
            == keys.last() by {
            if keys.to_set().contains(k) {
                let i = choose|i: int| 0 <= i < keys.len() && keys[i] == k;
                if i < front.len() {
                    assert(front[i] == k);
                }
            }
        }
    }
}

} // verus!
