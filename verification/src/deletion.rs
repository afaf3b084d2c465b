//! What a deletion does to a valid tree.

use crate::order::{lemma_total_order, less, total_order};
use crate::rebalance::{lemma_rebalance_balanced, lemma_rebalance_keeps, lemma_rebalance_ordered};
use crate::shape::Shape;
use vstd::prelude::*;

verus! {

/// The least key of a valid tree that is not empty is one of its keys and
/// comes before every other. Taking its node away gives a valid tree that
/// holds the other keys, as high as before or lower by 1.
pub proof fn lemma_without_min<T: Ord>(s: Shape<T>)
    requires
        total_order::<T>(),
        s.valid(),
        s is Fork,
    ensures
        s.keys().contains(s.min_key()),
        forall|k: T| #[trigger] s.keys().contains(k) && k != s.min_key() ==> less(s.min_key(), k),
        s.without_min().valid(),
        s.without_min().keys() == s.keys().remove(s.min_key()),
        s.without_min().height() <= s.height() <= s.without_min().height() + 1,
        s.without_min().size() + 1 == s.size(),
    decreases s,
{
    lemma_total_order::<T>();
    let left = s.left();
    let right = s.right();
    let here = s->key;
    if left is Nil {
        // The root holds the least key, and the right subtree is what stays.
        reveal_with_fuel(Shape::size, 2);
        assert(!right.keys().contains(here));
        assert(left.keys() =~= Set::empty());
    } else {
        // The least key is the left subtree's. It comes before the root's
        // key and so before every key of the right subtree.
        lemma_without_min(left);
        let least = left.min_key();
        let shrunk = Shape::fork(left.without_min(), here, right);
        lemma_rebalance_balanced(shrunk);
        lemma_rebalance_ordered(shrunk);
        lemma_rebalance_keeps(shrunk);
        assert forall|k: T| #[trigger] s.keys().contains(k) && k != least implies less(
            least,
            k,
        ) by {}
        assert(!right.keys().contains(least));
    }
}

/// Taking the root away from a valid tree gives a valid tree that holds the
/// other keys, as high as before or lower by 1.
pub proof fn lemma_without_root<T: Ord>(s: Shape<T>)
    requires
        total_order::<T>(),
        s.valid(),
        s is Fork,
    ensures
        s.without_root().valid(),
        s.without_root().keys() == s.keys().remove(s->key),
        s.without_root().height() <= s.height() <= s.without_root().height() + 1,
        s.without_root().size() + 1 == s.size(),
{
    lemma_total_order::<T>();
    let left = s.left();
    let right = s.right();
    let here = s->key;
    assert(!left.keys().contains(here));
    assert(!right.keys().contains(here));
    if left is Fork && right is Fork {
        // The least key of the right subtree comes after the root's key, so
        // after every key of the left subtree, and before every other key of
        // the right subtree: it can stand where the root's key stood.
        lemma_without_min(right);
        let least = right.min_key();
        let joined = Shape::fork(left, least, right.without_min());
        assert forall|k: T| #[trigger] left.keys().contains(k) implies less(k, least) by {}
        assert forall|k: T| #[trigger] right.without_min().keys().contains(k) implies less(
            least,
            k,
        ) by {}
        lemma_rebalance_balanced(joined);
        lemma_rebalance_ordered(joined);
        lemma_rebalance_keeps(joined);
    }
}

/// Deleting from a valid tree gives a valid tree that holds the other keys,
/// as high as before or lower by 1. Where the tree did not hold the key, it
/// does not change at all.
pub proof fn lemma_delete<T: Ord>(s: Shape<T>, key: T)
    requires
        total_order::<T>(),
        s.valid(),
    ensures
        s.delete(key).valid(),
        s.delete(key).keys() == s.keys().remove(key),
        s.delete(key).height() <= s.height() <= s.delete(key).height() + 1,
        !s.keys().contains(key) ==> s.delete(key) == s,
        s.keys().contains(key) ==> s.delete(key).size() + 1 == s.size(),
    decreases s,
{
    lemma_total_order::<T>();
    match s {
        Shape::Nil => {},
        Shape::Fork { left, key: here, right } => {
            if less(here, key) {
                lemma_delete(*right, key);
                let shrunk = Shape::fork(*left, here, right.delete(key));
                lemma_rebalance_balanced(shrunk);
                lemma_rebalance_ordered(shrunk);
                lemma_rebalance_keeps(shrunk);
                assert(!left.keys().contains(key));
            } else if less(key, here) {
                lemma_delete(*left, key);
                let shrunk = Shape::fork(left.delete(key), here, *right);
                lemma_rebalance_balanced(shrunk);
                lemma_rebalance_ordered(shrunk);
                lemma_rebalance_keeps(shrunk);
                assert(!right.keys().contains(key));
            } else {
                lemma_without_root(s);
            }
        },
    }
}

/// A deletion leaves nothing behind only where there was nothing else: the
/// tree was empty, or it held the deleted key alone.
pub proof fn lemma_delete_empties<T: Ord>(s: Shape<T>, key: T)
    requires
        total_order::<T>(),
        s.valid(),
    ensures
        s.delete(key) is Nil <==> s is Nil || s == Shape::leaf(key),
{
    lemma_total_order::<T>();
    if s is Fork && s.delete(key) is Nil {
        // Only the root itself can have gone, with nothing below it: what is
        // rebalanced is never empty.
        assert(s.left() is Nil);
        assert(s.right() is Nil);
    }
}

/// Deleting a key that a valid tree does not hold changes nothing: neither
/// the keys from left to right, nor the height, nor the leaf count, nor
/// anything else of the tree.
pub proof fn lemma_delete_absent<T: Ord>(s: Shape<T>, key: T)
    requires
        total_order::<T>(),
        s.valid(),
        !s.keys().contains(key),
    ensures
        s.delete(key) == s,
        s.delete(key).inorder() == s.inorder(),
        s.delete(key).height() == s.height(),
        s.delete(key).leaves() == s.leaves(),
{
    lemma_delete(s, key);
}

} // verus!
