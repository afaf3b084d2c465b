//! What rotations and rebalancing keep, and what they restore.

use crate::order::{lemma_total_order, less, total_order};
use crate::shape::Shape;
use vstd::prelude::*;

verus! {

/// A rotation to the left changes neither the order of the keys from left to
/// right nor, therefore, which keys there are and how many.
pub proof fn lemma_rotate_left_keeps<T>(s: Shape<T>)
    ensures
        s.rotate_left().inorder() == s.inorder(),
        s.rotate_left().keys() == s.keys(),
        s.rotate_left().size() == s.size(),
{
    reveal_with_fuel(Shape::inorder, 3);
    reveal_with_fuel(Shape::keys, 3);
    reveal_with_fuel(Shape::size, 3);
}

/// A rotation to the right changes neither the order of the keys from left
/// to right nor, therefore, which keys there are and how many.
pub proof fn lemma_rotate_right_keeps<T>(s: Shape<T>)
    ensures
        s.rotate_right().inorder() == s.inorder(),
        s.rotate_right().keys() == s.keys(),
        s.rotate_right().size() == s.size(),
{
    reveal_with_fuel(Shape::inorder, 3);
    reveal_with_fuel(Shape::keys, 3);
    reveal_with_fuel(Shape::size, 3);
}

/// Rebalancing changes neither the order of the keys from left to right nor
/// which keys there are and how many.
pub proof fn lemma_rebalance_keeps<T>(s: Shape<T>)
    ensures
        s.rebalance().inorder() == s.inorder(),
        s.rebalance().keys() == s.keys(),
        s.rebalance().size() == s.size(),
{
    let l = s.left();
    let r = s.right();
    if s is Fork {
        if l.height() + 2 == r.height() {
            if r.left().height() > r.right().height() {
                let mid = Shape::fork(l, s->key, r.rotate_right());
                lemma_rotate_right_keeps(r);
                lemma_rotate_left_keeps(mid);
            } else {
                lemma_rotate_left_keeps(s);
            }
        } else if l.height() == r.height() + 2 {
            if l.left().height() < l.right().height() {
                let mid = Shape::fork(l.rotate_left(), s->key, r);
                lemma_rotate_left_keeps(l);
                lemma_rotate_right_keeps(mid);
            } else {
                lemma_rotate_right_keeps(s);
            }
        }
    }
}

/// A rotation to the left of a search tree gives a search tree.
pub proof fn lemma_rotate_left_ordered<T: Ord>(s: Shape<T>)
    requires
        total_order::<T>(),
        s.ordered(),
    ensures
        s.rotate_left().ordered(),
{
    lemma_total_order::<T>();
    reveal_with_fuel(Shape::ordered, 3);
    if s is Fork && s.right() is Fork {
        let t = s.rotate_left();
        let pivot = s.right()->key;
        assert(s.right().keys().contains(pivot));
        assert forall|k: T| #[trigger] t.left().keys().contains(k) implies less(k, pivot) by {
            if !s.left().keys().contains(k) && k != s->key {
                assert(s.right().left().keys().contains(k));
            }
        }
        assert forall|k: T| #[trigger] t.left().right().keys().contains(k) implies less(
            s->key,
            k,
        ) by {
            assert(s.right().keys().contains(k));
        }
    }
}

/// A rotation to the right of a search tree gives a search tree.
pub proof fn lemma_rotate_right_ordered<T: Ord>(s: Shape<T>)
    requires
        total_order::<T>(),
        s.ordered(),
    ensures
        s.rotate_right().ordered(),
{
    lemma_total_order::<T>();
    reveal_with_fuel(Shape::ordered, 3);
    if s is Fork && s.left() is Fork {
        let t = s.rotate_right();
        let pivot = s.left()->key;
        assert(s.left().keys().contains(pivot));
        assert forall|k: T| #[trigger] t.right().keys().contains(k) implies less(pivot, k) by {
            if !s.right().keys().contains(k) && k != s->key {
                assert(s.left().right().keys().contains(k));
            }
        }
        assert forall|k: T| #[trigger] t.right().left().keys().contains(k) implies less(
            k,
            s->key,
        ) by {
            assert(s.left().keys().contains(k));
        }
    }
}

/// Rebalancing a search tree gives a search tree.
pub proof fn lemma_rebalance_ordered<T: Ord>(s: Shape<T>)
    requires
        total_order::<T>(),
        s.ordered(),
    ensures
        s.rebalance().ordered(),
{
    let l = s.left();
    let r = s.right();
    if s is Fork {
        if l.height() + 2 == r.height() {
            if r.left().height() > r.right().height() {
                let mid = Shape::fork(l, s->key, r.rotate_right());
                lemma_rotate_right_ordered(r);
                lemma_rotate_right_keeps(r);
                lemma_rotate_left_ordered(mid);
            } else {
                lemma_rotate_left_ordered(s);
            }
        } else if l.height() == r.height() + 2 {
            if l.left().height() < l.right().height() {
                let mid = Shape::fork(l.rotate_left(), s->key, r);
                lemma_rotate_left_ordered(l);
                lemma_rotate_left_keeps(l);
                lemma_rotate_right_ordered(mid);
            } else {
                lemma_rotate_right_ordered(s);
            }
        }
    }
}

/// Rebalancing restores the balance.
///
/// Where both subtrees of `s` are balanced and their heights differ by at
/// most 2, the rebalanced tree is balanced at every node. It is `s` itself
/// where the heights differ by at most 1, and otherwise as high as `s` or
/// lower by 1.
pub proof fn lemma_rebalance_balanced<T>(s: Shape<T>)
    requires
        s.left().balanced(),
        s.right().balanced(),
        s.left().height() <= s.right().height() + 2,
        s.right().height() <= s.left().height() + 2,
    ensures
        s.rebalance().balanced(),
        s.balanced() ==> s.rebalance() == s,
        s.rebalance().height() <= s.height() <= s.rebalance().height() + 1,
{
    reveal_with_fuel(Shape::height, 4);
    reveal_with_fuel(Shape::balanced, 4);
}

/// While a tree is rebalanced no tree comes up that is higher than the one
/// that went in.
///
/// Where one subtree is higher by 2, it is not empty. Where its inner
/// subtree is the higher one, that is not empty either, and rotating the
/// subtree first raises neither it nor the whole tree.
pub proof fn lemma_rebalance_steps<T>(s: Shape<T>)
    requires
        s.left().balanced(),
        s.right().balanced(),
        s.left().height() <= s.right().height() + 2,
        s.right().height() <= s.left().height() + 2,
    ensures
        s.left().height() + 2 == s.right().height() ==> {
            let r = s.right();
            &&& s is Fork
            &&& r is Fork
            &&& s.rotate_left().height() <= s.height() + 1
            &&& r.left().height() > r.right().height() ==> {
                &&& r.left() is Fork
                &&& r.rotate_right().height() <= r.height()
                &&& Shape::fork(s.left(), s->key, r.rotate_right()).height() <= s.height()
            }
        },
        s.left().height() == s.right().height() + 2 ==> {
            let l = s.left();
            &&& s is Fork
            &&& l is Fork
            &&& s.rotate_right().height() <= s.height() + 1
            &&& l.left().height() < l.right().height() ==> {
                &&& l.right() is Fork
                &&& l.rotate_left().height() <= l.height()
                &&& Shape::fork(l.rotate_left(), s->key, s.right()).height() <= s.height()
            }
        },
{
    reveal_with_fuel(Shape::height, 4);
}

} // verus!
