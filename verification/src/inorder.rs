//! The keys from left to right, and why they come out sorted.

use crate::insertion::lemma_insert_all;
use crate::order::{lemma_total_order, less, strictly_increasing, total_order};
use crate::shape::Shape;
use vstd::prelude::*;

verus! {

/// The listing from left to right holds every key of the tree, and as many
/// entries as the tree has nodes.
pub proof fn lemma_inorder_keys<T>(s: Shape<T>)
    ensures
        s.inorder().to_set() == s.keys(),
        s.inorder().len() == s.size(),
        forall|k: T| s.inorder().contains(k) <==> s.keys().contains(k),
    decreases s,
{
    match s {
        Shape::Nil => {},
        Shape::Fork { left, key, right } => {
            lemma_inorder_keys(*left);
            lemma_inorder_keys(*right);
            let a = left.inorder();
            let b = right.inorder();
            let whole = s.inorder();
            assert forall|k: T| whole.contains(k) <==> s.keys().contains(k) by {
                if left.keys().contains(k) {
                    let i = choose|i: int| 0 <= i < a.len() && a[i] == k;
                    assert(whole[i] == k);
                }
                if right.keys().contains(k) {
                    let i = choose|i: int| 0 <= i < b.len() && b[i] == k;
                    assert(whole[a.len() + 1 + i] == k);
                }
                if k == key {
                    assert(whole[a.len() as int] == k);
                }
            }
        },
    }
}

/// The keys of a search tree, from left to right, are strictly increasing.
pub proof fn lemma_inorder_sorted<T: Ord>(s: Shape<T>)
    requires
        total_order::<T>(),
        s.ordered(),
    ensures
        strictly_increasing(s.inorder()),
        s.inorder().no_duplicates(),
    decreases s,
{
    lemma_total_order::<T>();
    match s {
        Shape::Nil => {},
        Shape::Fork { left, key, right } => {
            lemma_inorder_sorted(*left);
            lemma_inorder_sorted(*right);
            lemma_inorder_keys(*left);
            lemma_inorder_keys(*right);
            let a = left.inorder();
            let whole = s.inorder();
            assert forall|i: int, j: int| 0 <= i < j < whole.len() implies less(
                #[trigger] whole[i],
                #[trigger] whole[j],
            ) by {
                // What stands before the root's key is a key of the left
                // subtree, and what stands after it one of the right.
                if i < a.len() {
                    assert(left.keys().contains(whole[i]));
                }
                if j > a.len() {
                    assert(right.keys().contains(whole[j]));
                }
            }
        },
    }
}

/// Two strictly increasing sequences that hold the same values are the same
/// sequence.
pub proof fn lemma_increasing_unique<T: Ord>(a: Seq<T>, b: Seq<T>)
    requires
        total_order::<T>(),
        strictly_increasing(a),
        strictly_increasing(b),
        a.to_set() == b.to_set(),
    ensures
        a == b,
    decreases a.len(),
{
    lemma_total_order::<T>();
    if a.len() == 0 {
        if b.len() > 0 {
            assert(b.to_set().contains(b[0]));
        }
    } else if b.len() == 0 {
        assert(a.to_set().contains(a[0]));
    } else {
        // Each first entry occurs in the other sequence, where nothing comes
        // before the first entry: the two are the same.
        assert(a.to_set().contains(a[0]));
        assert(b.to_set().contains(b[0]));
        let ta = a.drop_first();
        let tb = b.drop_first();
        // What follows them holds the same values again.
        assert forall|k: T| ta.contains(k) <==> tb.contains(k) by {
            if ta.contains(k) {
                assert(a.to_set().contains(k));
                let j = choose|j: int| 0 <= j < b.len() && b[j] == k;
                assert(tb[j - 1] == k);
            }
            if tb.contains(k) {
                assert(b.to_set().contains(k));
                let i = choose|i: int| 0 <= i < a.len() && a[i] == k;
                assert(ta[i - 1] == k);
            }
        }
        assert(ta.to_set() =~= tb.to_set());
        lemma_increasing_unique(ta, tb);
        assert(b =~= seq![b[0]] + tb);
    }
}

/// Inserting keys into the empty tree, in whatever order and however often
/// each, gives a tree that lists them sorted: `sorted` is any strictly
/// increasing sequence of the same keys, and there is only one.
pub proof fn lemma_round_trip<T: Ord>(keys: Seq<T>, sorted: Seq<T>)
    requires
        total_order::<T>(),
        strictly_increasing(sorted),
        sorted.to_set() == keys.to_set(),
    ensures
        Shape::Nil.insert_all(keys).inorder() == sorted,
{
    let built = Shape::<T>::Nil.insert_all(keys);
    lemma_insert_all(Shape::<T>::Nil, keys);
    lemma_inorder_sorted(built);
    lemma_inorder_keys(built);
    assert(built.keys() =~= keys.to_set());
    lemma_increasing_unique(built.inorder(), sorted);
}

/// The order in which keys are inserted into the empty tree does not show
/// in the listing from left to right.
pub proof fn lemma_insertion_order<T: Ord>(a: Seq<T>, b: Seq<T>)
    requires
        total_order::<T>(),
        a.to_set() == b.to_set(),
    ensures
        Shape::Nil.insert_all(a).inorder() == Shape::Nil.insert_all(b).inorder(),
{
    let built = Shape::<T>::Nil.insert_all(b);
    lemma_insert_all(Shape::<T>::Nil, b);
    lemma_inorder_sorted(built);
    lemma_inorder_keys(built);
    assert(built.keys() =~= b.to_set());
    lemma_round_trip(a, built.inorder());
}

} // verus!
