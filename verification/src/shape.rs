//! The model of the tree: which key sits where.
//!
//! A [`Shape`] is a binary tree of keys and nothing else. The executable tree
//! caches a height in every node; the model computes it. Every operation of
//! the executable tree is specified as an operation on shapes, defined here.

use crate::order::less;
use core::cmp::Ordering;
use vstd::prelude::*;
use vstd::std_specs::cmp::OrdSpec;

verus! {

/// A binary tree of keys.
pub enum Shape<T> {
    /// The empty tree.
    Nil,
    /// A key with the subtrees to its left and to its right.
    Fork { left: Box<Shape<T>>, key: T, right: Box<Shape<T>> },
}

impl<T> Shape<T> {
    /// The tree with `key` at its root above `left` and `right`.
    pub open spec fn fork(left: Shape<T>, key: T, right: Shape<T>) -> Shape<T> {
        Shape::Fork { left: Box::new(left), key, right: Box::new(right) }
    }

    /// The tree that holds `key` alone.
    pub open spec fn leaf(key: T) -> Shape<T> {
        Shape::fork(Shape::Nil, key, Shape::Nil)
    }

    /// The left subtree; empty for the empty tree.
    pub open spec fn left(self) -> Shape<T> {
        match self {
            Shape::Nil => Shape::Nil,
            Shape::Fork { left, .. } => *left,
        }
    }

    /// The right subtree; empty for the empty tree.
    pub open spec fn right(self) -> Shape<T> {
        match self {
            Shape::Nil => Shape::Nil,
            Shape::Fork { right, .. } => *right,
        }
    }

    /// The number of nodes on the longest path from the root down: 0 for the
    /// empty tree, 1 for a single node.
    pub open spec fn height(self) -> nat
        decreases self,
    {
        match self {
            Shape::Nil => 0,
            Shape::Fork { left, right, .. } => {
                if left.height() >= right.height() {
                    left.height() + 1
                } else {
                    right.height() + 1
                }
            },
        }
    }

    /// The number of keys.
    pub open spec fn size(self) -> nat
        decreases self,
    {
        match self {
            Shape::Nil => 0,
            Shape::Fork { left, right, .. } => left.size() + 1 + right.size(),
        }
    }

    /// The set of keys.
    pub open spec fn keys(self) -> Set<T>
        decreases self,
    {
        match self {
            Shape::Nil => Set::empty(),
            Shape::Fork { left, key, right } => left.keys().union(right.keys()).insert(key),
        }
    }

    /// The keys from left to right: those of the left subtree, the root's,
    /// those of the right subtree.
    pub open spec fn inorder(self) -> Seq<T>
        decreases self,
    {
        match self {
            Shape::Nil => Seq::empty(),
            Shape::Fork { left, key, right } => left.inorder().push(key) + right.inorder(),
        }
    }

    /// The leaf count as the tree reports it. A node without children counts
    /// 1. A node with one child counts what that child counts, and a node
    /// with two children the sum of both. The empty tree counts 0.
    pub open spec fn leaves(self) -> nat
        decreases self,
    {
        match self {
            Shape::Nil => 0,
            Shape::Fork { left, right, .. } => {
                if *left is Nil && *right is Nil {
                    1
                } else {
                    left.leaves() + right.leaves()
                }
            },
        }
    }

    /// The heights of the two subtrees of every node differ by at most 1.
    pub open spec fn balanced(self) -> bool
        decreases self,
    {
        match self {
            Shape::Nil => true,
            Shape::Fork { left, right, .. } => {
                &&& left.balanced()
                &&& right.balanced()
                &&& left.height() <= right.height() + 1
                &&& right.height() <= left.height() + 1
            },
        }
    }

    /// The right child becomes the root. Its left subtree becomes the old
    /// root's right subtree, and the old root its left child. A tree without
    /// a right child is left as it is.
    pub open spec fn rotate_left(self) -> Shape<T> {
        match self {
            Shape::Fork { left, key, right } => match *right {
                Shape::Fork { left: mid, key: pivot, right: outer } => Shape::fork(
                    Shape::fork(*left, key, *mid),
                    pivot,
                    *outer,
                ),
                Shape::Nil => self,
            },
            Shape::Nil => self,
        }
    }

    /// The left child becomes the root. Its right subtree becomes the old
    /// root's left subtree, and the old root its right child. A tree without
    /// a left child is left as it is.
    pub open spec fn rotate_right(self) -> Shape<T> {
        match self {
            Shape::Fork { left, key, right } => match *left {
                Shape::Fork { left: outer, key: pivot, right: mid } => Shape::fork(
                    *outer,
                    pivot,
                    Shape::fork(*mid, key, *right),
                ),
                Shape::Nil => self,
            },
            Shape::Nil => self,
        }
    }

    /// Restores the balance at the root of a tree whose subtrees differ in
    /// height by at most 2.
    ///
    /// A difference of at most 1 leaves the tree as it is. Where the right
    /// subtree is higher by 2, the tree is rotated left, after the right
    /// subtree was rotated right if its own left subtree is the higher one.
    /// Where the left subtree is higher by 2, the mirror image is done. Any
    /// other tree is left as it is.
    pub open spec fn rebalance(self) -> Shape<T> {
        let l = self.left();
        let r = self.right();
        if self is Nil {
            self
        } else if l.height() + 2 == r.height() {
            if r.left().height() > r.right().height() {
                Shape::fork(l, self->key, r.rotate_right()).rotate_left()
            } else {
                self.rotate_left()
            }
        } else if l.height() == r.height() + 2 {
            if l.left().height() < l.right().height() {
                Shape::fork(l.rotate_left(), self->key, r).rotate_right()
            } else {
                self.rotate_right()
            }
        } else {
            self
        }
    }
}

impl<T: Ord> Shape<T> {
    /// Every key of a left subtree comes before the key above it, and every
    /// key of a right subtree after it.
    pub open spec fn ordered(self) -> bool
        decreases self,
    {
        match self {
            Shape::Nil => true,
            Shape::Fork { left, key, right } => {
                &&& left.ordered()
                &&& right.ordered()
                &&& forall|k: T| #[trigger] left.keys().contains(k) ==> less(k, key)
                &&& forall|k: T| #[trigger] right.keys().contains(k) ==> less(key, k)
            },
        }
    }

    /// A search tree that is balanced.
    pub open spec fn valid(self) -> bool {
        self.ordered() && self.balanced()
    }

    /// The tree after `key` was inserted.
    ///
    /// The search goes left where `key` comes before the node's key and right
    /// where it comes after. At an empty place a leaf is made; at a node that
    /// holds `key` nothing changes. Every node on the way back up is
    /// rebalanced.
    pub open spec fn insert(self, key: T) -> Shape<T>
        decreases self,
    {
        match self {
            Shape::Nil => Shape::leaf(key),
            Shape::Fork { left, key: here, right } => match here.cmp_spec(&key) {
                Ordering::Equal => self,
                Ordering::Less => Shape::fork(*left, here, right.insert(key)).rebalance(),
                Ordering::Greater => Shape::fork(left.insert(key), here, *right).rebalance(),
            },
        }
    }

    /// The tree after the entries of `keys` were inserted one after the
    /// other, the first of them first.
    pub open spec fn insert_all(self, keys: Seq<T>) -> Shape<T>
        decreases keys.len(),
    {
        if keys.len() == 0 {
            self
        } else {
            self.insert_all(keys.drop_last()).insert(keys.last())
        }
    }

    /// The least key of a tree that is not empty: the one reached by going
    /// left from the root until there is no left child.
    pub open spec fn min_key(self) -> T
        recommends
            self is Fork,
        decreases self,
    {
        match self {
            Shape::Fork { left, key, .. } => if *left is Nil {
                key
            } else {
                left.min_key()
            },
            Shape::Nil => arbitrary(),
        }
    }

    /// The tree without the node that holds its least key. That node's right
    /// subtree takes its place, and every node above it is rebalanced.
    pub open spec fn without_min(self) -> Shape<T>
        decreases self,
    {
        match self {
            Shape::Fork { left, key, right } => if *left is Nil {
                *right
            } else {
                Shape::fork(left.without_min(), key, *right).rebalance()
            },
            Shape::Nil => Shape::Nil,
        }
    }

    /// The tree without its root. The only child takes the root's place
    /// where there is at most one. Where there are two, the least key of the
    /// right subtree moves to the root, and the root is rebalanced.
    pub open spec fn without_root(self) -> Shape<T> {
        let l = self.left();
        let r = self.right();
        if l is Nil {
            r
        } else if r is Nil {
            l
        } else {
            Shape::fork(l, r.min_key(), r.without_min()).rebalance()
        }
    }

    /// The tree after `key` was deleted.
    ///
    /// The search goes as for an insertion. The node that holds `key` loses
    /// its place as `without_root` says, and every node above it is
    /// rebalanced. A tree that does not hold `key` on the search path is
    /// only rebalanced along that path.
    pub open spec fn delete(self, key: T) -> Shape<T>
        decreases self,
    {
        match self {
            Shape::Nil => Shape::Nil,
            Shape::Fork { left, key: here, right } => match here.cmp_spec(&key) {
                Ordering::Equal => self.without_root(),
                Ordering::Less => Shape::fork(*left, here, right.delete(key)).rebalance(),
                Ordering::Greater => Shape::fork(left.delete(key), here, *right).rebalance(),
            },
        }
    }
}

} // verus!
