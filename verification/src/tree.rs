//! The tree handle: the owner of the root, and the operations that callers
//! use.

use crate::inorder::{lemma_inorder_keys, lemma_inorder_sorted};
use crate::node::Node;
use crate::order::{strictly_increasing, total_order};
use crate::shape::Shape;
use core::fmt::Debug;
use vstd::prelude::*;

verus! {

/// An AVL tree: a set of keys held in a balanced search tree.
///
/// A value of this type is always a balanced search tree whose nodes store
/// the right heights. No function here asks its caller for that, and none
/// can break it.
#[derive(Debug, PartialEq)]
pub struct AVLTree<T: Ord + Debug + Copy> {
    root: Option<Box<Node<T>>>,
}

impl<T: Ord + Debug + Copy> View for AVLTree<T> {
    type V = Shape<T>;

    /// The keys of the tree and where they sit.
    closed spec fn view(&self) -> Shape<T> {
        Node::shape_of(self.root)
    }
}

impl<T: Ord + Debug + Copy> AVLTree<T> {
    /// What holds of every tree: it is a balanced search tree, and its nodes
    /// store the right heights.
    #[verifier::type_invariant]
    spec fn inv(self) -> bool {
        Node::link_wf(self.root)
    }

    /// The empty tree.
    pub fn new() -> (res: AVLTree<T>)
        ensures
            res@ == Shape::<T>::Nil,
    {
        AVLTree { root: None }
    }

    /// The root of the tree, absent where the tree is empty.
    pub fn root(&self) -> (res: &Option<Box<Node<T>>>)
        ensures
            Node::shape_of(*res) == self@,
            Node::link_wf(*res),
    {
        proof {
            use_type_invariant(self);
        }
        &self.root
    }

    /// Whether the tree holds no key.
    pub fn is_empty(&self) -> (res: bool)
        ensures
            res == (self@ is Nil),
            res == self@.keys().is_empty(),
    {
        proof {
            if self.root is Some {
                self.root->0.lemma_shape_is_fork();
                assert(self@.keys().contains(self@->key));
            }
        }
        self.root.is_none()
    }

    /// Inserts `val`. A key that the tree holds already changes nothing.
    pub fn insert(&mut self, val: T)
        requires
            total_order::<T>(),
            old(self)@.height() < u32::MAX,
        ensures
            final(self)@ == old(self)@.insert(val),
            final(self)@.valid(),
            final(self)@.keys() == old(self)@.keys().insert(val),
            old(self)@.height() <= final(self)@.height() <= old(self)@.height() + 1,
            old(self)@.keys().contains(val) ==> *final(self) == *old(self),
    {
        proof {
            use_type_invariant(&*self);
        }
        let mut root = None;
        core::mem::swap(&mut root, &mut self.root);
        match root {
            Some(node) => {
                self.root = Some(Node::insert(node, val));
            },
            None => {
                self.root = Some(Box::new(Node::new(val)));
            },
        }
    }

    /// Deletes `value`. A key that the tree does not hold changes nothing.
    pub fn delete(&mut self, value: T)
        requires
            total_order::<T>(),
        ensures
            final(self)@ == old(self)@.delete(value),
            final(self)@.valid(),
            final(self)@.keys() == old(self)@.keys().remove(value),
            final(self)@.height() <= old(self)@.height() <= final(self)@.height() + 1,
            !old(self)@.keys().contains(value) ==> *final(self) == *old(self),
    {
        proof {
            use_type_invariant(&*self);
        }
        let mut root = None;
        core::mem::swap(&mut root, &mut self.root);
        match root {
            Some(node) => self.root = Node::delete(node, value),
            None => return,
        }
    }

    /// The leaf count of the tree, 0 for the empty tree. A node without
    /// children counts 1; a node with one child counts what the child
    /// counts, and a node with two the sum of both.
    pub fn count_leaves(&self) -> (count: u32)
        requires
            self@.leaves() <= u32::MAX,
        ensures
            count == self@.leaves(),
    {
        match self.root.as_ref() {
            None => 0,
            Some(node) => node.count_leaves(),
        }
    }

    /// The height of the tree: 0 for the empty tree, 1 for a single key.
    pub fn height(&self) -> (h: u32)
        ensures
            h == self@.height(),
            self@.valid(),
    {
        proof {
            use_type_invariant(self);
        }
        Node::height(&self.root)
    }

    /// The keys of the tree in increasing order.
    pub fn inorder_traversal(&self) -> (res: Vec<T>)
        ensures
            res@ == self@.inorder(),
            res@.to_set() == self@.keys(),
            res@.len() == self@.size(),
            total_order::<T>() ==> strictly_increasing(res@),
    {
        proof {
            use_type_invariant(self);
            lemma_inorder_keys(self@);
            if total_order::<T>() {
                lemma_inorder_sorted(self@);
            }
        }
        let mut res = Vec::new();
        match self.root.as_ref() {
            None => return res,
            Some(node) => {
                node.inorder_traversal(&mut res);
            },
        }
        return res;
    }
}

impl<T: Ord + Debug + Copy> Clone for AVLTree<T> {
    /// A copy of the tree, node for node.
    fn clone(&self) -> (res: Self)
        ensures
            res == *self,
    {
        proof {
            use_type_invariant(self);
        }
        AVLTree {
            root: match &self.root {
                Some(node) => Some(Box::new((&**node).clone())),
                None => None,
            },
        }
    }
}

} // verus!
