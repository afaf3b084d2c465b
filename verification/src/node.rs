//! The nodes of the executable tree.
//!
//! A node owns its two subtrees and stores the height of the subtree that it
//! roots. Every function takes subtrees by value and hands back what takes
//! their place.

use crate::deletion::{lemma_delete, lemma_delete_empties, lemma_without_min, lemma_without_root};
use crate::insertion::lemma_insert;
use crate::order::{lemma_equal, lemma_obeys, total_order};
use crate::rebalance::{lemma_rebalance_balanced, lemma_rebalance_steps};
use crate::shape::Shape;
use core::cmp::Ordering;
use core::fmt::Debug;
use vstd::prelude::*;

verus! {

/// A node of the tree with the subtrees below it.
#[derive(Debug, PartialEq)]
pub struct Node<T: Ord + Debug + Copy> {
    value: T,
    height: u32,
    left: Option<Box<Node<T>>>,
    right: Option<Box<Node<T>>>,
}

impl<T: Ord + Debug + Copy> View for Node<T> {
    type V = Shape<T>;

    /// The keys of this subtree and where they sit.
    open spec fn view(&self) -> Shape<T> {
        self.shape()
    }
}

impl<T: Ord + Debug + Copy> Node<T> {
    /// The keys of this subtree and where they sit.
    pub closed spec fn shape(&self) -> Shape<T>
        decreases self,
    {
        Shape::fork(
            match self.left {
                None => Shape::Nil,
                Some(node) => node.shape(),
            },
            self.value,
            match self.right {
                None => Shape::Nil,
                Some(node) => node.shape(),
            },
        )
    }

    /// The shape of a subtree that may be absent.
    pub open spec fn shape_of(link: Option<Box<Node<T>>>) -> Shape<T> {
        match link {
            None => Shape::Nil,
            Some(node) => node.shape(),
        }
    }

    /// The height that the root of a subtree stores; 0 for an absent one.
    pub closed spec fn stored_height(link: Option<Box<Node<T>>>) -> nat {
        match link {
            None => 0,
            Some(node) => node.height as nat,
        }
    }

    /// Every node of this subtree stores the height of the subtree below it.
    pub closed spec fn cached(&self) -> bool
        decreases self,
    {
        &&& match self.left {
            None => true,
            Some(node) => node.cached(),
        }
        &&& match self.right {
            None => true,
            Some(node) => node.cached(),
        }
        &&& self.height == self.shape().height()
    }

    /// `cached` for a subtree that may be absent.
    pub open spec fn link_cached(link: Option<Box<Node<T>>>) -> bool {
        match link {
            None => true,
            Some(node) => node.cached(),
        }
    }

    /// The subtree is a balanced search tree, and every node of it stores
    /// the right height.
    pub open spec fn wf(&self) -> bool {
        self.cached() && self@.valid()
    }

    /// `wf` for a subtree that may be absent.
    pub open spec fn link_wf(link: Option<Box<Node<T>>>) -> bool {
        Node::link_cached(link) && Node::shape_of(link).valid()
    }

    /// The shape of a node is not the empty tree.
    pub proof fn lemma_shape_is_fork(&self)
        ensures
            self@ is Fork,
    {
    }

    /// Two subtrees that have the same shape and store the right heights
    /// are the same in every field.
    pub proof fn lemma_shape_decides(a: Node<T>, b: Node<T>)
        requires
            a.cached(),
            b.cached(),
            a@ == b@,
        ensures
            a == b,
        decreases a,
    {
        assert(Node::shape_of(a.left) == Node::shape_of(b.left));
        assert(Node::shape_of(a.right) == Node::shape_of(b.right));
        Node::lemma_link_shape_decides(a.left, b.left);
        Node::lemma_link_shape_decides(a.right, b.right);
    }

    /// `lemma_shape_decides` for subtrees that may be absent.
    pub proof fn lemma_link_shape_decides(a: Option<Box<Node<T>>>, b: Option<Box<Node<T>>>)
        requires
            Node::link_cached(a),
            Node::link_cached(b),
            Node::shape_of(a) == Node::shape_of(b),
        ensures
            a == b,
        decreases a,
    {
        match (a, b) {
            (Some(x), Some(y)) => {
                Node::lemma_shape_decides(*x, *y);
            },
            _ => {},
        }
    }

    /// A node without children.
    pub fn new(value: T) -> (res: Self)
        ensures
            res@ == Shape::leaf(value),
            res.wf(),
    {
        proof {
            reveal_with_fuel(Shape::height, 2);
            reveal_with_fuel(Shape::balanced, 2);
            reveal_with_fuel(Shape::ordered, 2);
        }
        Node { value: value, height: 1, left: None, right: None }
    }

    /// The key of this node.
    pub fn value(&self) -> (res: T)
        ensures
            self@ is Fork,
            res == self@->key,
    {
        self.value
    }

    /// The subtree to the left of this node.
    pub fn left(&self) -> (res: &Option<Box<Node<T>>>)
        ensures
            Node::shape_of(*res) == self@.left(),
            self.cached() ==> Node::link_cached(*res),
    {
        &self.left
    }

    /// The subtree to the right of this node.
    pub fn right(&self) -> (res: &Option<Box<Node<T>>>)
        ensures
            Node::shape_of(*res) == self@.right(),
            self.cached() ==> Node::link_cached(*res),
    {
        &self.right
    }

    /// The height that the root of `root` stores, 0 where there is no
    /// subtree. This reads one field and walks nothing.
    pub fn height(root: &Option<Box<Node<T>>>) -> (h: u32)
        ensures
            h == Node::stored_height(*root),
            Node::link_cached(*root) ==> h == Node::shape_of(*root).height(),
    {
        match root {
            None => 0,
            Some(node) => node.height,
        }
    }

    /// Stores in this node the height that follows from its children's.
    fn update_height(&mut self)
        requires
            Node::link_cached(old(self).left),
            Node::link_cached(old(self).right),
            old(self)@.height() <= u32::MAX,
        ensures
            final(self).value == old(self).value,
            final(self).left == old(self).left,
            final(self).right == old(self).right,
            final(self)@ == old(self)@,
            final(self).cached(),
    {
        let l = Node::height(&self.left);
        let r = Node::height(&self.right);
        self.height = if l >= r { l + 1 } else { r + 1 };
    }

    /// The right child becomes the root of the subtree.
    fn rotate_left(mut root: Box<Node<T>>) -> (res: Box<Node<T>>)
        requires
            root.right is Some,
            Node::link_cached(root.left),
            Node::link_cached(root.right),
            root@.rotate_left().height() <= u32::MAX,
        ensures
            res@ == root@.rotate_left(),
            res.cached(),
    {
        let mut right = root.right.take().expect("miss right child!");
        root.right = right.left.take();
        root.update_height();
        right.left = Some(root);
        right.update_height();
        right
    }

    /// The left child becomes the root of the subtree.
    fn rotate_right(mut root: Box<Node<T>>) -> (res: Box<Node<T>>)
        requires
            root.left is Some,
            Node::link_cached(root.left),
            Node::link_cached(root.right),
            root@.rotate_right().height() <= u32::MAX,
        ensures
            res@ == root@.rotate_right(),
            res.cached(),
    {
        let mut left = root.left.take().expect("miss left child!");
        root.left = left.right.take();
        root.update_height();
        left.right = Some(root);
        left.update_height();
        left
    }

    /// Restores the balance at the root of a subtree whose children are
    /// balanced and differ in height by at most 2.
    fn reconstruction(mut root: Box<Node<T>>) -> (res: Box<Node<T>>)
        requires
            root.cached(),
            root@.left().balanced(),
            root@.right().balanced(),
            root@.left().height() <= root@.right().height() + 2,
            root@.right().height() <= root@.left().height() + 2,
        ensures
            res@ == root@.rebalance(),
            res.cached(),
    {
        proof {
            lemma_rebalance_steps(root@);
            lemma_rebalance_balanced(root@);
        }
        let diff = Node::height(&root.left) as i64 - Node::height(&root.right) as i64;
        if -1 <= diff && diff <= 1 {
            return root;
        } else if diff == -2 {
            let right = root.right.take().expect("miss right child");
            assert(right.cached());
            if Node::height(&right.left) > Node::height(&right.right) {
                root.right = Some(Node::rotate_right(right));
                root.update_height();
            } else {
                root.right = Some(right);
            }
            Node::rotate_left(root)
        } else if diff == 2 {
            let left = root.left.take().expect("miss left child");
            assert(left.cached());
            if Node::height(&left.left) < Node::height(&left.right) {
                root.left = Some(Node::rotate_left(left));
                root.update_height();
            } else {
                root.left = Some(left);
            }
            Node::rotate_right(root)
        } else {
            vstd::pervasive::unreached()
        }
    }

    /// Inserts `value` below `root` and hands back the subtree that takes
    /// its place. A key that is there already changes nothing.
    pub fn insert(mut root: Box<Node<T>>, value: T) -> (res: Box<Node<T>>)
        requires
            total_order::<T>(),
            root.wf(),
            root@.height() < u32::MAX,
        ensures
            res.wf(),
            res@ == root@.insert(value),
            res@.keys() == root@.keys().insert(value),
            root@.height() <= res@.height() <= root@.height() + 1,
            root@.keys().contains(value) ==> res == root,
        decreases root,
    {
        let ghost before = root@;
        let ghost start = root;
        proof {
            lemma_obeys::<T>();
            lemma_insert(before, value);
        }
        match root.value.cmp(&value) {
            Ordering::Equal => { return root },
            Ordering::Less => {
                proof {
                    lemma_insert(before.right(), value);
                }
                root.right = Node::insert_recursive(root.right.take(), value);
            },
            Ordering::Greater => {
                proof {
                    lemma_insert(before.left(), value);
                }
                root.left = Node::insert_recursive(root.left.take(), value);
            },
        }
        root.update_height();
        let res = Node::reconstruction(root);
        proof {
            if before.keys().contains(value) {
                Node::lemma_shape_decides(*res, *start);
            }
        }
        res
    }

    /// Inserts `value` into a subtree that may be absent.
    fn insert_recursive(root: Option<Box<Node<T>>>, value: T) -> (res: Option<Box<Node<T>>>)
        requires
            total_order::<T>(),
            Node::link_wf(root),
            Node::shape_of(root).height() < u32::MAX,
        ensures
            res is Some,
            Node::link_wf(res),
            Node::shape_of(res) == Node::shape_of(root).insert(value),
        decreases root,
    {
        match root {
            Some(node) => Some(Node::insert(node, value)),
            None => Some(Box::new(Node::new(value))),
        }
    }

    /// Deletes `value` from below `root` and hands back what takes the
    /// subtree's place: nothing where `root` held `value` alone. A key that
    /// is not there changes nothing.
    pub fn delete(mut root: Box<Node<T>>, value: T) -> (res: Option<Box<Node<T>>>)
        requires
            total_order::<T>(),
            root.wf(),
        ensures
            Node::link_wf(res),
            Node::shape_of(res) == root@.delete(value),
            res is None <==> root@ == Shape::leaf(value),
            Node::shape_of(res).keys() == root@.keys().remove(value),
            Node::shape_of(res).height() <= root@.height() <= Node::shape_of(res).height() + 1,
            !root@.keys().contains(value) ==> res == Some(root),
        decreases root,
    {
        let ghost before = root@;
        let ghost start = root;
        proof {
            lemma_obeys::<T>();
            lemma_delete(before, value);
            lemma_delete_empties(before, value);
        }
        match root.value.cmp(&value) {
            Ordering::Equal => {
                proof {
                    lemma_equal(root.value, value);
                }
                return Node::delete_node(root)
            },
            Ordering::Less => {
                proof {
                    lemma_delete(before.right(), value);
                }
                if let Some(node) = root.right.take() {
                    root.right = Node::delete(node, value);
                }
            },
            Ordering::Greater => {
                proof {
                    lemma_delete(before.left(), value);
                }
                if let Some(node) = root.left.take() {
                    root.left = Node::delete(node, value);
                }
            },
        }
        root.update_height();
        let res = Node::reconstruction(root);
        proof {
            if !before.keys().contains(value) {
                Node::lemma_shape_decides(*res, *start);
            }
        }
        Some(res)
    }

    /// Takes the root away and joins what is below it.
    fn delete_node(mut root: Box<Node<T>>) -> (res: Option<Box<Node<T>>>)
        requires
            total_order::<T>(),
            root.wf(),
        ensures
            Node::link_wf(res),
            Node::shape_of(res) == root@.without_root(),
    {
        proof {
            lemma_without_root(root@);
        }
        match (root.left.take(), root.right.take()) {
            (None, None) => None,
            (Some(left), None) => Some(left),
            (None, Some(right)) => Some(right),
            (Some(left), Some(right)) => Some(Node::reorder_children(left, right)),
        }
    }

    /// Joins two subtrees under the least key of the right one.
    fn reorder_children(left: Box<Node<T>>, right: Box<Node<T>>) -> (res: Box<Node<T>>)
        requires
            total_order::<T>(),
            left.cached(),
            left@.balanced(),
            right.wf(),
            left@.height() <= right@.height() + 1,
            right@.height() <= left@.height() + 1,
            left@.height() < u32::MAX,
            right@.height() < u32::MAX,
        ensures
            res@ == Shape::fork(left@, right@.min_key(), right@.without_min()).rebalance(),
            res.cached(),
    {
        proof {
            lemma_without_min(right@);
        }
        let (remaining_tree, min) = Node::drop_min(right);
        let mut new_root = min;
        new_root.left = Some(left);
        new_root.right = remaining_tree;
        new_root.update_height();
        Node::reconstruction(new_root)
    }

    /// The second half of `drop_min`, for a root whose left child `left` was
    /// taken out of it.
    fn drop_and_get_min(mut root: Box<Node<T>>, left: Box<Node<T>>) -> (res: (
        Option<Box<Node<T>>>,
        Box<Node<T>>,
    ))
        requires
            total_order::<T>(),
            root.left is None,
            left.cached(),
            Node::link_cached(root.right),
            Shape::fork(left@, root.value, Node::shape_of(root.right)).valid(),
            Shape::fork(left@, root.value, Node::shape_of(root.right)).height() <= u32::MAX,
        ensures
            Node::link_wf(res.0),
            Node::shape_of(res.0) == Shape::fork(
                left@,
                root.value,
                Node::shape_of(root.right),
            ).without_min(),
            res.1.value == left@.min_key(),
            res.1.left is None,
            res.1.right is None,
        decreases left, 1nat,
    {
        let ghost whole = Shape::fork(left@, root.value, Node::shape_of(root.right));
        proof {
            lemma_without_min(whole);
            lemma_without_min(left@);
        }
        let (new_left, min) = Node::drop_min(left);
        root.left = new_left;
        root.update_height();
        (Some(Node::reconstruction(root)), min)
    }

    /// Takes the node with the least key out of the subtree. Hands back what
    /// is left of the subtree, and that node without children.
    fn drop_min(mut root: Box<Node<T>>) -> (res: (Option<Box<Node<T>>>, Box<Node<T>>))
        requires
            total_order::<T>(),
            root.wf(),
        ensures
            Node::link_wf(res.0),
            Node::shape_of(res.0) == root@.without_min(),
            res.1.value == root@.min_key(),
            res.1.left is None,
            res.1.right is None,
        decreases root, 0nat,
    {
        proof {
            lemma_without_min(root@);
        }
        match root.left.take() {
            Some(left) => Node::drop_and_get_min(root, left),
            None => (root.right.take(), root),
        }
    }

    /// The leaf count of the subtree. A node without children counts 1; a
    /// node with one child counts what the child counts, and a node with two
    /// the sum of both.
    pub fn count_leaves(&self) -> (count: u32)
        requires
            self@.leaves() <= u32::MAX,
        ensures
            count == self@.leaves(),
        decreases self,
    {
        proof {
            reveal_with_fuel(Shape::leaves, 2);
        }
        match (self.left.as_ref(), self.right.as_ref()) {
            (None, None) => 1,
            (Some(left), None) => left.count_leaves(),
            (None, Some(right)) => right.count_leaves(),
            (Some(left), Some(right)) => left.count_leaves() + right.count_leaves(),
        }
    }

    /// Appends the keys of the subtree to `res`, from left to right.
    pub fn inorder_traversal(&self, res: &mut Vec<T>)
        ensures
            final(res)@ == old(res)@ + self@.inorder(),
        decreases self,
    {
        if let Some(ref left) = self.left {
            left.inorder_traversal(res);
        }
        res.push(self.value);
        if let Some(ref right) = self.right {
            right.inorder_traversal(res);
        }
        proof {
            let l = Node::shape_of(self.left).inorder();
            let r = Node::shape_of(self.right).inorder();
            assert(self@.inorder() == l.push(self.value) + r);
            assert(res@ =~= old(res)@ + self@.inorder());
        }
    }
}

impl<T: Ord + Debug + Copy> Clone for Node<T> {
    /// A copy of the subtree, node for node.
    fn clone(&self) -> (res: Self)
        ensures
            res == *self,
        decreases self,
    {
        Node {
            value: self.value,
            height: self.height,
            left: match &self.left {
                Some(node) => Some(Box::new((&**node).clone())),
                None => None,
            },
            right: match &self.right {
                Some(node) => Some(Box::new((&**node).clone())),
                None => None,
            },
        }
    }
}

} // verus!
