//! A self-balancing binary search tree (AVL tree) over a totally ordered key
//! type, with its behaviour stated as contracts over a mathematical model of
//! the tree and proved.
//!
//! * [`order`]: what is asked of the key type, and sorted sequences.
//! * [`shape`]: the model, a tree of keys, and the operations on it.
//! * [`rebalance`], [`insertion`], [`deletion`], [`inorder`], [`bound`]:
//!   what holds of those operations.
//! * [`node`], [`tree`]: the executable tree.
//! * [`command`]: the commands of an interactive session with a tree.

pub mod order;
pub mod shape;
pub mod rebalance;
pub mod inorder;
pub mod insertion;
pub mod deletion;
pub mod bound;
pub mod node;
pub mod tree;
pub mod command;

pub use node::Node;
pub use shape::Shape;
pub use tree::AVLTree;
