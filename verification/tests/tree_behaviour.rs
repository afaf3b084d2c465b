use avl_tree::{AVLTree, Node};

fn build(keys: &[i32]) -> AVLTree<i32> {
    let mut tree = AVLTree::new();
    for &k in keys {
        tree.insert(k);
    }
    tree
}

fn root_key(tree: &AVLTree<i32>) -> Option<i32> {
    tree.root().as_ref().map(|node| node.value())
}

/// Whether every node below `link` stores the right height and has
/// subtrees whose heights differ by at most 1. Hands back the height too.
fn balanced(link: &Option<Box<Node<i32>>>) -> (bool, u32) {
    match link {
        None => (true, 0),
        Some(node) => {
            let (left_ok, left_height) = balanced(node.left());
            let (right_ok, right_height) = balanced(node.right());
            let height = 1 + left_height.max(right_height);
            let here = left_height.abs_diff(right_height) <= 1 && Node::height(link) == height;
            (left_ok && right_ok && here, height)
        }
    }
}

#[test]
fn ascending_keys_rotate_left_once() {
    let tree = build(&[10, 20, 30]);
    assert_eq!(tree.inorder_traversal(), vec![10, 20, 30]);
    assert_eq!(tree.height(), 2);
    assert_eq!(root_key(&tree), Some(20));
    let root = tree.root().as_ref().unwrap();
    assert_eq!(root.left().as_ref().unwrap().value(), 10);
    assert_eq!(root.right().as_ref().unwrap().value(), 30);
    assert_eq!(tree.count_leaves(), 2);
}

#[test]
fn inner_grandchild_rotates_right_then_left() {
    let tree = build(&[30, 10, 20]);
    assert_eq!(tree.inorder_traversal(), vec![10, 20, 30]);
    assert_eq!(tree.height(), 2);
    assert_eq!(root_key(&tree), Some(20));
    let root = tree.root().as_ref().unwrap();
    assert_eq!(root.left().as_ref().unwrap().value(), 10);
    assert_eq!(root.right().as_ref().unwrap().value(), 30);
}

#[test]
fn inner_grandchild_rotates_left_then_right() {
    let tree = build(&[10, 30, 20]);
    assert_eq!(tree.inorder_traversal(), vec![10, 20, 30]);
    assert_eq!(tree.height(), 2);
    assert_eq!(root_key(&tree), Some(20));
}

#[test]
fn descending_keys_rotate_right_once() {
    let tree = build(&[30, 20, 10]);
    assert_eq!(tree.inorder_traversal(), vec![10, 20, 30]);
    assert_eq!(tree.height(), 2);
    assert_eq!(root_key(&tree), Some(20));
}

#[test]
fn deleting_a_root_with_two_children_promotes_the_successor() {
    let mut tree = build(&[5, 3, 8, 1, 4, 7, 9]);
    assert_eq!(root_key(&tree), Some(5));
    assert_eq!(tree.height(), 3);
    assert_eq!(tree.count_leaves(), 4);
    tree.delete(5);
    assert_eq!(root_key(&tree), Some(7));
    assert_eq!(tree.inorder_traversal(), vec![1, 3, 4, 7, 8, 9]);
    assert_eq!(balanced(tree.root()), (true, 3));
    assert_eq!(tree.height(), 3);
    assert_eq!(tree.count_leaves(), 3);
    let root = tree.root().as_ref().unwrap();
    let right = root.right().as_ref().unwrap();
    assert_eq!(right.value(), 8);
    assert!(right.left().is_none());
    assert_eq!(right.right().as_ref().unwrap().value(), 9);
}

#[test]
fn empty_tree_reports_nothing() {
    let tree: AVLTree<i32> = AVLTree::new();
    assert_eq!(tree.height(), 0);
    assert_eq!(tree.count_leaves(), 0);
    assert!(tree.is_empty());
    assert_eq!(tree.inorder_traversal(), Vec::<i32>::new());
    assert!(tree.root().is_none());
}

#[test]
fn single_key() {
    let tree = build(&[42]);
    assert_eq!(tree.height(), 1);
    assert_eq!(tree.count_leaves(), 1);
    assert!(!tree.is_empty());
    assert_eq!(tree.inorder_traversal(), vec![42]);
    assert_eq!(root_key(&tree), Some(42));
}

#[test]
fn node_with_one_child_is_no_leaf() {
    // 2 above 1: the root has one child and counts what the child counts.
    let tree = build(&[2, 1]);
    assert_eq!(tree.height(), 2);
    assert_eq!(tree.count_leaves(), 1);
    // 5 above 3 and 8, 1 below 3: node 3 has one child.
    let tree = build(&[5, 3, 8, 1]);
    assert_eq!(tree.height(), 3);
    assert_eq!(tree.count_leaves(), 2);
}

#[test]
fn deleting_from_an_empty_tree_does_nothing() {
    let mut tree: AVLTree<i32> = AVLTree::new();
    tree.delete(7);
    assert!(tree.is_empty());
    assert_eq!(tree.height(), 0);
}

#[test]
fn deleting_the_last_key_empties_the_tree() {
    let mut tree = build(&[7]);
    tree.delete(7);
    assert!(tree.is_empty());
    assert_eq!(tree.height(), 0);
    assert_eq!(tree.count_leaves(), 0);
    assert_eq!(tree.inorder_traversal(), Vec::<i32>::new());
}

#[test]
fn deleting_a_leaf_and_nodes_with_one_child() {
    let mut tree = build(&[10, 5, 15, 3, 7, 12, 20, 1]);
    assert_eq!(tree.height(), 4);
    assert_eq!(tree.count_leaves(), 4);
    // 20 is a leaf.
    tree.delete(20);
    assert_eq!(tree.inorder_traversal(), vec![1, 3, 5, 7, 10, 12, 15]);
    assert_eq!(tree.height(), 4);
    assert_eq!(tree.count_leaves(), 3);
    assert_eq!(root_key(&tree), Some(10));
    // 12 is a leaf; taking it away makes the root rotate right.
    tree.delete(12);
    assert_eq!(tree.inorder_traversal(), vec![1, 3, 5, 7, 10, 15]);
    assert_eq!(tree.height(), 3);
    assert_eq!(tree.count_leaves(), 3);
    assert_eq!(root_key(&tree), Some(5));
    tree.delete(15);
    assert_eq!(tree.inorder_traversal(), vec![1, 3, 5, 7, 10]);
    assert_eq!(tree.height(), 3);
    assert_eq!(tree.count_leaves(), 2);
    // 3 has the one child 1, which takes its place.
    tree.delete(3);
    assert_eq!(tree.inorder_traversal(), vec![1, 5, 7, 10]);
    assert_eq!(balanced(tree.root()), (true, 3));
    // 10 has the one child 7, which takes its place.
    tree.delete(10);
    assert_eq!(tree.inorder_traversal(), vec![1, 5, 7]);
    assert_eq!(balanced(tree.root()), (true, 2));
    assert_eq!(root_key(&tree), Some(5));
}

#[test]
fn a_thousand_ascending_keys() {
    let keys: Vec<i32> = (1..=1000).collect();
    let tree = build(&keys);
    assert_eq!(tree.height(), 10);
    assert_eq!(tree.count_leaves(), 500);
    assert_eq!(root_key(&tree), Some(512));
    assert_eq!(tree.inorder_traversal(), keys);
    assert_eq!(balanced(tree.root()), (true, 10));
}

#[test]
fn a_thousand_descending_keys() {
    let keys: Vec<i32> = (1..=1000).rev().collect();
    let tree = build(&keys);
    assert_eq!(tree.height(), 10);
    assert_eq!(tree.count_leaves(), 500);
    assert_eq!(root_key(&tree), Some(489));
    assert_eq!(tree.inorder_traversal(), (1..=1000).collect::<Vec<i32>>());
    assert_eq!(balanced(tree.root()), (true, 10));
}
