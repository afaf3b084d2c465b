use avl_tree::Node;

fn keys_of(node: &Node<i32>) -> Vec<i32> {
    let mut keys = Vec::new();
    node.inorder_traversal(&mut keys);
    keys
}

fn grow(keys: &[i32]) -> Box<Node<i32>> {
    let mut root = Box::new(Node::new(keys[0]));
    for &k in &keys[1..] {
        root = Node::insert(root, k);
    }
    root
}

#[test]
fn new_node_is_a_leaf() {
    let node = Node::new(5);
    assert_eq!(node.value(), 5);
    assert!(node.left().is_none());
    assert!(node.right().is_none());
    assert_eq!(node.count_leaves(), 1);
    assert_eq!(keys_of(&node), vec![5]);
    assert_eq!(Node::height(&Some(Box::new(node))), 1);
}

#[test]
fn height_of_an_absent_subtree_is_zero() {
    assert_eq!(Node::<i32>::height(&None), 0);
}

#[test]
fn node_insert_hands_back_the_new_root() {
    let root = grow(&[1, 2, 3, 4, 5, 6, 7]);
    assert_eq!(root.value(), 4);
    assert_eq!(keys_of(&root), vec![1, 2, 3, 4, 5, 6, 7]);
    assert_eq!(root.count_leaves(), 4);
    assert_eq!(root.left().as_ref().unwrap().value(), 2);
    assert_eq!(root.right().as_ref().unwrap().value(), 6);
    assert_eq!(Node::height(root.left()), 2);
    assert_eq!(Node::height(root.right()), 2);
    assert_eq!(Node::height(&Some(root)), 3);
}

#[test]
fn node_insert_of_a_present_key_keeps_the_subtree() {
    let root = grow(&[2, 1, 3]);
    let copy = root.clone();
    let root = Node::insert(root, 3);
    assert!(root == copy);
    let root = Node::insert(root, 2);
    assert!(root == copy);
}

#[test]
fn node_delete_hands_back_what_is_left() {
    let root = grow(&[2, 1, 3]);
    let rest = Node::delete(root, 2).unwrap();
    assert_eq!(rest.value(), 3);
    assert_eq!(keys_of(&rest), vec![1, 3]);
    assert_eq!(rest.count_leaves(), 1);
    let rest = Node::delete(rest, 1).unwrap();
    assert_eq!(rest.value(), 3);
    assert_eq!(keys_of(&rest), vec![3]);
    assert!(Node::delete(rest, 3).is_none());
}

#[test]
fn node_delete_of_an_absent_key_keeps_the_subtree() {
    let root = grow(&[2, 1, 3]);
    let copy = root.clone();
    let rest = Node::delete(root, 9).unwrap();
    assert!(rest == copy);
    let rest = Node::delete(rest, 0).unwrap();
    assert!(rest == copy);
}

#[test]
fn node_delete_rebalances_on_the_way_up() {
    // 1 hangs alone on the left of a right-heavy tree.
    let root = grow(&[2, 1, 4, 3, 5]);
    assert_eq!(root.value(), 2);
    let rest = Node::delete(root, 1).unwrap();
    assert_eq!(rest.value(), 4);
    assert_eq!(keys_of(&rest), vec![2, 3, 4, 5]);
    assert_eq!(Node::height(&Some(rest)), 3);
}

#[test]
fn successor_is_taken_from_deep_in_the_right_subtree() {
    let root = grow(&[50, 30, 70, 20, 40, 60, 80, 10, 45, 55, 65, 75, 85, 52]);
    assert_eq!(root.value(), 50);
    let rest = Node::delete(root, 50).unwrap();
    assert_eq!(rest.value(), 52);
    assert_eq!(keys_of(&rest), vec![10, 20, 30, 40, 45, 52, 55, 60, 65, 70, 75, 80, 85]);
    assert_eq!(rest.right().as_ref().unwrap().value(), 70);
    assert_eq!(rest.right().as_ref().unwrap().left().as_ref().unwrap().value(), 60);
}

#[test]
fn inorder_traversal_appends() {
    let root = grow(&[2, 1, 3]);
    let mut keys = vec![100, 7];
    root.inorder_traversal(&mut keys);
    assert_eq!(keys, vec![100, 7, 1, 2, 3]);
    root.inorder_traversal(&mut keys);
    assert_eq!(keys, vec![100, 7, 1, 2, 3, 1, 2, 3]);
}

#[test]
fn node_clone_copies_the_whole_subtree() {
    let root = grow(&[5, 3, 8, 1, 4, 7, 9]);
    let copy = root.clone();
    assert!(copy == root);
    assert_eq!(keys_of(&copy), vec![1, 3, 4, 5, 7, 8, 9]);
    let grown = Node::insert(root, 6);
    assert!(copy != grown);
    assert_eq!(keys_of(&copy), vec![1, 3, 4, 5, 7, 8, 9]);
}
