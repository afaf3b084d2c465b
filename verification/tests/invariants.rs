use avl_tree::{AVLTree, Node};

/// A small generator of numbers that look random: the same ones every run.
struct Lcg(u64);

impl Lcg {
    fn next(&mut self) -> u64 {
        self.0 = self.0.wrapping_mul(6364136223846793005).wrapping_add(1442695040888963407);
        self.0 >> 33
    }

    fn shuffle(&mut self, keys: &mut Vec<i32>) {
        let mut i = keys.len();
        while i > 1 {
            let j = (self.next() % i as u64) as usize;
            i -= 1;
            keys.swap(i, j);
        }
    }
}

fn node_count(link: &Option<Box<Node<i32>>>) -> usize {
    match link {
        None => 0,
        Some(node) => node_count(node.left()) + 1 + node_count(node.right()),
    }
}

/// Whether the subtree is balanced at every node, with every stored height
/// right. Hands back the height too.
fn well_balanced(link: &Option<Box<Node<i32>>>) -> (bool, u32) {
    match link {
        None => (true, 0),
        Some(node) => {
            let (left_ok, left_height) = well_balanced(node.left());
            let (right_ok, right_height) = well_balanced(node.right());
            let height = 1 + left_height.max(right_height);
            let here = left_height.abs_diff(right_height) <= 1 && Node::height(link) == height;
            (left_ok && right_ok && here, height)
        }
    }
}

fn strictly_increasing(keys: &[i32]) -> bool {
    keys.windows(2).all(|pair| pair[0] < pair[1])
}

fn within_height_bound(tree: &AVLTree<i32>) -> bool {
    let n = tree.inorder_traversal().len() as f64;
    tree.height() as f64 <= 1.45 * (n + 2.0).log2()
}

#[test]
fn balance_holds_after_every_insert_and_delete() {
    let mut rng = Lcg(17);
    let mut tree: AVLTree<i32> = AVLTree::new();
    for step in 0..3000 {
        let key = (rng.next() % 400) as i32;
        if rng.next() % 3 == 0 {
            tree.delete(key);
        } else {
            tree.insert(key);
        }
        let (ok, height) = well_balanced(tree.root());
        assert!(ok, "unbalanced after step {}", step);
        assert_eq!(tree.height(), height);
    }
}

#[test]
fn inorder_is_strictly_increasing_after_every_insert_and_delete() {
    let mut rng = Lcg(23);
    let mut tree: AVLTree<i32> = AVLTree::new();
    let mut model = std::collections::BTreeSet::new();
    for _ in 0..3000 {
        let key = (rng.next() % 300) as i32 - 150;
        if rng.next() % 2 == 0 {
            tree.delete(key);
            model.remove(&key);
        } else {
            tree.insert(key);
            model.insert(key);
        }
        let keys = tree.inorder_traversal();
        assert!(strictly_increasing(&keys));
        assert_eq!(keys, model.iter().copied().collect::<Vec<i32>>());
        assert_eq!(tree.is_empty(), model.is_empty());
    }
}

#[test]
fn height_stays_within_the_logarithmic_bound() {
    let mut tree: AVLTree<i32> = AVLTree::new();
    assert!(within_height_bound(&tree));
    for key in 0..2000 {
        tree.insert(key);
        assert!(within_height_bound(&tree));
    }
    for key in 0..1990 {
        tree.delete(key);
        assert!(within_height_bound(&tree));
    }
    let mut rng = Lcg(5);
    let mut tree: AVLTree<i32> = AVLTree::new();
    for _ in 0..2000 {
        tree.insert((rng.next() % 100000) as i32);
        assert!(within_height_bound(&tree));
    }
}

#[test]
fn sparsest_trees_meet_the_height_bound() {
    // No tree of height 5 has fewer than 12 keys; this order builds one.
    let mut tree: AVLTree<i32> = AVLTree::new();
    for key in [8, 5, 11, 3, 7, 10, 12, 2, 4, 6, 9, 1] {
        tree.insert(key);
    }
    assert_eq!(tree.height(), 5);
    assert_eq!(tree.inorder_traversal().len(), 12);
    assert!(within_height_bound(&tree));
    // With 11 keys no order gets there.
    let mut rng = Lcg(8);
    for _ in 0..200 {
        let mut keys: Vec<i32> = (0..11).collect();
        rng.shuffle(&mut keys);
        let mut tree: AVLTree<i32> = AVLTree::new();
        for key in keys {
            tree.insert(key);
        }
        assert_eq!(tree.height(), 4);
    }
}

#[test]
fn inserting_a_key_twice_changes_nothing() {
    let mut rng = Lcg(99);
    let mut tree: AVLTree<i32> = AVLTree::new();
    for _ in 0..200 {
        tree.insert((rng.next() % 500) as i32);
    }
    for key in [0, 17, 250, 499, 1000, -3] {
        tree.insert(key);
        let keys = tree.inorder_traversal();
        let height = tree.height();
        let leaves = tree.count_leaves();
        let copy = tree.clone();
        tree.insert(key);
        assert_eq!(tree.inorder_traversal(), keys);
        assert_eq!(tree.height(), height);
        assert_eq!(tree.count_leaves(), leaves);
        assert!(tree == copy);
    }
}

#[test]
fn deleting_an_absent_key_changes_nothing() {
    let mut tree: AVLTree<i32> = AVLTree::new();
    for key in (0..200).map(|k| 2 * k) {
        tree.insert(key);
    }
    let keys = tree.inorder_traversal();
    let height = tree.height();
    let leaves = tree.count_leaves();
    let copy = tree.clone();
    for key in [-1, 1, 77, 199, 401, 1000] {
        tree.delete(key);
        assert_eq!(tree.inorder_traversal(), keys);
        assert_eq!(tree.height(), height);
        assert_eq!(tree.count_leaves(), leaves);
        assert!(tree == copy);
    }
}

#[test]
fn any_insertion_order_lists_the_keys_sorted() {
    let sorted: Vec<i32> = (0..257).map(|k| 3 * k - 100).collect();
    let mut rng = Lcg(1);
    for _ in 0..20 {
        let mut keys = sorted.clone();
        rng.shuffle(&mut keys);
        let mut tree = AVLTree::new();
        for &key in &keys {
            tree.insert(key);
        }
        assert_eq!(tree.inorder_traversal(), sorted);
        assert_eq!(node_count(tree.root()), sorted.len());
    }
}

#[test]
fn all_orders_of_four_keys_list_them_sorted() {
    let keys = [1, 2, 3, 4];
    for a in 0..4 {
        for b in 0..4 {
            for c in 0..4 {
                for d in 0..4 {
                    let order = [a, b, c, d];
                    if (0..4).all(|i| order.contains(&i)) {
                        let mut tree = AVLTree::new();
                        for i in order {
                            tree.insert(keys[i]);
                        }
                        assert_eq!(tree.inorder_traversal(), vec![1, 2, 3, 4]);
                        assert_eq!(tree.height(), 3);
                    }
                }
            }
        }
    }
}

#[test]
fn insert_adds_exactly_the_key() {
    let mut tree: AVLTree<i32> = AVLTree::new();
    for key in [50, 20, 80] {
        tree.insert(key);
    }
    tree.insert(60);
    assert_eq!(tree.inorder_traversal(), vec![20, 50, 60, 80]);
    tree.insert(i32::MIN);
    tree.insert(i32::MAX);
    assert_eq!(tree.inorder_traversal(), vec![i32::MIN, 20, 50, 60, 80, i32::MAX]);
}

#[test]
fn delete_removes_exactly_the_key() {
    let mut tree: AVLTree<i32> = AVLTree::new();
    for key in 0..64 {
        tree.insert(key);
    }
    tree.delete(31);
    let expected: Vec<i32> = (0..64).filter(|&k| k != 31).collect();
    assert_eq!(tree.inorder_traversal(), expected);
    assert_eq!(node_count(tree.root()), 63);
}

#[test]
fn height_moves_by_at_most_one() {
    let mut rng = Lcg(4242);
    let mut tree: AVLTree<i32> = AVLTree::new();
    for _ in 0..2000 {
        let key = (rng.next() % 128) as i32;
        let before = tree.height();
        if rng.next() % 2 == 0 {
            tree.insert(key);
            let after = tree.height();
            assert!(before <= after && after <= before + 1);
        } else {
            tree.delete(key);
            let after = tree.height();
            assert!(after <= before && before <= after + 1);
        }
    }
}

#[test]
fn trees_work_for_other_key_types() {
    let mut words: AVLTree<&str> = AVLTree::new();
    for word in ["pear", "apple", "fig", "plum", "apple"] {
        words.insert(word);
    }
    assert_eq!(words.inorder_traversal(), vec!["apple", "fig", "pear", "plum"]);
    words.delete("fig");
    assert_eq!(words.inorder_traversal(), vec!["apple", "pear", "plum"]);
    let mut pairs: AVLTree<(u8, char)> = AVLTree::new();
    for pair in [(2, 'a'), (1, 'z'), (2, 'A'), (1, 'b')] {
        pairs.insert(pair);
    }
    assert_eq!(pairs.inorder_traversal(), vec![(1, 'b'), (1, 'z'), (2, 'A'), (2, 'a')]);
    assert_eq!(pairs.height(), 3);
}

#[test]
fn clone_is_equal_and_independent() {
    let mut tree: AVLTree<i32> = AVLTree::new();
    for key in [4, 2, 6, 1, 3] {
        tree.insert(key);
    }
    let copy = tree.clone();
    assert!(copy == tree);
    tree.insert(7);
    assert!(copy != tree);
    assert_eq!(copy.inorder_traversal(), vec![1, 2, 3, 4, 6]);
    assert_eq!(tree.inorder_traversal(), vec![1, 2, 3, 4, 6, 7]);
}

#[test]
fn equality_compares_shapes() {
    let mut a: AVLTree<i32> = AVLTree::new();
    a.insert(1);
    a.insert(2);
    let mut b: AVLTree<i32> = AVLTree::new();
    b.insert(2);
    b.insert(1);
    assert_eq!(a.inorder_traversal(), b.inorder_traversal());
    assert!(a != b);
    let mut c: AVLTree<i32> = AVLTree::new();
    c.insert(1);
    c.insert(2);
    assert!(a == c);
}

#[test]
fn debug_shows_the_structure() {
    let tree: AVLTree<i32> = AVLTree::new();
    assert_eq!(format!("{:?}", tree), "AVLTree { root: None }");
    let mut tree: AVLTree<i32> = AVLTree::new();
    tree.insert(3);
    assert_eq!(
        format!("{:?}", tree),
        "AVLTree { root: Some(Node { value: 3, height: 1, left: None, right: None }) }"
    );
}
