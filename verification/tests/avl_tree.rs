use algorithms::tree::avl_tree::{AVLTree, AVLTreeNode};

fn build(keys: &[i32]) -> AVLTree<i32> {
    let mut tree = AVLTree::new();
    for &key in keys {
        tree.insert_recursion(key);
    }
    tree
}

/// Walks the subtree, checks stored heights and balance at every node, and returns its height.
fn checked_height(node: Option<&AVLTreeNode<i32>>) -> i32 {
    match node {
        None => -1,
        Some(node) => {
            let left = checked_height(node.left());
            let right = checked_height(node.right());
            assert_eq!(node.height(), 1 + left.max(right));
            assert!((left - right).abs() <= 1);
            node.height()
        }
    }
}

fn strictly_increasing(keys: &[i32]) -> bool {
    keys.windows(2).all(|pair| pair[0] < pair[1])
}

#[test]
fn avl_tree_iterate() {
    let mut tree = AVLTree::new();

    tree.insert_recursion(3);
    tree.insert_recursion(5);
    tree.insert_recursion(1);
    tree.insert_recursion(2);
    tree.insert_recursion(4);
    tree.insert_recursion(6);
    tree.insert_recursion(7);
    tree.insert_recursion(8);
    tree.insert_recursion(9);

    println!("In order: {:?}", tree.in_order());

    tree.remove(3);
    println!("In order: {:?}", tree.in_order());
    tree.remove(7);
    println!("In order: {:?}", tree.in_order());
    tree.remove(999);
    println!("In order: {:?}", tree.in_order());

    assert_eq!(*tree.search_iterate(1).unwrap().val(), 1);
    assert!(tree.search_iterate(3).is_none());
    assert!(tree.search_iterate(7).is_none());
    assert!(tree.search_iterate(10).is_none());

    println!("Level order: {:?}", tree.level_order());
    println!("Pre order: {:?}", tree.pre_order());
    println!("In order: {:?}", tree.in_order());
    println!("Post order: {:?}", tree.post_order());
}

#[test]
fn avl_tree_recursion() {
    let mut tree = AVLTree::new();

    tree.insert_recursion(3);
    tree.insert_recursion(5);
    tree.insert_recursion(1);
    tree.insert_recursion(2);
    tree.insert_recursion(4);
    tree.insert_recursion(6);
    tree.insert_recursion(7);
    tree.insert_recursion(8);
    tree.insert_recursion(9);

    assert_eq!(*tree.search_recursion(1).unwrap().val(), 1);
    assert_eq!(*tree.search_recursion(3).unwrap().val(), 3);
    assert!(tree.search_recursion(10).is_none());

    println!("Level order: {:?}", tree.level_order());
    println!("Pre order: {:?}", tree.pre_order());
    println!("In order: {:?}", tree.in_order());
    println!("Post order: {:?}", tree.post_order());
}

#[test]
fn right_rotate() {
    let mut tree = AVLTree::new();

    tree.insert_recursion(3);
    tree.insert_recursion(2);
    assert_eq!(tree.level_order(), vec![3, 2]);

    tree.insert_recursion(1);

    let root = tree.root().unwrap();
    assert_eq!(*root.val(), 2);
    assert_eq!(*root.left().unwrap().val(), 1);
    assert_eq!(*root.right().unwrap().val(), 3);
    assert_eq!(tree.level_order(), vec![2, 1, 3]);
}

#[test]
fn left_right_rotate() {
    let mut tree = AVLTree::new();

    tree.insert_recursion(3);
    tree.insert_recursion(1);
    assert_eq!(tree.level_order(), vec![3, 1]);

    tree.insert_recursion(2);

    assert_eq!(*tree.root().unwrap().val(), 2);
    assert_eq!(tree.level_order(), vec![2, 1, 3]);
}

#[test]
fn left_rotate() {
    let mut tree = AVLTree::new();

    tree.insert_recursion(1);
    tree.insert_recursion(2);
    assert_eq!(tree.level_order(), vec![1, 2]);

    tree.insert_recursion(3);

    let root = tree.root().unwrap();
    assert_eq!(*root.val(), 2);
    assert_eq!(*root.left().unwrap().val(), 1);
    assert_eq!(*root.right().unwrap().val(), 3);
    assert_eq!(tree.level_order(), vec![2, 1, 3]);
}

#[test]
fn right_left_rotate() {
    let mut tree = AVLTree::new();

    tree.insert_recursion(1);
    tree.insert_recursion(3);
    assert_eq!(tree.level_order(), vec![1, 3]);

    tree.insert_recursion(2);

    assert_eq!(*tree.root().unwrap().val(), 2);
    assert_eq!(tree.level_order(), vec![2, 1, 3]);
}

#[test]
fn avl_empty_tree() {
    let tree: AVLTree<i32> = AVLTree::new();
    assert!(tree.root().is_none());
    assert_eq!(tree.in_order(), Vec::<i32>::new());
    assert_eq!(tree.pre_order(), Vec::<i32>::new());
    assert_eq!(tree.post_order(), Vec::<i32>::new());
    assert_eq!(tree.level_order(), Vec::<i32>::new());
    assert!(tree.search_iterate(1).is_none());
    assert!(tree.search_recursion(1).is_none());
}

#[test]
fn avl_insert_keeps_order_and_balance_at_every_step() {
    let mut tree = AVLTree::new();
    let mut count = 0;
    for key in [3, 5, 1, 2, 4, 6, 7, 8, 9] {
        tree.insert_recursion(key);
        count += 1;
        let height = checked_height(tree.root());
        // ceil(1.44 * log2(10)) is 5
        assert!(height <= 5);
        let keys = tree.in_order();
        assert_eq!(keys.len(), count);
        assert!(strictly_increasing(&keys));
    }
    assert_eq!(tree.in_order(), vec![1, 2, 3, 4, 5, 6, 7, 8, 9]);
}

#[test]
fn avl_traversals_of_a_known_tree() {
    let tree = build(&[3, 5, 1, 2, 4, 6, 7, 8, 9]);
    assert_eq!(tree.level_order(), vec![3, 1, 7, 2, 5, 8, 4, 6, 9]);
    assert_eq!(tree.pre_order(), vec![3, 1, 2, 7, 5, 4, 6, 8, 9]);
    assert_eq!(tree.in_order(), vec![1, 2, 3, 4, 5, 6, 7, 8, 9]);
    assert_eq!(tree.post_order(), vec![2, 1, 4, 6, 5, 9, 8, 7, 3]);
    assert_eq!(tree.root().unwrap().height(), 3);
}

#[test]
fn avl_remove_present_key() {
    let mut tree = build(&[3, 5, 1, 2, 4, 6, 7, 8, 9]);
    tree.remove(3);
    assert!(tree.search_iterate(3).is_none());
    assert!(tree.search_recursion(3).is_none());
    assert_eq!(tree.in_order(), vec![1, 2, 4, 5, 6, 7, 8, 9]);
    checked_height(tree.root());
    for key in [1, 2, 4, 5, 6, 7, 8, 9] {
        assert_eq!(*tree.search_iterate(key).unwrap().val(), key);
    }
}

#[test]
fn avl_remove_node_with_two_children_promotes_successor() {
    let mut tree = build(&[3, 5, 1, 2, 4, 6, 7, 8, 9]);
    tree.remove(3);
    assert_eq!(*tree.root().unwrap().val(), 4);
    assert_eq!(tree.in_order(), vec![1, 2, 4, 5, 6, 7, 8, 9]);
    assert_eq!(tree.level_order(), vec![4, 1, 7, 2, 5, 8, 6, 9]);
    checked_height(tree.root());
}

#[test]
fn avl_remove_rebalances() {
    let mut tree = build(&[2, 1, 3, 4]);
    tree.remove(1);
    assert_eq!(tree.level_order(), vec![3, 2, 4]);
    checked_height(tree.root());
}

#[test]
fn avl_remove_down_to_empty() {
    let mut tree = build(&[3, 5, 1, 2, 4, 6, 7, 8, 9]);
    let mut left = vec![1, 2, 3, 4, 5, 6, 7, 8, 9];
    for key in [5, 1, 9, 3, 7, 2, 8, 4, 6] {
        tree.remove(key);
        left.retain(|&k| k != key);
        assert_eq!(tree.in_order(), left);
        checked_height(tree.root());
    }
    assert!(tree.root().is_none());
}

#[test]
fn avl_remove_absent_key_changes_nothing() {
    let mut empty: AVLTree<i32> = AVLTree::new();
    empty.remove(1);
    empty.remove(1);
    assert!(empty.root().is_none());

    let mut tree = build(&[3, 5, 1, 2, 4]);
    let before = tree.level_order();
    tree.remove(999);
    assert_eq!(tree.level_order(), before);
    tree.remove(999);
    assert_eq!(tree.level_order(), before);
    assert_eq!(tree.in_order(), vec![1, 2, 3, 4, 5]);
}

#[test]
fn avl_insert_twice_is_insert_once() {
    let mut tree = build(&[3, 5, 1, 2, 4]);
    let before = tree.level_order();
    tree.insert_recursion(4);
    assert_eq!(tree.level_order(), before);
    assert_eq!(tree.pre_order(), vec![3, 1, 2, 5, 4]);
    assert_eq!(tree.in_order(), vec![1, 2, 3, 4, 5]);
}

#[test]
fn avl_insert_then_remove_restores_keys() {
    let mut tree = build(&[3, 5, 1, 2, 4]);
    let before = tree.in_order();
    tree.insert_recursion(10);
    assert_eq!(tree.in_order(), vec![1, 2, 3, 4, 5, 10]);
    tree.remove(10);
    assert_eq!(tree.in_order(), before);
}

#[test]
fn avl_search_returns_the_subtree_of_the_key() {
    let tree = build(&[3, 5, 1, 2, 4, 6, 7, 8, 9]);
    let node = tree.search_iterate(7).unwrap();
    assert_eq!(*node.val(), 7);
    assert_eq!(*node.left().unwrap().val(), 5);
    assert_eq!(*node.right().unwrap().val(), 8);
    assert_eq!(node.height(), 2);
    let same = tree.search_recursion(7).unwrap();
    assert_eq!(*same.val(), 7);
    assert_eq!(same.height(), 2);
    let leaf = tree.search_recursion(2).unwrap();
    assert!(leaf.left().is_none());
    assert!(leaf.right().is_none());
    assert_eq!(leaf.height(), 0);
}

#[test]
fn avl_works_with_string_keys() {
    let mut tree = AVLTree::new();
    for key in ["pear", "apple", "fig", "plum"] {
        tree.insert_recursion(key.to_string());
    }
    assert_eq!(tree.in_order(), vec!["apple", "fig", "pear", "plum"]);
    tree.remove("fig".to_string());
    assert_eq!(tree.in_order(), vec!["apple", "pear", "plum"]);
    assert!(tree.search_iterate("fig".to_string()).is_none());
    assert!(tree.search_iterate("plum".to_string()).is_some());
}
