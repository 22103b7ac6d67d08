use algorithms::tree::binary_search_tree::BinarySearchTree;

#[test]
fn binary_search_tree_iterate() {
    let mut tree = BinarySearchTree::new();

    tree.insert_iterate(3);
    tree.insert_iterate(5);
    tree.insert_iterate(1);
    tree.insert_iterate(2);
    tree.insert_iterate(4);

    tree.remove(3);

    assert_eq!(*tree.search_iterate(1).unwrap().val(), 1);
    assert!(tree.search_iterate(3).is_none());
    assert!(tree.search_iterate(6).is_none());

    println!("Level order: {:?}", tree.level_order());
    println!("Pre order: {:?}", tree.pre_order());
    println!("In order: {:?}", tree.in_order());
    println!("Post order: {:?}", tree.post_order());
}

#[test]
fn binary_search_tree_recursion() {
    let mut tree = BinarySearchTree::new();

    tree.insert_recursion(3);
    tree.insert_recursion(5);
    tree.insert_recursion(1);
    tree.insert_recursion(2);
    tree.insert_recursion(4);

    assert_eq!(*tree.search_recursion(1).unwrap().val(), 1);
    assert_eq!(*tree.search_recursion(3).unwrap().val(), 3);
    assert!(tree.search_recursion(6).is_none());

    println!("Level order: {:?}", tree.level_order());
    println!("Pre order: {:?}", tree.pre_order());
    println!("In order: {:?}", tree.in_order());
    println!("Post order: {:?}", tree.post_order());
}

#[test]
fn binary_search_tree_both_inserts_build_the_same_tree() {
    let mut by_loop = BinarySearchTree::new();
    let mut by_recursion = BinarySearchTree::new();
    for key in [3, 5, 1, 2, 4, 3, 5] {
        by_loop.insert_iterate(key);
        by_recursion.insert_recursion(key);
    }
    assert_eq!(by_loop.level_order(), vec![3, 1, 5, 2, 4]);
    assert_eq!(by_recursion.level_order(), vec![3, 1, 5, 2, 4]);
    assert_eq!(by_loop.pre_order(), vec![3, 1, 2, 5, 4]);
    assert_eq!(by_loop.in_order(), vec![1, 2, 3, 4, 5]);
    assert_eq!(by_loop.post_order(), vec![2, 1, 4, 5, 3]);
    assert_eq!(by_recursion.pre_order(), by_loop.pre_order());
}

#[test]
fn binary_search_tree_remove_cases() {
    let mut tree = BinarySearchTree::new();
    for key in [3, 5, 1, 2, 4] {
        tree.insert_iterate(key);
    }
    // two children: the successor takes the place
    tree.remove(3);
    assert_eq!(tree.level_order(), vec![4, 1, 5, 2]);
    // one child
    tree.remove(1);
    assert_eq!(tree.level_order(), vec![4, 2, 5]);
    // no child
    tree.remove(5);
    assert_eq!(tree.level_order(), vec![4, 2]);
    // absent
    tree.remove(99);
    assert_eq!(tree.level_order(), vec![4, 2]);
    tree.remove(4);
    tree.remove(2);
    assert!(tree.root().is_none());
    tree.remove(2);
    assert!(tree.root().is_none());
}

#[test]
fn binary_search_tree_search_gives_the_subtree() {
    let mut tree = BinarySearchTree::new();
    for key in [3, 5, 1, 2, 4] {
        tree.insert_recursion(key);
    }
    let node = tree.search_iterate(5).unwrap();
    assert_eq!(*node.val(), 5);
    assert_eq!(*node.left().unwrap().val(), 4);
    assert!(node.right().is_none());
    let node = tree.search_recursion(1).unwrap();
    assert!(node.left().is_none());
    assert_eq!(*node.right().unwrap().val(), 2);
}
