use algorithms::tree::binary_tree::BinaryTree;

fn listed() -> BinaryTree<i32> {
    BinaryTree::from_vec(vec![
        Some(0),
        Some(1),
        Some(2),
        None,
        Some(3),
        None,
        Some(4),
        None,
        None,
        None,
        Some(5),
    ])
}

#[test]
fn binary_tree_init() {
    let mut tree = listed();

    if let Some(node) = tree
        .root_mut()
        .unwrap()
        .left_mut()
        .unwrap()
        .right_mut()
    {
        BinaryTree::insert_left(node, 9);
        BinaryTree::insert_right(node, 99);
    }

    println!("Level order: {:?}", tree.level_order());
    println!("Pre order: {:?}", tree.pre_order());
    println!("In order: {:?}", tree.in_order());
    println!("Post order: {:?}", tree.post_order());

    assert_eq!(tree.level_order(), vec![0, 1, 2, 3, 4, 9, 99, 5]);
    assert_eq!(tree.pre_order(), vec![0, 1, 3, 9, 99, 5, 2, 4]);
    assert_eq!(tree.in_order(), vec![1, 9, 3, 99, 5, 0, 2, 4]);
    assert_eq!(tree.post_order(), vec![9, 5, 99, 3, 1, 4, 2, 0]);
}

#[test]
fn binary_tree_from_listing() {
    let tree = listed();
    assert_eq!(tree.level_order(), vec![0, 1, 2, 3, 4, 5]);
    assert_eq!(tree.pre_order(), vec![0, 1, 3, 5, 2, 4]);
    assert_eq!(tree.in_order(), vec![1, 3, 5, 0, 2, 4]);
    assert_eq!(tree.post_order(), vec![5, 3, 1, 4, 2, 0]);
    let root = tree.root().unwrap();
    assert_eq!(*root.val(), 0);
    assert!(root.left().unwrap().left().is_none());
    assert_eq!(*root.right().unwrap().right().unwrap().val(), 4);
}

#[test]
fn binary_tree_listing_without_root_is_empty() {
    let tree: BinaryTree<i32> = BinaryTree::from_vec(vec![None, Some(1), Some(2)]);
    assert!(tree.root().is_none());
    assert_eq!(tree.level_order(), Vec::<i32>::new());
    let tree: BinaryTree<i32> = BinaryTree::from_vec(vec![]);
    assert!(tree.root().is_none());
}

#[test]
fn binary_tree_insert_between_node_and_child() {
    let mut tree = BinaryTree::from_vec(vec![Some(1), Some(2), Some(3)]);
    let root = tree.root_mut().unwrap();
    BinaryTree::insert_left(root, 20);
    BinaryTree::insert_right(root, 30);
    assert_eq!(tree.level_order(), vec![1, 20, 30, 2, 3]);
    assert_eq!(tree.in_order(), vec![2, 20, 1, 30, 3]);
}
