use fixcap::tree::ArrayBinaryTree;

#[test]
fn test_tree_operations() {
    const MAX_SIZE: usize = 5;
    let mut tree = ArrayBinaryTree::<i32, MAX_SIZE>::new();

    tree.insert_root(1).unwrap();
    let root = tree.root_index().unwrap();
    let left = tree.insert_left(root, 2).unwrap();
    tree.insert_right(root, 3).unwrap();
    tree.insert_left(left, 4).unwrap();
    tree.insert_right(left, 5).unwrap();

    // Verify node data
    assert_eq!(tree.get_data(root), Some(&1));
    assert_eq!(tree.get_data(left), Some(&2));

    // Test preorder traversal
    let pre_result = tree.preorder();
    assert_eq!(pre_result, [1, 2, 4, 5, 3]);

    // Test inorder traversal
    let in_result = tree.inorder();
    assert_eq!(in_result, [4, 2, 5, 1, 3]);

    // Test postorder traversal
    let post_result = tree.postorder();
    assert_eq!(post_result, [4, 5, 2, 3, 1]);

    // Test node count
    assert_eq!(tree.node_count(), 5);

    // Test depth
    assert_eq!(tree.depth(), 3);
    assert_eq!(tree.depth_iterative(), 3);
}

#[test]
fn test_depth_calculations() {
    const MAX_SIZE: usize = 7;
    let mut tree = ArrayBinaryTree::<i32, MAX_SIZE>::new();

    // Depth of empty tree is 0
    assert_eq!(tree.depth(), 0);
    assert_eq!(tree.depth_iterative(), 0);
    assert_eq!(tree.node_count(), 0);

    // Only root node
    tree.insert_root(1).unwrap();
    assert_eq!(tree.depth(), 1);
    assert_eq!(tree.depth_iterative(), 1);
    assert_eq!(tree.node_count(), 1);

    // Add left subtree
    let root = tree.root_index().unwrap();
    tree.insert_left(root, 2).unwrap();
    assert_eq!(tree.depth(), 2);
    assert_eq!(tree.depth_iterative(), 2);
    assert_eq!(tree.node_count(), 2);

    // Add right subtree
    tree.insert_right(root, 3).unwrap();
    assert_eq!(tree.depth(), 2);
    assert_eq!(tree.depth_iterative(), 2);
    assert_eq!(tree.node_count(), 3);

    // Add deeper level
    let left = 1; // Left child index is 1
    tree.insert_left(left, 4).unwrap();
    assert_eq!(tree.depth(), 3);
    assert_eq!(tree.depth_iterative(), 3);
    assert_eq!(tree.node_count(), 4);

    tree.insert_right(left, 5).unwrap();
    assert_eq!(tree.depth(), 3);
    assert_eq!(tree.depth_iterative(), 3);
    assert_eq!(tree.node_count(), 5);

    // Add fourth level
    tree.insert_left(3, 6).unwrap(); // Node 4's index is 3
    assert_eq!(tree.depth(), 4);
    assert_eq!(tree.depth_iterative(), 4);
    assert_eq!(tree.node_count(), 6);
}

#[test]
fn test_unbalanced_tree() {
    const MAX_SIZE: usize = 10;
    let mut tree = ArrayBinaryTree::<i32, MAX_SIZE>::new();

    tree.insert_root(1).unwrap();
    let root = tree.root_index().unwrap();

    // Create right-skewed tree
    let mut current = root;
    for i in 2..=5 {
        tree.insert_right(current, i).unwrap();
        current = tree.node_count() - 1; // Index of newly inserted node
    }

    assert_eq!(tree.node_count(), 5);
    assert_eq!(tree.depth(), 5);
    assert_eq!(tree.depth_iterative(), 5);

    // Add left subtree
    let root = tree.root_index().unwrap();
    tree.insert_left(root, 10).unwrap();
    assert_eq!(tree.depth(), 5); // Depth unchanged
    assert_eq!(tree.node_count(), 6);
}

#[test]
fn test_full_tree() {
    const MAX_SIZE: usize = 3;
    let mut tree = ArrayBinaryTree::<i32, MAX_SIZE>::new();

    tree.insert_root(1).unwrap();
    let root = tree.root_index().unwrap();
    tree.insert_left(root, 2).unwrap();
    tree.insert_right(root, 3).unwrap();

    assert_eq!(tree.node_count(), 3);
    assert_eq!(tree.depth(), 2);
    assert_eq!(tree.depth_iterative(), 2);

    // Tree should be full
    // Try to insert into a used-up space without left child, should return "Tree is full"
    assert_eq!(tree.insert_left(1, 4), Err("Tree is full"));
}

#[test]
fn test_single_node() {
    const MAX_SIZE: usize = 1;
    let mut tree = ArrayBinaryTree::<i32, MAX_SIZE>::new();

    tree.insert_root(1).unwrap();

    let pre_result = tree.preorder();
    assert_eq!(pre_result, [1]);

    let in_result = tree.inorder();
    assert_eq!(in_result, [1]);

    let post_result = tree.postorder();
    assert_eq!(post_result, [1]);
}

#[test]
fn test_empty_tree() {
    const MAX_SIZE: usize = 3;
    let tree = ArrayBinaryTree::<i32, MAX_SIZE>::new();

    assert!(tree.preorder().is_empty());
    assert!(tree.inorder().is_empty());
    assert!(tree.postorder().is_empty());
}

#[test]
fn tree_error_variants() {
    let mut tree = ArrayBinaryTree::<i32, 4>::new();

    tree.insert_root(1).unwrap();
    assert_eq!(tree.insert_root(9), Err("Root already exists"));

    // slot 2 is in range but not yet populated
    assert_eq!(tree.insert_left(2, 9), Err("Invalid parent index"));
    assert_eq!(tree.insert_right(2, 9), Err("Invalid parent index"));

    tree.insert_left(0, 2).unwrap();
    assert_eq!(tree.insert_left(0, 9), Err("Left child already exists"));
    tree.insert_right(0, 3).unwrap();
    assert_eq!(tree.insert_right(0, 9), Err("Right child already exists"));

    // out-of-range lookups fail silently
    assert_eq!(tree.get_data(100), None);
    assert_eq!(tree.get_data(3), None);
}
