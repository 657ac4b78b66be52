use classic_algos::tree_traversal::{
    inorder_iterative, inorder_recursive, postorder_iterative, postorder_recursive,
    preorder_iterative, preorder_recursive, TreeArena, TreeNode,
};

/// Builds the example tree
///       4
///      / \
///     2   6
///    / \ / \
///   1  3 5  7
fn sample_tree() -> (TreeArena, Option<usize>) {
    let mut arena = TreeArena::new();
    let n1 = TreeNode::new(&mut arena, 1);
    let n3 = TreeNode::new(&mut arena, 3);
    let n2 = TreeNode::with_children(&mut arena, 2, n1, n3);
    let n5 = TreeNode::new(&mut arena, 5);
    let n7 = TreeNode::new(&mut arena, 7);
    let n6 = TreeNode::with_children(&mut arena, 6, n5, n7);
    let root = TreeNode::with_children(&mut arena, 4, n2, n6);
    (arena, root)
}

#[test]
fn test_inorder_both_forms() {
    let (arena, root) = sample_tree();
    let expected = vec![1, 2, 3, 4, 5, 6, 7];
    assert_eq!(inorder_recursive(&arena, root), expected);
    assert_eq!(inorder_iterative(&arena, root), expected);
}

#[test]
fn test_preorder_both_forms() {
    let (arena, root) = sample_tree();
    let expected = vec![4, 2, 1, 3, 6, 5, 7];
    assert_eq!(preorder_recursive(&arena, root), expected);
    assert_eq!(preorder_iterative(&arena, root), expected);
}

#[test]
fn test_postorder_both_forms() {
    let (arena, root) = sample_tree();
    let expected = vec![1, 3, 2, 5, 7, 6, 4];
    assert_eq!(postorder_recursive(&arena, root), expected);
    assert_eq!(postorder_iterative(&arena, root), expected);
}

#[test]
fn test_traversals_empty_tree() {
    let arena = TreeArena::new();
    assert_eq!(inorder_recursive(&arena, None), Vec::<i32>::new());
    assert_eq!(inorder_iterative(&arena, None), Vec::<i32>::new());
    assert_eq!(preorder_recursive(&arena, None), Vec::<i32>::new());
    assert_eq!(preorder_iterative(&arena, None), Vec::<i32>::new());
    assert_eq!(postorder_recursive(&arena, None), Vec::<i32>::new());
    assert_eq!(postorder_iterative(&arena, None), Vec::<i32>::new());
}

#[test]
fn test_traversals_left_chain() {
    // 3 -> 2 -> 1 all down the left spine
    let mut arena = TreeArena::new();
    let n1 = TreeNode::new(&mut arena, 1);
    let n2 = TreeNode::with_children(&mut arena, 2, n1, None);
    let root = TreeNode::with_children(&mut arena, 3, n2, None);
    assert_eq!(inorder_iterative(&arena, root), vec![1, 2, 3]);
    assert_eq!(preorder_iterative(&arena, root), vec![3, 2, 1]);
    assert_eq!(postorder_iterative(&arena, root), vec![1, 2, 3]);
}
