use algo_bench::tree_traversal::{create_complete_tree, create_unbalanced_tree, TreeNode, TreeTraversalCoordinator};

#[test]
fn test_tree_node_creation() {
    let node = TreeNode::new(42);
    assert_eq!(node.value, 42);
    assert!(node.is_leaf());
    assert_eq!(node.depth(), 1);
    assert_eq!(node.count_nodes(), 1);
}

#[test]
fn test_tree_node_with_children() {
    let mut root = TreeNode::new(1);
    root.add_child(TreeNode::new(2));
    root.add_child(TreeNode::new(3));
    assert_eq!(root.children.len(), 2);
    assert!(!root.is_leaf());
    assert_eq!(root.depth(), 2);
    assert_eq!(root.count_nodes(), 3);
    assert_eq!(root.count_leaves(), 2);
}

#[test]
fn complete_binary_tree_counts() {
    let t = create_complete_tree(4, 2, 1);
    assert_eq!(t.count_nodes(), 15);
    assert_eq!(t.count_leaves(), 8);
    assert_eq!(t.depth(), 4);
    assert_eq!(t.children[1].value, 12);
    assert_eq!(t.children[1].children[0].value, 121);
}

#[test]
fn unbalanced_tree_shape() {
    let t = create_unbalanced_tree(6);
    assert_eq!(t.value, 1);
    assert_eq!(t.children.len(), 5);
    assert_eq!(t.count_nodes(), 10);
    assert_eq!(t.depth(), 3);
    assert_eq!(t.children[4].children.len(), 0);
    let empty = create_unbalanced_tree(0);
    assert_eq!(empty.value, 0);
    assert!(empty.is_leaf());
}

#[test]
fn coordinator_holds_five_trees() {
    let c = TreeTraversalCoordinator::new();
    assert_eq!(c.test_trees.len(), 5);
    assert_eq!(c.test_trees[2].count_nodes(), 9);
}
