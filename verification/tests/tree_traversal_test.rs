use dsa::algorithms::tree_traversal::in_order_traversal;
use dsa::algorithms::tree_traversal::level_order_traversal;
use dsa::algorithms::tree_traversal::post_order_traversal;
use dsa::algorithms::tree_traversal::pre_order_traversal;
use dsa::data_structures::tree::BinaryTree;
use dsa::data_structures::tree::TreeNode;

fn sample_tree() -> Option<Box<BinaryTree<i32>>> {
    let left_left_tree = BinaryTree::new(TreeNode::new(4), None, None);
    let left_right_tree = BinaryTree::new(TreeNode::new(5), None, None);
    let right_left_tree = BinaryTree::new(TreeNode::new(6), None, None);
    let right_right_tree = BinaryTree::new(TreeNode::new(7), None, None);

    let left_tree = BinaryTree::new(
        TreeNode::new(2),
        Some(Box::new(left_left_tree)),
        Some(Box::new(left_right_tree)),
    );
    let right_tree = BinaryTree::new(
        TreeNode::new(3),
        Some(Box::new(right_left_tree)),
        Some(Box::new(right_right_tree)),
    );

    let tree = BinaryTree::new(
        TreeNode::new(1),
        Some(Box::new(left_tree)),
        Some(Box::new(right_tree)),
    );
    Some(Box::new(tree))
}

#[test]
fn test_pre_order_traversal() {
    let tree_ptr = sample_tree();
    let result = pre_order_traversal(&tree_ptr);
    let expected: Vec<i32> = vec![1, 2, 4, 5, 3, 6, 7];
    assert_eq!(result, expected);
}

#[test]
fn test_in_order_traversal() {
    let tree_ptr = sample_tree();
    let result = in_order_traversal(&tree_ptr);
    let expected: Vec<i32> = vec![4, 2, 5, 1, 6, 3, 7];
    assert_eq!(result, expected);
}

#[test]
fn test_post_order_traversal() {
    let tree_ptr = sample_tree();
    let result = post_order_traversal(&tree_ptr);
    let expected: Vec<i32> = vec![4, 5, 2, 6, 7, 3, 1];
    assert_eq!(result, expected);
}

#[test]
fn test_level_order_traversal() {
    let tree_ptr = sample_tree();
    let result = level_order_traversal(&tree_ptr);
    let expected: Vec<i32> = vec![1, 2, 3, 4, 5, 6, 7];
    assert_eq!(result, expected);
}

#[test]
fn test_traversals_of_empty_tree() {
    let tree_ptr: Option<Box<BinaryTree<i32>>> = None;
    assert_eq!(pre_order_traversal(&tree_ptr), Vec::<i32>::new());
    assert_eq!(in_order_traversal(&tree_ptr), Vec::<i32>::new());
    assert_eq!(post_order_traversal(&tree_ptr), Vec::<i32>::new());
    assert_eq!(level_order_traversal(&tree_ptr), Vec::<i32>::new());
}
