use vstd::prelude::*;

verus! {

/// A binary-tree node holding a value of type `T`. Two nodes compare
/// equal exactly when their values do.
#[derive(Eq, Hash, PartialEq, PartialOrd, Ord, Clone, Debug)]
pub struct TreeNode<T> {
    /// The value of this node.
    pub value: T,
}

impl<T> TreeNode<T> {
    /// Creates a new node with the given value.
    pub fn new(value: T) -> (r: Self)
        ensures
            r.value == value,
    {
        TreeNode { value }
    }
}

/// A binary tree: a root node and two optional subtrees.
pub struct BinaryTree<T> {
    /// The topmost node of this tree.
    pub root: TreeNode<T>,
    /// The left child, or `None` when there is no left child.
    pub left: Option<Box<BinaryTree<T>>>,
    /// The right child, or `None` when there is no right child.
    pub right: Option<Box<BinaryTree<T>>>,
}

impl<T> BinaryTree<T> {
    /// Creates a new tree from a root node and two optional children.
    pub fn new(
        root: TreeNode<T>,
        left: Option<Box<BinaryTree<T>>>,
        right: Option<Box<BinaryTree<T>>>,
    ) -> (r: Self)
        ensures
            r.root == root,
            r.left == left,
            r.right == right,
    {
        BinaryTree { root, left, right }
    }
}

} // verus!
