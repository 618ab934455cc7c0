use vstd::prelude::*;

verus! {

/// A node of a singly-linked chain: a value and an optional next node.
pub struct Node<T> {
    /// The value stored in this node.
    pub value: T,
    /// The next node in the structure, or `None` if this is the last node.
    pub next: Option<Box<Node<T>>>,
}

/// The sequence of values stored in a chain of nodes, front first.
pub open spec fn chain_seq<T>(node: Option<Box<Node<T>>>) -> Seq<T>
    decreases node,
{
    match node {
        None => Seq::empty(),
        Some(n) => seq![n.value] + chain_seq(n.next),
    }
}

impl<T> Node<T> {
    /// Creates a new node with the given value and successor.
    pub fn new(value: T, next: Option<Box<Node<T>>>) -> (r: Self)
        ensures
            r.value == value,
            r.next == next,
    {
        Node { value, next }
    }
}

} // verus!
