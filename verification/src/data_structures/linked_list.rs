use vstd::prelude::*;
use crate::data_structures::node::Node;
use crate::data_structures::node::chain_seq;

verus! {

/// A singly-linked list. Its view is the sequence of stored values,
/// front first.
pub struct LinkedList<T> {
    head: Option<Box<Node<T>>>,
}

impl<T> View for LinkedList<T> {
    type V = Seq<T>;

    closed spec fn view(&self) -> Seq<T> {
        chain_seq(self.head)
    }
}

impl<T> LinkedList<T> {
    /// Creates a new, empty list.
    pub fn new() -> (r: Self)
        ensures
            r@ == Seq::<T>::empty(),
    {
        LinkedList { head: None }
    }

    /// Adds a value at the front of the list.
    pub fn push_front(&mut self, value: T)
        ensures
            final(self)@ == seq![value] + old(self)@,
    {
        let old_head = self.head.take();
        self.head = Some(Box::new(Node::new(value, old_head)));
    }

    /// Removes and returns the value at the front of the list, or `None`
    /// when the list is empty.
    pub fn pop_front(&mut self) -> (r: Option<T>)
        ensures
            old(self)@.len() == 0 ==> r is None && final(self)@ == old(self)@,
            old(self)@.len() > 0 ==> r == Some(old(self)@[0]) && final(self)@ == old(
                self,
            )@.drop_first(),
    {
        match self.head.take() {
            Some(node) => {
                let n = *node;
                self.head = n.next;
                proof {
                    assert(self@ =~= old(self)@.drop_first());
                }
                Some(n.value)
            },
            None => None,
        }
    }

    /// Reports whether the list holds no values.
    pub fn is_empty(&self) -> (r: bool)
        ensures
            r == (self@.len() == 0),
    {
        self.head.is_none()
    }
}

} // verus!
