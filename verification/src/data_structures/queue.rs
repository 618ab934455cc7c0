use vstd::prelude::*;

verus! {

/// A first-in-first-out queue. Its view is the sequence of stored values,
/// front first.
pub struct Queue<T> {
    items: Vec<T>,
}

impl<T> View for Queue<T> {
    type V = Seq<T>;

    closed spec fn view(&self) -> Seq<T> {
        self.items@
    }
}

impl<T> Queue<T> {
    /// Creates a new, empty queue.
    pub fn new() -> (r: Self)
        ensures
            r@ == Seq::<T>::empty(),
    {
        Queue { items: Vec::new() }
    }

    /// Adds a value at the rear of the queue.
    pub fn enqueue(&mut self, value: T)
        ensures
            final(self)@ == old(self)@.push(value),
    {
        self.items.push(value);
    }

    /// Removes and returns the value at the front of the queue, or `None`
    /// when the queue is empty.
    pub fn dequeue(&mut self) -> (r: Option<T>)
        ensures
            old(self)@.len() == 0 ==> r is None && final(self)@ == old(self)@,
            old(self)@.len() > 0 ==> r == Some(old(self)@[0]) && final(self)@ == old(
                self,
            )@.drop_first(),
    {
        if self.items.len() == 0 {
            None
        } else {
            let v = self.items.remove(0);
            proof {
                assert(self@ =~= old(self)@.drop_first());
            }
            Some(v)
        }
    }

    /// Returns a reference to the value at the front of the queue without
    /// removing it, or `None` when the queue is empty.
    pub fn peek(&self) -> (r: Option<&T>)
        ensures
            self@.len() == 0 ==> r is None,
            self@.len() > 0 ==> r is Some && *r.unwrap() == self@[0],
    {
        if self.items.len() == 0 {
            None
        } else {
            Some(&self.items[0])
        }
    }

    /// Reports whether the queue holds no values.
    pub fn is_empty(&self) -> (r: bool)
        ensures
            r == (self@.len() == 0),
    {
        self.items.len() == 0
    }

    /// Returns the number of values in the queue.
    pub fn size(&self) -> (r: usize)
        ensures
            r == self@.len(),
    {
        self.items.len()
    }
}

} // verus!
