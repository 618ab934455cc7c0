use vstd::prelude::*;
use vstd::pervasive::VecAdditionalExecFns;

verus! {

/// A last-in-first-out stack with a fixed capacity of 100 slots. Its view
/// is the sequence of stored values, bottom first.
pub struct Stack<T> {
    /// The backing store; slots above `top` hold `None`.
    data: Vec<Option<T>>,
    /// Index of the topmost value, or `-1` when the stack is empty.
    top: isize,
}

impl<T> View for Stack<T> {
    type V = Seq<T>;

    closed spec fn view(&self) -> Seq<T> {
        Seq::new((self.top + 1) as nat, |i: int| self.data@[i].unwrap())
    }
}

impl<T> Stack<T> {
    /// The backing store is exactly 100 slots; the slots up to `top` are
    /// filled and the ones above it are free.
    pub closed spec fn wf(&self) -> bool {
        &&& self.data.len() == 100
    &&& -1 <= self.top < 100
    &&& forall|k: int| 0 <= k <= self.top ==> (#[trigger] self.data@[k]) is Some
    &&& forall|k: int| self.top < k < 100 ==> (#[trigger] self.data@[k]) is None
    }

    /// Creates a new, empty stack.
    pub fn new() -> (r: Self)
        ensures
            r.wf(),
            r@ == Seq::<T>::empty(),
    {
        let mut data: Vec<Option<T>> = Vec::new();
        let mut k: usize = 0;
        while k < 100
            invariant
                k <= 100,
                data.len() == k,
                forall|t: int| 0 <= t < k ==> (#[trigger] data@[t]) is None,
            decreases 100 - k,
        {
            data.push(None);
            k = k + 1;
        }
        let r = Stack { data, top: -1 };
        proof {
            assert(r@ =~= Seq::<T>::empty());
        }
        r
    }

    /// Pushes a value onto the stack; fails with an error when all 100
    /// slots are in use.
    pub fn push(&mut self, value: T) -> (r: Result<(), &'static str>)
        requires
            old(self).wf(),
        ensures
            final(self).wf(),
            old(self)@.len() == 100 ==> r is Err && final(self)@ == old(self)@,
            old(self)@.len() < 100 ==> r is Ok && final(self)@ == old(self)@.push(value),
    {
        if self.top + 1 >= 100 {
            proof {
                assert(self@ =~= old(self)@);
            }
            Err("Stack Overflow")
        } else {
            self.top = self.top + 1;
            self.data.set(self.top as usize, Some(value));
            proof {
                assert(self@ =~= old(self)@.push(value));
            }
            Ok(())
        }
    }

    /// Removes and returns the topmost value, or `None` when the stack is
    /// empty.
    pub fn pop(&mut self) -> (r: Option<T>)
        requires
            old(self).wf(),
        ensures
            final(self).wf(),
            old(self)@.len() == 0 ==> r is None && final(self)@ == old(self)@,
            old(self)@.len() > 0 ==> r == Some(old(self)@.last()) && final(self)@ == old(
                self,
            )@.drop_last(),
    {
        if self.top == -1 {
            proof {
                assert(self@ =~= old(self)@);
            }
            None
        } else {
            let idx = self.top as usize;
            let v = self.data.swap_remove(idx);
            self.data.push(None);
            self.top = self.top - 1;
            proof {
                assert(self@ =~= old(self)@.drop_last());
            }
            v
        }
    }

    /// Returns a reference to the topmost value without removing it, or
    /// `None` when the stack is empty.
    pub fn peek(&self) -> (r: Option<&T>)
        requires
            self.wf(),
        ensures
            self@.len() == 0 ==> r is None,
            self@.len() > 0 ==> r is Some && *r.unwrap() == self@.last(),
    {
        if self.top == -1 {
            None
        } else {
            self.data[self.top as usize].as_ref()
        }
    }

    /// Reports whether the stack holds no values.
    pub fn is_empty(&self) -> (r: bool)
        requires
            self.wf(),
        ensures
            r == (self@.len() == 0),
    {
        self.top == -1
    }

    /// Returns the number of values on the stack.
    pub fn size(&self) -> (r: isize)
        requires
            self.wf(),
        ensures
            r == self@.len(),
    {
        self.top + 1
    }
}

} // verus!
