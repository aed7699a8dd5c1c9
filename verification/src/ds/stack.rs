//! A last-in, first-out stack.

use vstd::prelude::*;

verus! {

/// A stack of values; the top is the value pushed last.
#[derive(Clone, Debug)]
pub struct Stack<T> {
    v: Vec<T>,
}

impl<T> View for Stack<T> {
    type V = Seq<T>;

    /// The values from the bottom to the top.
    closed spec fn view(&self) -> Seq<T> {
        self.v@
    }
}

impl<T> Default for Stack<T> {
    fn default() -> (s: Self)
        ensures
            s@ == Seq::<T>::empty(),
    {
        Stack { v: Vec::new() }
    }
}

impl<T> Stack<T> {
    /// The empty stack.
    pub fn new() -> (s: Self)
        ensures
            s@ == Seq::<T>::empty(),
    {
        Stack { v: Vec::new() }
    }

    /// Puts `x` on top.
    pub fn push(&mut self, x: T)
        ensures
            final(self)@ == old(self)@.push(x),
    {
        self.v.push(x)
    }

    /// Takes the top value off, if there is one.
    pub fn pop(&mut self) -> (top: Option<T>)
        ensures
            match top {
                Some(x) => old(self)@.len() > 0 && x == old(self)@.last() && final(self)@ == old(
                    self,
                )@.drop_last(),
                None => old(self)@.len() == 0 && final(self)@ == old(self)@,
            },
    {
        self.v.pop()
    }

    /// The top value, if there is one.
    pub fn peek(&self) -> (top: Option<&T>)
        ensures
            match top {
                Some(x) => self@.len() > 0 && *x == self@.last(),
                None => self@.len() == 0,
            },
    {
        if self.v.len() == 0 {
            None
        } else {
            Some(&self.v[self.v.len() - 1])
        }
    }

    /// Whether the stack holds no value.
    pub fn is_empty(&self) -> (empty: bool)
        ensures
            empty == (self@.len() == 0),
    {
        self.v.len() == 0
    }

    /// The number of values held.
    pub fn len(&self) -> (n: usize)
        ensures
            n == self@.len(),
    {
        self.v.len()
    }
}

} // verus!
