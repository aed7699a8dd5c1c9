//! A first-in, first-out queue and a double-ended queue.

use vstd::prelude::*;
use std::collections::VecDeque;

verus! {

/// A queue of values; the front is the value pushed first.
#[derive(Clone, Debug)]
pub struct Queue<T> {
    q: VecDeque<T>,
}

impl<T> View for Queue<T> {
    type V = Seq<T>;

    /// The values from the front to the back.
    closed spec fn view(&self) -> Seq<T> {
        self.q@
    }
}

impl<T> Default for Queue<T> {
    fn default() -> (s: Self)
        ensures
            s@ == Seq::<T>::empty(),
    {
        Queue { q: VecDeque::new() }
    }
}

impl<T> Queue<T> {
    /// The empty queue.
    pub fn new() -> (s: Self)
        ensures
            s@ == Seq::<T>::empty(),
    {
        Queue { q: VecDeque::new() }
    }

    /// Adds `x` at the back.
    pub fn push(&mut self, x: T)
        ensures
            final(self)@ == old(self)@.push(x),
    {
        self.q.push_back(x)
    }

    /// Takes the front value off, if there is one.
    pub fn pop(&mut self) -> (front: Option<T>)
        ensures
            match front {
                Some(x) => old(self)@.len() > 0 && x == old(self)@[0] && final(self)@ == old(
                    self,
                )@.subrange(1, old(self)@.len() as int),
                None => old(self)@.len() == 0 && final(self)@ == old(self)@,
            },
    {
        self.q.pop_front()
    }

    /// The front value, if there is one.
    pub fn peek(&self) -> (front: Option<&T>)
        ensures
            match front {
                Some(x) => self@.len() > 0 && *x == self@[0],
                None => self@.len() == 0,
            },
    {
        if self.q.len() == 0 {
            None
        } else {
            Some(&self.q[0])
        }
    }

    /// Whether the queue holds no value.
    pub fn is_empty(&self) -> (empty: bool)
        ensures
            empty == (self@.len() == 0),
    {
        self.q.len() == 0
    }

    /// The number of values held.
    pub fn len(&self) -> (n: usize)
        ensures
            n == self@.len(),
    {
        self.q.len()
    }
}

/// A queue that grows and shrinks at both ends.
#[derive(Clone, Debug)]
pub struct Deque<T> {
    d: VecDeque<T>,
}

impl<T> View for Deque<T> {
    type V = Seq<T>;

    /// The values from the front to the back.
    closed spec fn view(&self) -> Seq<T> {
        self.d@
    }
}

impl<T> Default for Deque<T> {
    fn default() -> (s: Self)
        ensures
            s@ == Seq::<T>::empty(),
    {
        Deque { d: VecDeque::new() }
    }
}

impl<T> Deque<T> {
    /// The empty deque.
    pub fn new() -> (s: Self)
        ensures
            s@ == Seq::<T>::empty(),
    {
        Deque { d: VecDeque::new() }
    }

    /// Adds `x` at the front.
    pub fn push_front(&mut self, x: T)
        ensures
            final(self)@ == seq![x] + old(self)@,
    {
        self.d.push_front(x)
    }

    /// Adds `x` at the back.
    pub fn push_back(&mut self, x: T)
        ensures
            final(self)@ == old(self)@.push(x),
    {
        self.d.push_back(x)
    }

    /// Takes the front value off, if there is one.
    pub fn pop_front(&mut self) -> (front: Option<T>)
        ensures
            match front {
                Some(x) => old(self)@.len() > 0 && x == old(self)@[0] && final(self)@ == old(
                    self,
                )@.subrange(1, old(self)@.len() as int),
                None => old(self)@.len() == 0 && final(self)@ == old(self)@,
            },
    {
        self.d.pop_front()
    }

    /// Takes the back value off, if there is one.
    pub fn pop_back(&mut self) -> (back: Option<T>)
        ensures
            match back {
                Some(x) => old(self)@.len() > 0 && x == old(self)@.last() && final(self)@ == old(
                    self,
                )@.drop_last(),
                None => old(self)@.len() == 0 && final(self)@ == old(self)@,
            },
    {
        self.d.pop_back()
    }

    /// The front value, if there is one.
    pub fn front(&self) -> (front: Option<&T>)
        ensures
            match front {
                Some(x) => self@.len() > 0 && *x == self@[0],
                None => self@.len() == 0,
            },
    {
        if self.d.len() == 0 {
            None
        } else {
            Some(&self.d[0])
        }
    }

    /// The back value, if there is one.
    pub fn back(&self) -> (back: Option<&T>)
        ensures
            match back {
                Some(x) => self@.len() > 0 && *x == self@.last(),
                None => self@.len() == 0,
            },
    {
        if self.d.len() == 0 {
            None
        } else {
            Some(&self.d[self.d.len() - 1])
        }
    }

    /// Whether the deque holds no value.
    pub fn is_empty(&self) -> (empty: bool)
        ensures
            empty == (self@.len() == 0),
    {
        self.d.len() == 0
    }

    /// The number of values held.
    pub fn len(&self) -> (n: usize)
        ensures
            n == self@.len(),
    {
        self.d.len()
    }
}

} // verus!
