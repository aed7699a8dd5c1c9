//! A list that grows and shrinks at both ends.

use vstd::prelude::*;
use std::collections::VecDeque;

verus! {

/// A list with a front and a back.
pub struct DoublyLinkedList<T> {
    items: VecDeque<T>,
}

impl<T> View for DoublyLinkedList<T> {
    type V = Seq<T>;

    /// The elements from the front to the back.
    closed spec fn view(&self) -> Seq<T> {
        self.items@
    }
}

impl<T> DoublyLinkedList<T> {
    /// The empty list.
    pub fn new() -> (list: Self)
        ensures
            list@ == Seq::<T>::empty(),
    {
        DoublyLinkedList { items: VecDeque::new() }
    }

    /// Whether the list holds no element.
    pub fn is_empty(&self) -> (empty: bool)
        ensures
            empty == (self@.len() == 0),
    {
        self.items.len() == 0
    }

    /// The number of elements.
    pub fn len(&self) -> (n: usize)
        ensures
            n == self@.len(),
    {
        self.items.len()
    }

    /// Puts `elem` at the front.
    pub fn push_front(&mut self, elem: T)
        ensures
            final(self)@ == seq![elem] + old(self)@,
    {
        self.items.push_front(elem)
    }

    /// Puts `elem` at the back.
    pub fn push_back(&mut self, elem: T)
        ensures
            final(self)@ == old(self)@.push(elem),
    {
        self.items.push_back(elem)
    }

    /// Removes every element.
    pub fn clear(&mut self)
        ensures
            final(self)@ == Seq::<T>::empty(),
    {
        self.items.clear()
    }

    /// Takes the front element off, if there is one.
    fn pop_front_value(&mut self) -> (front: Option<T>)
        ensures
            match front {
                Some(x) => old(self)@.len() > 0 && x == old(self)@[0] && final(self)@ == old(
                    self,
                )@.subrange(1, old(self)@.len() as int),
                None => old(self)@.len() == 0 && final(self)@ == old(self)@,
            },
    {
        self.items.pop_front()
    }

    /// Takes the back element off, if there is one.
    fn pop_back_value(&mut self) -> (back: Option<T>)
        ensures
            match back {
                Some(x) => old(self)@.len() > 0 && x == old(self)@.last() && final(self)@ == old(
                    self,
                )@.drop_last(),
                None => old(self)@.len() == 0 && final(self)@ == old(self)@,
            },
    {
        self.items.pop_back()
    }

    /// The elements from the front to the back, leaving the list.
    pub fn into_iter(self) -> (it: std::vec::IntoIter<T>)
        ensures
            vstd::std_specs::vec::into_iter_elts(it) == self@,
    {
        let mut list = self;
        let mut out: Vec<T> = Vec::new();
        loop
            invariant
                out@ + list@ == self@,
            ensures
                out@ == self@,
            decreases list@.len(),
        {
            match list.pop_front_value() {
                None => {
                    assert(out@ + list@ =~= out@);
                    break;
                },
                Some(x) => {
                    let ghost before = out@;
                    out.push(x);
                    assert(out@ + list@ =~= self@);
                },
            }
        }
        out.into_iter()
    }
}

impl<T: Clone> DoublyLinkedList<T> {
    /// A copy of the front element, if there is one.
    pub fn peek_front(&self) -> (front: Option<T>)
        ensures
            match front {
                Some(x) => self@.len() > 0 && cloned(self@[0], x),
                None => self@.len() == 0,
            },
    {
        if self.items.len() == 0 {
            None
        } else {
            Some(self.items[0].clone())
        }
    }

    /// A copy of the back element, if there is one.
    pub fn peek_back(&self) -> (back: Option<T>)
        ensures
            match back {
                Some(x) => self@.len() > 0 && cloned(self@.last(), x),
                None => self@.len() == 0,
            },
    {
        if self.items.len() == 0 {
            None
        } else {
            Some(self.items[self.items.len() - 1].clone())
        }
    }

    /// Takes the front element off and returns a copy of it, if there is
    /// one.
    pub fn pop_front_cloned(&mut self) -> (front: Option<T>)
        ensures
            match front {
                Some(x) => old(self)@.len() > 0 && cloned(old(self)@[0], x) && final(self)@ == old(
                    self,
                )@.subrange(1, old(self)@.len() as int),
                None => old(self)@.len() == 0 && final(self)@ == old(self)@,
            },
    {
        match self.peek_front() {
            None => None,
            Some(val) => {
                let _ = self.pop_front_value();
                Some(val)
            },
        }
    }

    /// Takes the back element off and returns a copy of it, if there is one.
    pub fn pop_back_cloned(&mut self) -> (back: Option<T>)
        ensures
            match back {
                Some(x) => old(self)@.len() > 0 && cloned(old(self)@.last(), x) && final(self)@
                    == old(self)@.drop_last(),
                None => old(self)@.len() == 0 && final(self)@ == old(self)@,
            },
    {
        match self.peek_back() {
            None => None,
            Some(val) => {
                let _ = self.pop_back_value();
                Some(val)
            },
        }
    }
}

} // verus!
