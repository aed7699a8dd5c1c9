//! A growable list backed by a vector.

use vstd::prelude::*;

verus! {

/// A list of values in insertion order.
#[derive(Clone, Debug)]
pub struct ArrayList<T> {
    inner: Vec<T>,
}

impl<T> View for ArrayList<T> {
    type V = Seq<T>;

    /// The values in order.
    closed spec fn view(&self) -> Seq<T> {
        self.inner@
    }
}

impl<T> Default for ArrayList<T> {
    fn default() -> (list: Self)
        ensures
            list@ == Seq::<T>::empty(),
    {
        ArrayList { inner: Vec::new() }
    }
}

impl<T> ArrayList<T> {
    /// The empty list.
    pub fn new() -> (list: Self)
        ensures
            list@ == Seq::<T>::empty(),
    {
        ArrayList { inner: Vec::new() }
    }

    /// The empty list, with room for `n` values.
    pub fn with_capacity(n: usize) -> (list: Self)
        ensures
            list@ == Seq::<T>::empty(),
    {
        ArrayList { inner: Vec::with_capacity(n) }
    }

    /// The number of values held.
    pub fn len(&self) -> (n: usize)
        ensures
            n == self@.len(),
    {
        self.inner.len()
    }

    /// Whether the list holds no value.
    pub fn is_empty(&self) -> (empty: bool)
        ensures
            empty == (self@.len() == 0),
    {
        self.inner.len() == 0
    }

    /// Appends `v`.
    pub fn push(&mut self, v: T)
        ensures
            final(self)@ == old(self)@.push(v),
    {
        self.inner.push(v)
    }

    /// Takes the last value off, if there is one.
    pub fn pop(&mut self) -> (last: Option<T>)
        ensures
            match last {
                Some(x) => old(self)@.len() > 0 && x == old(self)@.last() && final(self)@ == old(
                    self,
                )@.drop_last(),
                None => old(self)@.len() == 0 && final(self)@ == old(self)@,
            },
    {
        self.inner.pop()
    }

    /// The value at `idx`, if the list is that long.
    pub fn get(&self, idx: usize) -> (found: Option<&T>)
        ensures
            match found {
                Some(x) => idx < self@.len() && *x == self@[idx as int],
                None => idx >= self@.len(),
            },
    {
        if idx < self.inner.len() {
            Some(&self.inner[idx])
        } else {
            None
        }
    }

    /// A mutable reference to the value at `idx`, if the list is that long.
    /// The rest of the list stays as it is.
    pub fn get_mut(&mut self, idx: usize) -> (found: Option<&mut T>)
        ensures
            match found {
                Some(x) => idx < old(self)@.len() && *x == old(self)@[idx as int] && final(self)@
                    == old(self)@.update(idx as int, *final(x)),
                None => idx >= old(self)@.len() && final(self)@ == old(self)@,
            },
    {
        if idx < self.inner.len() {
            Some(&mut self.inner[idx])
        } else {
            None
        }
    }

    /// The values from `range.start` up to `range.end`.
    pub fn slice(&self, range: core::ops::Range<usize>) -> (part: &[T])
        requires
            range.start <= range.end <= self@.len(),
        ensures
            part@ == self@.subrange(range.start as int, range.end as int),
    {
        &self.inner.as_slice()[range]
    }

    /// The values from `range.start` up to `range.end`, to be changed in place.
    pub fn slice_mut(&mut self, range: core::ops::Range<usize>) -> (part: &mut [T])
        requires
            range.start <= range.end <= old(self)@.len(),
        ensures
            part@ == old(self)@.subrange(range.start as int, range.end as int),
            final(self)@ == old(self)@.subrange(0, range.start as int) + final(part)@ + old(
                self,
            )@.subrange(range.end as int, old(self)@.len() as int),
    {
        let whole = self.inner.as_mut_slice();
        let (_, rest) = whole.split_at_mut(range.start);
        let (part, _) = rest.split_at_mut(range.end - range.start);
        part
    }

    /// An iterator over the values in order.
    pub fn iter(&self) -> (it: core::slice::Iter<'_, T>)
        ensures
            vstd::std_specs::slice::into_iter_elts(it) == self@,
    {
        broadcast use vstd::std_specs::slice::axiom_spec_slice_iter;

        let it = self.inner.as_slice().iter();
        assert(vstd::std_specs::slice::into_iter_elts(it) =~= self@);
        it
    }

    /// The values as a vector.
    pub fn into_vec(self) -> (v: Vec<T>)
        ensures
            v@ == self@,
    {
        self.inner
    }
}

} // verus!
