//! Counting how often each key occurs.

use vstd::prelude::*;
use std::collections::HashMap;
use std::hash::Hash;
use vstd::std_specs::hash::obeys_key_model;

verus! {

broadcast use vstd::std_specs::hash::group_hash_axioms;

/// A count for each key; keys that are absent count zero.
#[derive(Debug)]
pub struct FreqMap<T: Eq + Hash> {
    pub m: HashMap<T, usize>,
}

impl<T: Eq + Hash> View for FreqMap<T> {
    type V = Map<T, usize>;

    /// The count of every key that is present.
    open spec fn view(&self) -> Map<T, usize> {
        self.m@
    }
}

impl<T: Eq + Hash> FreqMap<T> {
    /// The count of `k`: zero when it is absent.
    pub open spec fn count(&self, k: T) -> nat {
        if self@.contains_key(k) {
            self@[k] as nat
        } else {
            0
        }
    }

    /// No key is present with count zero.
    pub open spec fn wf(&self) -> bool {
        forall|k: T| self@.contains_key(k) ==> #[trigger] self@[k] > 0
    }

    /// The map in which every key counts zero.
    pub fn new() -> (f: Self)
        ensures
            f@ == Map::<T, usize>::empty(),
            f.wf(),
    {
        FreqMap { m: HashMap::new() }
    }

    /// The count of `k`.
    pub fn get(&self, k: &T) -> (n: usize)
        ensures
            obeys_key_model::<T>() ==> n == self.count(*k),
    {
        match self.m.get(k) {
            Some(v) => *v,
            None => 0,
        }
    }

    /// Raises the count of `k` by one.
    pub fn inc(&mut self, k: T)
        requires
            old(self).count(k) < usize::MAX,
        ensures
            obeys_key_model::<T>() ==> final(self)@ == old(self)@.insert(
                k,
                (old(self).count(k) + 1) as usize,
            ),
            obeys_key_model::<T>() && old(self).wf() ==> final(self).wf(),
    {
        let n = self.get(&k);
        if n < usize::MAX {
            self.m.insert(k, n + 1);
        }
    }

    /// The number of keys present.
    pub fn len(&self) -> (n: usize)
        ensures
            obeys_key_model::<T>() ==> n == self@.len(),
    {
        self.m.len()
    }

    /// Whether no key is present.
    pub fn is_empty(&self) -> (empty: bool)
        ensures
            obeys_key_model::<T>() ==> empty == (self@.len() == 0),
    {
        self.m.len() == 0
    }
}

impl<T: Eq + Hash + Clone> FreqMap<T> {
    /// Lowers the count of `k` by one; a key whose count reaches zero is no
    /// longer present. A key that is absent stays absent.
    pub fn dec(&mut self, k: &T)
        ensures
            obeys_key_model::<T>() ==> (if old(self).count(*k) > 1 {
                exists|copy: T|
                    cloned(*k, copy) && final(self)@ == old(self)@.insert(
                        copy,
                        (old(self).count(*k) - 1) as usize,
                    )
            } else {
                final(self)@ == old(self)@.remove(*k)
            }),
    {
        let n = self.get(k);
        if n > 1 {
            let copy = k.clone();
            let ghost kept = copy;
            self.m.insert(copy, n - 1);
            proof {
                if obeys_key_model::<T>() {
                    assert(cloned(*k, kept) && self@ == old(self)@.insert(
                        kept,
                        (old(self).count(*k) - 1) as usize,
                    ));
                }
            }
        } else {
            self.m.remove(k);
        }
    }
}

} // verus!
