//! A set of hashable values.

use vstd::prelude::*;
use std::collections::HashSet;
use std::hash::Hash;
use vstd::std_specs::hash::obeys_key_model;

verus! {

broadcast use vstd::std_specs::hash::group_hash_axioms;

/// A set of values.
#[derive(Debug)]
pub struct HashSetExt<T: Eq + Hash>(pub HashSet<T>);

impl<T: Eq + Hash> View for HashSetExt<T> {
    type V = Set<T>;

    /// The members.
    open spec fn view(&self) -> Set<T> {
        self.0@
    }
}

impl<T: Eq + Hash> From<HashSet<T>> for HashSetExt<T> {
    fn from(s: HashSet<T>) -> (set: Self) {
        HashSetExt(s)
    }
}

impl<T: Eq + Hash> vstd::std_specs::convert::FromSpecImpl<HashSet<T>> for HashSetExt<T> {
    open spec fn obeys_from_spec() -> bool {
        true
    }

    open spec fn from_spec(s: HashSet<T>) -> Self {
        HashSetExt(s)
    }
}

impl<T: Eq + Hash> HashSetExt<T> {
    /// The empty set.
    pub fn new() -> (s: Self)
        ensures
            s@ == Set::<T>::empty(),
    {
        HashSetExt(HashSet::new())
    }

    /// Adds `v` and says whether it was missing.
    pub fn insert(&mut self, v: T) -> (fresh: bool)
        ensures
            obeys_key_model::<T>() ==> final(self)@ == old(self)@.insert(v),
            obeys_key_model::<T>() ==> fresh == !old(self)@.contains(v),
    {
        self.0.insert(v)
    }

    /// Whether `v` is a member.
    pub fn contains(&self, v: &T) -> (member: bool)
        ensures
            obeys_key_model::<T>() ==> member == self@.contains(*v),
    {
        self.0.contains(v)
    }

    /// The number of members.
    pub fn len(&self) -> (n: usize)
        ensures
            obeys_key_model::<T>() ==> n == self@.len(),
    {
        self.0.len()
    }

    /// Whether there is no member.
    pub fn is_empty(&self) -> (empty: bool)
        ensures
            empty == self@.is_empty(),
    {
        self.0.is_empty()
    }

    /// Adds every value of `items`.
    pub fn extend(&mut self, items: Vec<T>)
        ensures
            obeys_key_model::<T>() ==> final(self)@ == old(self)@.union(items@.to_set()),
    {
        let ghost all = items@;
        let mut items = items;
        proof {
            assert(old(self)@.union(Seq::<T>::empty().to_set()) =~= old(self)@);
        }
        loop
            invariant
                items@.len() <= all.len(),
                items@ == all.subrange(0, items@.len() as int),
                obeys_key_model::<T>() ==> self@.union(items@.to_set()) == old(self)@.union(
                    all.to_set(),
                ),
            ensures
                items@.len() == 0,
                obeys_key_model::<T>() ==> self@.union(items@.to_set()) == old(self)@.union(
                    all.to_set(),
                ),
            decreases items@.len(),
        {
            let ghost before = items@;
            let ghost set_before = self@;
            match items.pop() {
                None => {
                    break;
                },
                Some(x) => {
                    self.0.insert(x);
                    proof {
                        if obeys_key_model::<T>() {
                            assert(items@ =~= all.subrange(0, items@.len() as int));
                            assert(before =~= items@.push(x));
                            assert(self@.union(items@.to_set()) =~= set_before.union(
                                before.to_set(),
                            )) by {
                                assert forall|e: T|
                                    before.to_set().contains(e) <==> (items@.to_set().contains(e)
                                        || e == x) by {
                                    if before.contains(e) {
                                        let i = choose|i: int| 0 <= i < before.len() && before[i] == e;
                                        if i < items@.len() {
                                            assert(items@[i] == e);
                                        }
                                    }
                                    if items@.contains(e) {
                                        let i = choose|i: int| 0 <= i < items@.len() && items@[i] == e;
                                        assert(before[i] == e);
                                    }
                                    if e == x {
                                        assert(before[before.len() - 1] == e);
                                    }
                                }
                            }
                        }
                    }
                },
            }
        }
        proof {
            assert(items@.to_set() =~= Set::<T>::empty());
            assert(self@.union(Set::<T>::empty()) =~= self@);
        }
    }

    /// Removes every member.
    pub fn clear(&mut self)
        ensures
            final(self)@ == Set::<T>::empty(),
    {
        self.0.clear()
    }
}

} // verus!
