//! Monotonic queues for sliding-window minima and maxima.
//!
//! What they promise of the order holds for item types whose comparison is
//! a total order.

use core::cmp::Ordering;
use std::collections::VecDeque;
use vstd::prelude::*;
use crate::ds::heap::lemma_three;
use crate::ds::tree_map::{before, keys_ordered};

verus! {

/// The number of items.
pub open spec fn count<T>(s: Seq<T>) -> int {
    s.len() as int
}

/// No item comes before an earlier one.
pub open spec fn rising<T: Ord>(s: Seq<T>) -> bool {
    forall|i: int, j: int| 0 <= i < j < s.len() ==> !before(#[trigger] s[j], #[trigger] s[i])
}

/// No item comes before a later one.
pub open spec fn falling<T: Ord>(s: Seq<T>) -> bool {
    forall|i: int, j: int| 0 <= i < j < s.len() ==> !before(#[trigger] s[i], #[trigger] s[j])
}

/// Whether the two items are the same.
fn same<T: Ord>(a: &T, b: &T) -> (equal: bool)
    ensures
        keys_ordered::<T>() ==> equal == (*a == *b),
{
    match a.cmp(b) {
        Ordering::Equal => true,
        _ => false,
    }
}

/// The number of leading items of `s` that are left when `x` joins at the
/// back: the items at the back that are after `x` go.
pub open spec fn kept_min<T: Ord>(s: Seq<T>, x: T) -> int
    decreases s.len(),
{
    if s.len() > 0 && before(x, s.last()) {
        kept_min(s.drop_last(), x)
    } else {
        count(s)
    }
}

/// What is left is a front part, and its last item is not after `x`.
pub proof fn lemma_kept_min<T: Ord>(s: Seq<T>, x: T)
    ensures
        0 <= kept_min(s, x) <= s.len(),
        kept_min(s, x) > 0 ==> !before(x, s[kept_min(s, x) - 1]),
    decreases s.len(),
{
    if s.len() > 0 && before(x, s.last()) {
        lemma_kept_min(s.drop_last(), x);
    }
}

/// Drops from the back every item that is after `x`.
fn drop_above<T: Ord + Copy>(dq: &mut VecDeque<T>, x: T)
    ensures
        final(dq)@.len() <= old(dq)@.len(),
        final(dq)@ == old(dq)@.subrange(0, count(final(dq)@)),
        keys_ordered::<T>() ==> count(final(dq)@) == kept_min(old(dq)@, x),
{
    let ghost start = dq@;
    proof {
        assert(dq@ =~= start.subrange(0, count(dq@)));
    }
    loop
        invariant
            dq@.len() <= start.len(),
            dq@ == start.subrange(0, count(dq@)),
            keys_ordered::<T>() ==> kept_min(dq@, x) == kept_min(start, x),
        ensures
            dq@.len() <= start.len(),
            dq@ == start.subrange(0, count(dq@)),
            keys_ordered::<T>() ==> count(dq@) == kept_min(start, x),
        decreases dq@.len(),
    {
        if dq.len() == 0 {
            break;
        }
        let back = dq[dq.len() - 1];
        match back.cmp(&x) {
            Ordering::Greater => {
                let ghost cur = dq@;
                dq.pop_back();
                assert(dq@ =~= cur.drop_last());
                assert(dq@ =~= start.subrange(0, count(dq@)));
            },
            _ => {
                break;
            },
        }
    }
}

/// A queue whose front is the least item of the window.
#[derive(Clone, Debug)]
pub struct MonotonicQueueMin<T: Ord + Copy> {
    dq: VecDeque<T>,
}

impl<T: Ord + Copy> View for MonotonicQueueMin<T> {
    type V = Seq<T>;

    /// The items from the front to the back.
    closed spec fn view(&self) -> Seq<T> {
        self.dq@
    }
}

impl<T: Ord + Copy> Default for MonotonicQueueMin<T> {
    fn default() -> (q: Self)
        ensures
            q@ == Seq::<T>::empty(),
    {
        MonotonicQueueMin { dq: VecDeque::new() }
    }
}

impl<T: Ord + Copy> MonotonicQueueMin<T> {
    /// The empty queue.
    pub fn new() -> (q: Self)
        ensures
            q@ == Seq::<T>::empty(),
    {
        MonotonicQueueMin { dq: VecDeque::new() }
    }

    /// Adds `x` at the back, after dropping from the back every item that
    /// is after it.
    pub fn push(&mut self, x: T)
        ensures
            keys_ordered::<T>() ==> {
                &&& final(self)@ == old(self)@.subrange(0, kept_min(old(self)@, x)).push(x)
                &&& 0 <= kept_min(old(self)@, x) <= old(self)@.len()
                &&& (rising(old(self)@) ==> rising(final(self)@))
            },
    {
        let ghost start = self.dq@;
        drop_above(&mut self.dq, x);
        let ghost kept = self.dq@;
        self.dq.push_back(x);
        proof {
            if keys_ordered::<T>() {
                lemma_kept_min(start, x);
                if rising(start) {
                    let w = self.dq@;
                    assert forall|i: int, j: int| 0 <= i < j < w.len() implies !before(
                        #[trigger] w[j], #[trigger] w[i],
                    ) by {
                        if j < kept.len() {
                            assert(w[i] == start[i] && w[j] == start[j]);
                        } else {
                            let k = kept.len() - 1;
                            assert(w[i] == start[i] && w[j] == x);
                            if i < k {
                                assert(!before(start[k], start[i]));
                            }
                            lemma_three(start[k], x, start[i]);
                        }
                    }
                }
            }
        }
    }

    /// Drops the front when it is `x`.
    pub fn pop_if(&mut self, x: T)
        ensures
            keys_ordered::<T>() ==> final(self)@ == (if old(self)@.len() > 0 && old(self)@[0] == x {
                old(self)@.subrange(1, count(old(self)@))
            } else {
                old(self)@
            }),
    {
        if self.dq.len() > 0 && same(&self.dq[0], &x) {
            self.dq.pop_front();
        }
    }

    /// The front, which is the least item when the queue is rising.
    pub fn min(&self) -> (front: Option<T>)
        ensures
            match front {
                Some(x) => self@.len() > 0 && x == self@[0] && (rising(self@) ==> forall|i: int|
                    0 < i < self@.len() ==> !before(#[trigger] self@[i], x)),
                None => self@.len() == 0,
            },
    {
        if self.dq.len() == 0 {
            None
        } else {
            Some(self.dq[0])
        }
    }

    /// The number of items held.
    pub fn len(&self) -> (n: usize)
        ensures
            n == self@.len(),
    {
        self.dq.len()
    }

    /// Whether the queue holds no item.
    pub fn is_empty(&self) -> (empty: bool)
        ensures
            empty == (self@.len() == 0),
    {
        self.dq.len() == 0
    }
}

/// The number of leading items of `s` that are left when `x` joins at the
/// back: the items at the back that are before `x` go.
pub open spec fn kept_max<T: Ord>(s: Seq<T>, x: T) -> int
    decreases s.len(),
{
    if s.len() > 0 && before(s.last(), x) {
        kept_max(s.drop_last(), x)
    } else {
        count(s)
    }
}

/// What is left is a front part, and its last item is not before `x`.
pub proof fn lemma_kept_max<T: Ord>(s: Seq<T>, x: T)
    ensures
        0 <= kept_max(s, x) <= s.len(),
        kept_max(s, x) > 0 ==> !before(s[kept_max(s, x) - 1], x),
    decreases s.len(),
{
    if s.len() > 0 && before(s.last(), x) {
        lemma_kept_max(s.drop_last(), x);
    }
}

/// Drops from the back every item that is before `x`.
fn drop_below<T: Ord + Copy>(dq: &mut VecDeque<T>, x: T)
    ensures
        final(dq)@.len() <= old(dq)@.len(),
        final(dq)@ == old(dq)@.subrange(0, count(final(dq)@)),
        keys_ordered::<T>() ==> count(final(dq)@) == kept_max(old(dq)@, x),
{
    let ghost start = dq@;
    proof {
        assert(dq@ =~= start.subrange(0, count(dq@)));
    }
    loop
        invariant
            dq@.len() <= start.len(),
            dq@ == start.subrange(0, count(dq@)),
            keys_ordered::<T>() ==> kept_max(dq@, x) == kept_max(start, x),
        ensures
            dq@.len() <= start.len(),
            dq@ == start.subrange(0, count(dq@)),
            keys_ordered::<T>() ==> count(dq@) == kept_max(start, x),
        decreases dq@.len(),
    {
        if dq.len() == 0 {
            break;
        }
        let back = dq[dq.len() - 1];
        match back.cmp(&x) {
            Ordering::Less => {
                let ghost cur = dq@;
                dq.pop_back();
                assert(dq@ =~= cur.drop_last());
                assert(dq@ =~= start.subrange(0, count(dq@)));
            },
            _ => {
                break;
            },
        }
    }
}

/// A queue whose front is the greatest item of the window.
#[derive(Clone, Debug)]
pub struct MonotonicQueueMax<T: Ord + Copy> {
    dq: VecDeque<T>,
}

impl<T: Ord + Copy> View for MonotonicQueueMax<T> {
    type V = Seq<T>;

    /// The items from the front to the back.
    closed spec fn view(&self) -> Seq<T> {
        self.dq@
    }
}

impl<T: Ord + Copy> Default for MonotonicQueueMax<T> {
    fn default() -> (q: Self)
        ensures
            q@ == Seq::<T>::empty(),
    {
        MonotonicQueueMax { dq: VecDeque::new() }
    }
}

impl<T: Ord + Copy> MonotonicQueueMax<T> {
    /// The empty queue.
    pub fn new() -> (q: Self)
        ensures
            q@ == Seq::<T>::empty(),
    {
        MonotonicQueueMax { dq: VecDeque::new() }
    }

    /// Adds `x` at the back, after dropping from the back every item that
    /// is before it.
    pub fn push(&mut self, x: T)
        ensures
            keys_ordered::<T>() ==> {
                &&& final(self)@ == old(self)@.subrange(0, kept_max(old(self)@, x)).push(x)
                &&& 0 <= kept_max(old(self)@, x) <= old(self)@.len()
                &&& (falling(old(self)@) ==> falling(final(self)@))
            },
    {
        let ghost start = self.dq@;
        drop_below(&mut self.dq, x);
        let ghost kept = self.dq@;
        self.dq.push_back(x);
        proof {
            if keys_ordered::<T>() {
                lemma_kept_max(start, x);
                if falling(start) {
                    let w = self.dq@;
                    assert forall|i: int, j: int| 0 <= i < j < w.len() implies !before(
                        #[trigger] w[i], #[trigger] w[j],
                    ) by {
                        if j < kept.len() {
                            assert(w[i] == start[i] && w[j] == start[j]);
                        } else {
                            let k = kept.len() - 1;
                            assert(w[i] == start[i] && w[j] == x);
                            if i < k {
                                assert(!before(start[i], start[k]));
                            }
                            lemma_three(start[k], x, start[i]);
                        }
                    }
                }
            }
        }
    }

    /// Drops the front when it is `x`.
    pub fn pop_if(&mut self, x: T)
        ensures
            keys_ordered::<T>() ==> final(self)@ == (if old(self)@.len() > 0 && old(self)@[0] == x {
                old(self)@.subrange(1, count(old(self)@))
            } else {
                old(self)@
            }),
    {
        if self.dq.len() > 0 && same(&self.dq[0], &x) {
            self.dq.pop_front();
        }
    }

    /// The front, which is the greatest item when the queue is falling.
    pub fn max(&self) -> (front: Option<T>)
        ensures
            match front {
                Some(x) => self@.len() > 0 && x == self@[0] && (falling(self@) ==> forall|i: int|
                    0 < i < self@.len() ==> !before(x, #[trigger] self@[i])),
                None => self@.len() == 0,
            },
    {
        if self.dq.len() == 0 {
            None
        } else {
            Some(self.dq[0])
        }
    }

    /// The number of items held.
    pub fn len(&self) -> (n: usize)
        ensures
            n == self@.len(),
    {
        self.dq.len()
    }

    /// Whether the queue holds no item.
    pub fn is_empty(&self) -> (empty: bool)
        ensures
            empty == (self@.len() == 0),
    {
        self.dq.len() == 0
    }
}

} // verus!
