//! Priority queues.
//!
//! Both queues keep their items in a vector ordered so that the next item to
//! leave is the last one. What they promise of the order holds for item
//! types whose comparison is a total order.

use core::cmp::Ordering;
use vstd::prelude::*;
use vstd::std_specs::cmp::OrdSpec;
use crate::ds::tree_map::{before, keys_ordered};

verus! {

/// The position `p` as an integer.
pub open spec fn place(p: usize) -> int {
    p as int
}

/// No item comes before an earlier one.
pub open spec fn ascending<T: Ord>(s: Seq<T>) -> bool {
    forall|i: int, j: int| 0 <= i < j < s.len() ==> !before(#[trigger] s[j], #[trigger] s[i])
}

/// No item comes before a later one.
pub open spec fn descending<T: Ord>(s: Seq<T>) -> bool {
    forall|i: int, j: int| 0 <= i < j < s.len() ==> !before(#[trigger] s[i], #[trigger] s[j])
}

/// Of two items at most one comes before the other.
pub proof fn lemma_not_both<T: Ord>(a: T, b: T)
    requires
        keys_ordered::<T>(),
    ensures
        !(before(a, b) && before(b, a)),
        !before(a, a),
{
    if before(a, b) && before(b, a) {
        assert(before(a, a));
    }
    assert(a.cmp_spec(&a) == Ordering::Equal);
}

/// Where `c` is not before `a`, and `a` not before `b`, `c` is not before
/// `b`; and where `a` is not before `c`, and `b` not before `a`, `b` is not
/// before `c`.
pub proof fn lemma_three<T: Ord>(a: T, b: T, c: T)
    requires
        keys_ordered::<T>(),
    ensures
        !before(a, c) && !before(b, a) ==> !before(b, c),
        !before(c, a) && !before(a, b) ==> !before(c, b),
{
    lemma_not_both(a, b);
    lemma_not_both(a, c);
    lemma_not_both(b, c);
    if !before(a, c) && !before(b, a) && before(b, c) {
        if a == c {
        } else {
            assert(c.cmp_spec(&a) != Ordering::Equal);
            assert(a.cmp_spec(&c) == Ordering::Greater || a.cmp_spec(&c) == Ordering::Equal);
            assert(before(c, a));
            assert(before(b, a));
        }
    }
    if !before(c, a) && !before(a, b) && before(c, b) {
        if a == c {
        } else {
            assert(c.cmp_spec(&a) == Ordering::Greater || c.cmp_spec(&a) == Ordering::Equal);
            assert(before(a, c));
            assert(before(a, b));
        }
    }
}

/// The first position from `i` on whose item is not before `x`.
pub open spec fn rank_up<T: Ord>(s: Seq<T>, x: T, i: int) -> int
    decreases s.len() - i,
{
    if 0 <= i < s.len() && before(s[i], x) {
        rank_up(s, x, i + 1)
    } else {
        i
    }
}

/// Every item from `i` up to the rank is before `x`, and the item at the
/// rank is not.
pub proof fn lemma_rank_up<T: Ord>(s: Seq<T>, x: T, i: int)
    requires
        0 <= i <= s.len(),
    ensures
        i <= rank_up(s, x, i) <= s.len(),
        forall|k: int| i <= k < rank_up(s, x, i) ==> before(#[trigger] s[k], x),
        rank_up(s, x, i) < s.len() ==> !before(s[rank_up(s, x, i)], x),
    decreases s.len() - i,
{
    if i < s.len() && before(s[i], x) {
        lemma_rank_up(s, x, i + 1);
    }
}

/// The rank of `x` among the items, found by comparing from the front.
fn rank_up_of<T: Ord>(items: &Vec<T>, x: &T) -> (p: usize)
    ensures
        p <= items@.len(),
        keys_ordered::<T>() ==> place(p) == rank_up(items@, *x, 0),
{
    let mut p: usize = 0;
    loop
        invariant
            p <= items@.len(),
            keys_ordered::<T>() ==> rank_up(items@, *x, place(p)) == rank_up(items@, *x, 0),
        ensures
            p <= items@.len(),
            keys_ordered::<T>() ==> place(p) == rank_up(items@, *x, 0),
        decreases items@.len() - p,
    {
        if p >= items.len() {
            break;
        }
        match items[p].cmp(x) {
            Ordering::Less => {
                p += 1;
            },
            _ => {
                break;
            },
        }
    }
    p
}

/// Putting `x` at its rank keeps the items in ascending order.
pub proof fn lemma_insert_ascending<T: Ord>(s: Seq<T>, x: T)
    requires
        keys_ordered::<T>(),
        ascending(s),
    ensures
        ascending(s.insert(rank_up(s, x, 0), x)),
{
    let p = rank_up(s, x, 0);
    lemma_rank_up(s, x, 0);
    let w = s.insert(p, x);
    assert forall|i: int, j: int| 0 <= i < j < w.len() implies !before(#[trigger] w[j], #[trigger] w[i]) by {
        if j < p {
            assert(w[i] == s[i] && w[j] == s[j]);
        } else if j == p {
            assert(w[i] == s[i] && w[j] == x);
            assert(before(s[i], x));
            lemma_not_both(s[i], x);
        } else if i < p {
            assert(w[i] == s[i] && w[j] == s[j - 1]);
        } else if i == p {
            assert(w[i] == x && w[j] == s[j - 1]);
            assert(!before(s[p], x));
            if j - 1 > p {
                assert(!before(s[j - 1], s[p]));
            }
            lemma_three(s[p], s[j - 1], x);
        } else {
            assert(w[i] == s[i - 1] && w[j] == s[j - 1]);
        }
    }
}

/// The first position from `i` on whose item is not after `x`.
pub open spec fn rank_down<T: Ord>(s: Seq<T>, x: T, i: int) -> int
    decreases s.len() - i,
{
    if 0 <= i < s.len() && before(x, s[i]) {
        rank_down(s, x, i + 1)
    } else {
        i
    }
}

/// Every item from `i` up to the rank is after `x`, and the item at the
/// rank is not.
pub proof fn lemma_rank_down<T: Ord>(s: Seq<T>, x: T, i: int)
    requires
        0 <= i <= s.len(),
    ensures
        i <= rank_down(s, x, i) <= s.len(),
        forall|k: int| i <= k < rank_down(s, x, i) ==> before(x, #[trigger] s[k]),
        rank_down(s, x, i) < s.len() ==> !before(x, s[rank_down(s, x, i)]),
    decreases s.len() - i,
{
    if i < s.len() && before(x, s[i]) {
        lemma_rank_down(s, x, i + 1);
    }
}

/// The rank of `x` among the items, found by comparing from the front.
fn rank_down_of<T: Ord>(items: &Vec<T>, x: &T) -> (p: usize)
    ensures
        p <= items@.len(),
        keys_ordered::<T>() ==> place(p) == rank_down(items@, *x, 0),
{
    let mut p: usize = 0;
    loop
        invariant
            p <= items@.len(),
            keys_ordered::<T>() ==> rank_down(items@, *x, place(p)) == rank_down(items@, *x, 0),
        ensures
            p <= items@.len(),
            keys_ordered::<T>() ==> place(p) == rank_down(items@, *x, 0),
        decreases items@.len() - p,
    {
        if p >= items.len() {
            break;
        }
        match items[p].cmp(x) {
            Ordering::Greater => {
                p += 1;
            },
            _ => {
                break;
            },
        }
    }
    p
}

/// Putting `x` at its rank keeps the items in descending order.
pub proof fn lemma_insert_descending<T: Ord>(s: Seq<T>, x: T)
    requires
        keys_ordered::<T>(),
        descending(s),
    ensures
        descending(s.insert(rank_down(s, x, 0), x)),
{
    let p = rank_down(s, x, 0);
    lemma_rank_down(s, x, 0);
    let w = s.insert(p, x);
    assert forall|i: int, j: int| 0 <= i < j < w.len() implies !before(#[trigger] w[i], #[trigger] w[j]) by {
        if j < p {
            assert(w[i] == s[i] && w[j] == s[j]);
        } else if j == p {
            assert(w[i] == s[i] && w[j] == x);
            assert(before(x, s[i]));
            lemma_not_both(s[i], x);
        } else if i < p {
            assert(w[i] == s[i] && w[j] == s[j - 1]);
        } else if i == p {
            assert(w[i] == x && w[j] == s[j - 1]);
            assert(!before(x, s[p]));
            if j - 1 > p {
                assert(!before(s[p], s[j - 1]));
            }
            lemma_three(s[p], s[j - 1], x);
        } else {
            assert(w[i] == s[i - 1] && w[j] == s[j - 1]);
        }
    }
}

/// A queue from which the greatest item leaves first.
#[derive(Clone, Debug)]
pub struct MaxHeap<T: Ord> {
    items: Vec<T>,
}

impl<T: Ord> View for MaxHeap<T> {
    type V = Seq<T>;

    /// The items from the least to the greatest.
    closed spec fn view(&self) -> Seq<T> {
        self.items@
    }
}

impl<T: Ord> Default for MaxHeap<T> {
    fn default() -> (h: Self)
        ensures
            h.wf(),
            h@ == Seq::<T>::empty(),
    {
        MaxHeap { items: Vec::new() }
    }
}

impl<T: Ord> MaxHeap<T> {
    /// The items are in ascending order.
    pub open spec fn wf(&self) -> bool {
        ascending(self@)
    }

    /// The empty queue.
    pub fn new() -> (h: Self)
        ensures
            h.wf(),
            h@ == Seq::<T>::empty(),
    {
        MaxHeap { items: Vec::new() }
    }

    /// Adds `x`: it takes its place before the first item that is not
    /// before it.
    pub fn push(&mut self, x: T)
        requires
            old(self).wf(),
        ensures
            final(self)@.len() == old(self)@.len() + 1,
            keys_ordered::<T>() ==> {
                &&& final(self).wf()
                &&& final(self)@ == old(self)@.insert(rank_up(old(self)@, x, 0), x)
                &&& 0 <= rank_up(old(self)@, x, 0) <= old(self)@.len()
            },
    {
        let p = rank_up_of(&self.items, &x);
        proof {
            if keys_ordered::<T>() {
                lemma_rank_up(self.items@, x, 0);
                lemma_insert_ascending(self.items@, x);
            }
        }
        self.items.insert(p, x);
    }

    /// Takes the greatest item out, if there is one.
    pub fn pop(&mut self) -> (top: Option<T>)
        requires
            old(self).wf(),
        ensures
            final(self).wf(),
            match top {
                Some(x) => {
                    &&& old(self)@.len() > 0
                    &&& x == old(self)@.last()
                    &&& final(self)@ == old(self)@.drop_last()
                    &&& forall|i: int|
                        0 <= i < old(self)@.len() - 1 ==> !before(x, #[trigger] old(self)@[i])
                },
                None => old(self)@.len() == 0 && final(self)@ == old(self)@,
            },
    {
        self.items.pop()
    }

    /// The greatest item, if there is one.
    pub fn peek(&self) -> (top: Option<&T>)
        requires
            self.wf(),
        ensures
            match top {
                Some(x) => {
                    &&& self@.len() > 0
                    &&& *x == self@.last()
                    &&& forall|i: int|
                        0 <= i < self@.len() - 1 ==> !before(*x, #[trigger] self@[i])
                },
                None => self@.len() == 0,
            },
    {
        let n = self.items.len();
        if n == 0 {
            None
        } else {
            Some(&self.items[n - 1])
        }
    }

    /// The number of items.
    pub fn len(&self) -> (n: usize)
        ensures
            n == self@.len(),
    {
        self.items.len()
    }

    /// Whether the queue holds no item.
    pub fn is_empty(&self) -> (empty: bool)
        ensures
            empty == (self@.len() == 0),
    {
        self.items.len() == 0
    }
}

/// A queue from which the least item leaves first.
#[derive(Clone, Debug)]
pub struct MinHeap<T: Ord> {
    items: Vec<T>,
}

impl<T: Ord> View for MinHeap<T> {
    type V = Seq<T>;

    /// The items from the greatest to the least.
    closed spec fn view(&self) -> Seq<T> {
        self.items@
    }
}

impl<T: Ord> Default for MinHeap<T> {
    fn default() -> (h: Self)
        ensures
            h.wf(),
            h@ == Seq::<T>::empty(),
    {
        MinHeap { items: Vec::new() }
    }
}

impl<T: Ord> MinHeap<T> {
    /// The items are in descending order.
    pub open spec fn wf(&self) -> bool {
        descending(self@)
    }

    /// The empty queue.
    pub fn new() -> (h: Self)
        ensures
            h.wf(),
            h@ == Seq::<T>::empty(),
    {
        MinHeap { items: Vec::new() }
    }

    /// Adds `x`: it takes its place before the first item that is not
    /// after it.
    pub fn push(&mut self, x: T)
        requires
            old(self).wf(),
        ensures
            final(self)@.len() == old(self)@.len() + 1,
            keys_ordered::<T>() ==> {
                &&& final(self).wf()
                &&& final(self)@ == old(self)@.insert(rank_down(old(self)@, x, 0), x)
                &&& 0 <= rank_down(old(self)@, x, 0) <= old(self)@.len()
            },
    {
        let p = rank_down_of(&self.items, &x);
        proof {
            if keys_ordered::<T>() {
                lemma_rank_down(self.items@, x, 0);
                lemma_insert_descending(self.items@, x);
            }
        }
        self.items.insert(p, x);
    }

    /// Takes the least item out, if there is one.
    pub fn pop(&mut self) -> (top: Option<T>)
        requires
            old(self).wf(),
        ensures
            final(self).wf(),
            match top {
                Some(x) => {
                    &&& old(self)@.len() > 0
                    &&& x == old(self)@.last()
                    &&& final(self)@ == old(self)@.drop_last()
                    &&& forall|i: int|
                        0 <= i < old(self)@.len() - 1 ==> !before(#[trigger] old(self)@[i], x)
                },
                None => old(self)@.len() == 0 && final(self)@ == old(self)@,
            },
    {
        self.items.pop()
    }

    /// The least item, if there is one.
    pub fn peek(&self) -> (top: Option<&T>)
        requires
            self.wf(),
        ensures
            match top {
                Some(x) => {
                    &&& self@.len() > 0
                    &&& *x == self@.last()
                    &&& forall|i: int|
                        0 <= i < self@.len() - 1 ==> !before(#[trigger] self@[i], *x)
                },
                None => self@.len() == 0,
            },
    {
        let n = self.items.len();
        if n == 0 {
            None
        } else {
            Some(&self.items[n - 1])
        }
    }

    /// The number of items.
    pub fn len(&self) -> (n: usize)
        ensures
            n == self@.len(),
    {
        self.items.len()
    }

    /// Whether the queue holds no item.
    pub fn is_empty(&self) -> (empty: bool)
        ensures
            empty == (self@.len() == 0),
    {
        self.items.len() == 0
    }
}

} // verus!
