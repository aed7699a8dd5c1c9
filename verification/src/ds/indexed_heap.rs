//! A binary min-heap of numbered items whose priorities can change.

use vstd::prelude::*;

verus! {

/// A heap of the items `0 .. n`, each in the heap at most once, ordered by
/// priority.
#[derive(Clone, Debug)]
pub struct IndexedMinHeap {
    /// The items in heap order.
    heap: Vec<usize>,
    /// For each item its place in `heap`, if it is there.
    pos: Vec<Option<usize>>,
    /// For each item its priority, if it is in the heap.
    prio: Vec<Option<i64>>,
}

/// The priority of the item at place `k`.
pub open spec fn key_at(heap: Seq<usize>, prio: Seq<Option<i64>>, k: int) -> i64 {
    prio[heap[k] as int]->0
}

/// The places and priorities fit the heap: every item of the heap knows its
/// place and has a priority, and no other item has a place or a priority.
pub open spec fn linked(heap: Seq<usize>, pos: Seq<Option<usize>>, prio: Seq<Option<i64>>) -> bool {
    &&& pos.len() == prio.len()
    &&& forall|k: int|
        0 <= k < heap.len() ==> (#[trigger] heap[k]) < pos.len() && pos[heap[k] as int] == Some(
            k as usize,
        ) && prio[heap[k] as int] is Some
    &&& forall|i: int|
        0 <= i < pos.len() && (#[trigger] pos[i]) is Some ==> pos[i]->0 < heap.len() && heap[pos[i]->0 as int]
            == i
    &&& forall|i: int| 0 <= i < pos.len() && (#[trigger] prio[i]) is Some ==> pos[i] is Some
}

/// The item at place `k` is not before its parent.
pub open spec fn above_parent(heap: Seq<usize>, prio: Seq<Option<i64>>, k: int) -> bool {
    key_at(heap, prio, (k - 1) / 2) <= key_at(heap, prio, k)
}

/// No item is before its parent, except perhaps the item at place `hole`.
pub open spec fn ordered_but(heap: Seq<usize>, prio: Seq<Option<i64>>, hole: int) -> bool {
    forall|k: int| 1 <= k < heap.len() && k != hole ==> #[trigger] above_parent(heap, prio, k)
}

/// No item is before its parent, except perhaps the children of the item at
/// place `hole`.
pub open spec fn ordered_below(heap: Seq<usize>, prio: Seq<Option<i64>>, hole: int) -> bool {
    forall|k: int|
        1 <= k < heap.len() && (k - 1) / 2 != hole ==> #[trigger] above_parent(heap, prio, k)
}

/// The children of the item at place `hole` are not before its parent.
pub open spec fn bridged(heap: Seq<usize>, prio: Seq<Option<i64>>, hole: int) -> bool {
    hole >= 1 ==> forall|c: int|
        1 <= c < heap.len() && (c - 1) / 2 == hole ==> key_at(heap, prio, (hole - 1) / 2)
            <= #[trigger] key_at(heap, prio, c)
}

/// No item is before its parent.
pub open spec fn ordered(heap: Seq<usize>, prio: Seq<Option<i64>>) -> bool {
    forall|k: int| 1 <= k < heap.len() ==> #[trigger] above_parent(heap, prio, k)
}

/// In an ordered heap no item is before the first.
pub proof fn lemma_first_is_least(heap: Seq<usize>, prio: Seq<Option<i64>>, k: int)
    requires
        ordered(heap, prio),
        0 <= k < heap.len(),
    ensures
        key_at(heap, prio, 0) <= key_at(heap, prio, k),
    decreases k,
{
    if k > 0 {
        assert(above_parent(heap, prio, k));
        lemma_first_is_least(heap, prio, (k - 1) / 2);
    }
}

/// Exchanging an item with its parent, when it is before the parent, moves
/// the hole up.
proof fn lemma_swap_up(heap: Seq<usize>, prio: Seq<Option<i64>>, i: int)
    requires
        1 <= i < heap.len(),
        ordered_but(heap, prio, i),
        bridged(heap, prio, i),
        key_at(heap, prio, i) < key_at(heap, prio, (i - 1) / 2),
    ensures
        ordered_but(
            heap.update(i, heap[(i - 1) / 2]).update((i - 1) / 2, heap[i]),
            prio,
            (i - 1) / 2,
        ),
        bridged(
            heap.update(i, heap[(i - 1) / 2]).update((i - 1) / 2, heap[i]),
            prio,
            (i - 1) / 2,
        ),
{
    let p = (i - 1) / 2;
    let h2 = heap.update(i, heap[p]).update(p, heap[i]);
    assert forall|k: int| 1 <= k < h2.len() && k != p implies #[trigger] above_parent(
        h2,
        prio,
        k,
    ) by {
        let q = (k - 1) / 2;
        if k == i {
        } else if q == i {
            assert(key_at(heap, prio, (i - 1) / 2) <= key_at(heap, prio, k));
        } else if q == p {
            assert(above_parent(heap, prio, k));
        } else {
            assert(above_parent(heap, prio, k));
        }
    }
    if p >= 1 {
        assert(above_parent(heap, prio, p));
        assert forall|c: int| 1 <= c < h2.len() && (c - 1) / 2 == p implies key_at(
            h2,
            prio,
            (p - 1) / 2,
        ) <= #[trigger] key_at(h2, prio, c) by {
            if c != i {
                assert(above_parent(heap, prio, c));
            }
        }
    }
}

/// Exchanging an item with its least child, when the child is before it,
/// moves the hole down.
proof fn lemma_swap_down(heap: Seq<usize>, prio: Seq<Option<i64>>, i: int, m: int)
    requires
        0 <= i < heap.len(),
        i < m < heap.len(),
        (m - 1) / 2 == i,
        ordered_below(heap, prio, i),
        bridged(heap, prio, i),
        key_at(heap, prio, m) < key_at(heap, prio, i),
        forall|c: int| 1 <= c < heap.len() && (c - 1) / 2 == i ==> key_at(heap, prio, m) <= #[trigger] key_at(heap, prio, c),
    ensures
        ordered_below(heap.update(i, heap[m]).update(m, heap[i]), prio, m),
        bridged(heap.update(i, heap[m]).update(m, heap[i]), prio, m),
{
    let h2 = heap.update(i, heap[m]).update(m, heap[i]);
    assert forall|k: int| 1 <= k < h2.len() && (k - 1) / 2 != m implies #[trigger] above_parent(
        h2,
        prio,
        k,
    ) by {
        let q = (k - 1) / 2;
        if k == m {
        } else if q == i {
            assert(key_at(heap, prio, m) <= key_at(heap, prio, k));
        } else if k == i {
            assert(key_at(heap, prio, (i - 1) / 2) <= key_at(heap, prio, m));
        } else {
            assert(above_parent(heap, prio, k));
        }
    }
    assert forall|c: int| 1 <= c < h2.len() && (c - 1) / 2 == m implies key_at(
        h2,
        prio,
        (m - 1) / 2,
    ) <= #[trigger] key_at(h2, prio, c) by {
        assert(above_parent(heap, prio, c));
    }
}

impl View for IndexedMinHeap {
    type V = Map<int, i64>;

    /// The priority of every item in the heap.
    closed spec fn view(&self) -> Map<int, i64> {
        Map::new(
            |i: int| 0 <= i < self.prio@.len() && self.prio@[i] is Some,
            |i: int| self.prio@[i]->0,
        )
    }
}

impl IndexedMinHeap {
    /// The number of items that can be in the heap.
    pub closed spec fn capacity(&self) -> nat {
        self.pos@.len()
    }

    /// The heap is linked and ordered.
    pub closed spec fn wf(&self) -> bool {
        linked(self.heap@, self.pos@, self.prio@) && ordered(self.heap@, self.prio@)
    }

    /// The items in the heap are finitely many, and all below the capacity.
    pub proof fn lemma_members(&self)
        requires
            self.wf(),
        ensures
            self@.dom().finite(),
            forall|i: int| self@.contains_key(i) ==> 0 <= i < self.capacity(),
    {
        let all = Set::new(|i: int| 0 <= i < self.prio@.len());
        vstd::set_lib::lemma_int_range(0, self.prio@.len() as int);
        assert(all =~= vstd::set_lib::set_int_range(0, self.prio@.len() as int));
        assert(self@.dom().subset_of(all));
        vstd::set_lib::lemma_len_subset(self@.dom(), all);
    }

    /// The empty heap for the items `0 .. n`.
    pub fn with_items(n: usize) -> (h: Self)
        ensures
            h.wf(),
            h.capacity() == n,
            h@ == Map::<int, i64>::empty(),
    {
        let h = IndexedMinHeap { heap: Vec::new(), pos: vec![None; n], prio: vec![None; n] };
        assert(h@ =~= Map::<int, i64>::empty());
        h
    }

    /// Whether item `idx` is in the heap.
    pub fn contains(&self, idx: usize) -> (inside: bool)
        requires
            self.wf(),
            idx < self.capacity(),
        ensures
            inside == self@.contains_key(idx as int),
    {
        self.pos[idx].is_some()
    }

    /// Exchanges the items at the places `i` and `j`.
    fn swap_pos(&mut self, i: usize, j: usize)
        requires
            linked(old(self).heap@, old(self).pos@, old(self).prio@),
            i < old(self).heap@.len(),
            j < old(self).heap@.len(),
        ensures
            linked(final(self).heap@, final(self).pos@, final(self).prio@),
            final(self).prio@ == old(self).prio@,
            final(self).pos@.len() == old(self).pos@.len(),
            final(self).heap@ == old(self).heap@.update(i as int, old(self).heap@[j as int]).update(
                j as int,
                old(self).heap@[i as int],
            ),
    {
        let a = self.heap[i];
        let b = self.heap[j];
        let len = self.heap.len();
        self.heap[i] = b;
        self.heap[j] = a;
        self.pos[a] = Some(j);
        self.pos[b] = Some(i);
        proof {
            let heap0 = old(self).heap@;
            let pos0 = old(self).pos@;
            assert(self.heap@ =~= heap0.update(i as int, heap0[j as int]).update(
                j as int,
                heap0[i as int],
            ));
            assert forall|k: int| 0 <= k < self.heap@.len() implies (#[trigger] self.heap@[k])
                < self.pos@.len() && self.pos@[self.heap@[k] as int] == Some(k as usize)
                && self.prio@[self.heap@[k] as int] is Some by {
                assert(heap0[k] < pos0.len() && pos0[heap0[k] as int] == Some(k as usize));
                assert(heap0[i as int] < pos0.len() && pos0[heap0[i as int] as int] == Some(i));
                assert(heap0[j as int] < pos0.len() && pos0[heap0[j as int] as int] == Some(j));
                if k == i {
                    assert(self.heap@[k] == b);
                } else if k == j {
                    assert(self.heap@[k] == a);
                } else {
                    assert(self.heap@[k] == heap0[k]);
                    assert(heap0[k] != a);
                    assert(heap0[k] != b);
                }
            }
            assert forall|x: int| 0 <= x < self.pos@.len() && (#[trigger] self.pos@[x]) is Some implies self.pos@[x]->0
                < self.heap@.len() && self.heap@[self.pos@[x]->0 as int] == x by {
                if x != a && x != b {
                    assert(pos0[x] is Some);
                    assert(heap0[pos0[x]->0 as int] == x);
                }
            }
            assert forall|x: int| 0 <= x < self.pos@.len() && (#[trigger] self.prio@[x]) is Some implies self.pos@[x] is Some by {
                assert(pos0[x] is Some);
            }
        }
    }

    /// Moves the item at place `i` up until it is not before its parent.
    fn up(&mut self, i: usize)
        requires
            linked(old(self).heap@, old(self).pos@, old(self).prio@),
            i < old(self).heap@.len(),
            ordered_but(old(self).heap@, old(self).prio@, i as int),
            bridged(old(self).heap@, old(self).prio@, i as int),
        ensures
            final(self).wf(),
            final(self).prio@ == old(self).prio@,
            final(self).pos@.len() == old(self).pos@.len(),
    {
        let mut i = i;
        while i > 0
            invariant
                linked(self.heap@, self.pos@, self.prio@),
                i < self.heap@.len(),
                ordered_but(self.heap@, self.prio@, i as int),
                bridged(self.heap@, self.prio@, i as int),
                self.prio@ == old(self).prio@,
                self.pos@.len() == old(self).pos@.len(),
            ensures
                ordered(self.heap@, self.prio@),
            decreases i,
        {
            let p = (i - 1) / 2;
            let ai = self.heap[i];
            let ap = self.heap[p];
            let ki = self.prio[ai].unwrap();
            let kp = self.prio[ap].unwrap();
            if ki < kp {
                proof {
                    lemma_swap_up(self.heap@, self.prio@, i as int);
                }
                self.swap_pos(i, p);
                i = p;
            } else {
                assert forall|k: int| 1 <= k < self.heap@.len() implies #[trigger] above_parent(
                    self.heap@,
                    self.prio@,
                    k,
                ) by {}
                break;
            }
        }
    }

    /// Moves the item at place `i` down until none of its children is
    /// before it.
    fn down(&mut self, i: usize)
        requires
            linked(old(self).heap@, old(self).pos@, old(self).prio@),
            i < old(self).heap@.len(),
            ordered_below(old(self).heap@, old(self).prio@, i as int),
            bridged(old(self).heap@, old(self).prio@, i as int),
        ensures
            final(self).wf(),
            final(self).prio@ == old(self).prio@,
            final(self).pos@.len() == old(self).pos@.len(),
    {
        let n = self.heap.len();
        let mut i = i;
        loop
            invariant
                n == self.heap@.len(),
                linked(self.heap@, self.pos@, self.prio@),
                i < self.heap@.len(),
                ordered_below(self.heap@, self.prio@, i as int),
                bridged(self.heap@, self.prio@, i as int),
                self.prio@ == old(self).prio@,
                self.pos@.len() == old(self).pos@.len(),
            ensures
                ordered(self.heap@, self.prio@),
                linked(self.heap@, self.pos@, self.prio@),
                self.prio@ == old(self).prio@,
                self.pos@.len() == old(self).pos@.len(),
            decreases n - i,
        {
            let mut m = i;
            let mut km = self.prio[self.heap[i]].unwrap();
            if i <= (n - 1) / 2 {
                let l = 2 * i + 1;
                if l < n {
                    let kl = self.prio[self.heap[l]].unwrap();
                    if kl < km {
                        m = l;
                        km = kl;
                    }
                    if l + 1 < n {
                        let kr = self.prio[self.heap[l + 1]].unwrap();
                        if kr < km {
                            m = l + 1;
                            km = kr;
                        }
                    }
                }
            }
            proof {
                assert forall|c: int|
                    1 <= c < self.heap@.len() && (c - 1) / 2 == i implies km <= #[trigger] key_at(
                    self.heap@,
                    self.prio@,
                    c,
                ) by {
                    assert(c == 2 * i + 1 || c == 2 * i + 2);
                }
            }
            if m == i {
                assert forall|k: int| 1 <= k < self.heap@.len() implies #[trigger] above_parent(
                    self.heap@,
                    self.prio@,
                    k,
                ) by {
                    if (k - 1) / 2 == i {
                        assert(km <= key_at(self.heap@, self.prio@, k));
                    }
                }
                break;
            }
            proof {
                lemma_swap_down(self.heap@, self.prio@, i as int, m as int);
            }
            self.swap_pos(i, m);
            i = m;
        }
    }

    /// Gives item `idx` the priority `p`, and puts it into the heap if it is
    /// not there.
    pub fn set(&mut self, idx: usize, p: i64)
        requires
            old(self).wf(),
            idx < old(self).capacity(),
        ensures
            final(self).wf(),
            final(self).capacity() == old(self).capacity(),
            final(self)@ == old(self)@.insert(idx as int, p),
    {
        let ghost heap0 = self.heap@;
        let ghost prio0 = self.prio@;
        let held = self.heap.len();
        match (self.pos[idx], self.prio[idx]) {
            (Some(i), Some(was)) => {
                self.prio[idx] = Some(p);
                proof {
                    assert(heap0[i as int] == idx);
                    assert forall|k: int| 0 <= k < heap0.len() && k != i implies key_at(
                        heap0,
                        self.prio@,
                        k,
                    ) == key_at(heap0, prio0, k) by {
                        assert(heap0[k] < self.pos@.len() && self.pos@[heap0[k] as int] == Some(
                            k as usize,
                        ));
                        assert(self.pos@[idx as int] == Some(i));
                        assert(heap0[k] != idx);
                    }
                }
                if p < was {
                    proof {
                        assert forall|k: int| 1 <= k < heap0.len() && k != i implies #[trigger] above_parent(
                            heap0,
                            self.prio@,
                            k,
                        ) by {
                            assert(above_parent(heap0, prio0, k));
                        }
                        if i >= 1 {
                            assert(above_parent(heap0, prio0, i as int));
                            assert forall|c: int|
                                1 <= c < heap0.len() && (c - 1) / 2 == i implies key_at(
                                heap0,
                                self.prio@,
                                (i - 1) / 2,
                            ) <= #[trigger] key_at(heap0, self.prio@, c) by {
                                assert(above_parent(heap0, prio0, c));
                            }
                        }
                    }
                    self.up(i);
                } else {
                    proof {
                        assert forall|k: int|
                            1 <= k < heap0.len() && (k - 1) / 2 != i implies #[trigger] above_parent(
                            heap0,
                            self.prio@,
                            k,
                        ) by {
                            assert(above_parent(heap0, prio0, k));
                        }
                        if i >= 1 {
                            assert(above_parent(heap0, prio0, i as int));
                            assert forall|c: int|
                                1 <= c < heap0.len() && (c - 1) / 2 == i implies key_at(
                                heap0,
                                self.prio@,
                                (i - 1) / 2,
                            ) <= #[trigger] key_at(heap0, self.prio@, c) by {
                                assert(above_parent(heap0, prio0, c));
                            }
                        }
                    }
                    self.down(i);
                }
            },
            _ => {
                proof {
                    assert(self.pos@[idx as int] is None) by {
                        if self.pos@[idx as int] is Some {
                            assert(self.prio@[heap0[self.pos@[idx as int]->0 as int] as int] is Some);
                        }
                    }
                }
                self.prio[idx] = Some(p);
                let i = self.heap.len();
                self.heap.push(idx);
                self.pos[idx] = Some(i);
                proof {
                    let pos0 = old(self).pos@;
                    assert forall|k: int| 0 <= k < self.heap@.len() implies (#[trigger] self.heap@[k])
                        < self.pos@.len() && self.pos@[self.heap@[k] as int] == Some(k as usize)
                        && self.prio@[self.heap@[k] as int] is Some by {
                        if k < heap0.len() {
                            assert(heap0[k] < pos0.len() && pos0[heap0[k] as int] == Some(
                                k as usize,
                            ));
                        }
                    }
                    assert forall|x: int|
                        0 <= x < self.pos@.len() && (#[trigger] self.pos@[x]) is Some implies self.pos@[x]->0
                        < self.heap@.len() && self.heap@[self.pos@[x]->0 as int] == x by {
                        if x != idx {
                            assert(pos0[x] is Some);
                            assert(heap0[pos0[x]->0 as int] == x);
                        }
                    }
                    assert forall|x: int|
                        0 <= x < self.pos@.len() && (#[trigger] self.prio@[x]) is Some implies self.pos@[x] is Some by {
                        if x != idx {
                            assert(prio0[x] is Some);
                        }
                    }
                    assert forall|k: int| 1 <= k < self.heap@.len() && k != i implies #[trigger] above_parent(
                        self.heap@,
                        self.prio@,
                        k,
                    ) by {
                        assert(above_parent(heap0, prio0, k));
                        assert(heap0[k] < pos0.len() && pos0[heap0[k] as int] == Some(k as usize));
                        assert(heap0[(k - 1) / 2] < pos0.len() && pos0[heap0[(k - 1) / 2] as int]
                            == Some(((k - 1) / 2) as usize));
                    }
                }
                self.up(i);
            },
        }
        proof {
            assert(final(self)@ =~= old(self)@.insert(idx as int, p));
        }
    }

    /// Takes an item of least priority out of the heap, and returns it with
    /// its priority.
    pub fn pop_min(&mut self) -> (least: Option<(usize, i64)>)
        requires
            old(self).wf(),
        ensures
            final(self).wf(),
            final(self).capacity() == old(self).capacity(),
            match least {
                None => old(self)@ == Map::<int, i64>::empty() && final(self)@ == old(self)@,
                Some((item, p)) => {
                    &&& old(self)@.contains_key(item as int)
                    &&& old(self)@[item as int] == p
                    &&& forall|j: int| old(self)@.contains_key(j) ==> p <= #[trigger] old(self)@[j]
                    &&& final(self)@ == old(self)@.remove(item as int)
                },
            },
    {
        let ghost heap0 = self.heap@;
        let ghost pos0 = self.pos@;
        let ghost prio0 = self.prio@;
        if self.heap.len() == 0 {
            proof {
                assert forall|i: int| !old(self)@.contains_key(i) by {
                    if old(self)@.contains_key(i) {
                        assert(prio0[i] is Some);
                        assert(pos0[i] is Some);
                    }
                }
                assert(old(self)@ =~= Map::<int, i64>::empty());
            }
            return None;
        }
        let root = self.heap[0];
        let pr = self.prio[root].unwrap();
        proof {
            assert(heap0[0] < pos0.len() && pos0[heap0[0] as int] == Some(0usize));
            assert forall|j: int| old(self)@.contains_key(j) implies pr <= #[trigger] old(self)@[j] by {
                assert(prio0[j] is Some);
                assert(pos0[j] is Some);
                let k = pos0[j]->0 as int;
                assert(heap0[k] == j);
                lemma_first_is_least(heap0, prio0, k);
            }
        }
        self.prio[root] = None;
        let last = self.heap.pop().unwrap();
        self.pos[root] = None;
        if self.heap.len() > 0 {
            self.heap[0] = last;
            self.pos[last] = Some(0);
            proof {
                let n = self.heap@.len() as int;
                assert(last == heap0[n]);
                assert(heap0[n] < pos0.len() && pos0[heap0[n] as int] == Some(n as usize));
                assert(last != root);
                assert forall|k: int| 0 <= k < self.heap@.len() implies (#[trigger] self.heap@[k])
                    < self.pos@.len() && self.pos@[self.heap@[k] as int] == Some(k as usize)
                    && self.prio@[self.heap@[k] as int] is Some by {
                    assert(heap0[k] < pos0.len() && pos0[heap0[k] as int] == Some(k as usize));
                    if k > 0 {
                        assert(self.heap@[k] == heap0[k]);
                        assert(heap0[k] != root);
                        assert(heap0[k] != last);
                    }
                }
                assert forall|x: int|
                    0 <= x < self.pos@.len() && (#[trigger] self.pos@[x]) is Some implies self.pos@[x]->0
                    < self.heap@.len() && self.heap@[self.pos@[x]->0 as int] == x by {
                    if x != last {
                        assert(pos0[x] is Some);
                        assert(heap0[pos0[x]->0 as int] == x);
                        assert(pos0[x]->0 != n);
                        assert(pos0[x]->0 != 0);
                    }
                }
                assert forall|x: int|
                    0 <= x < self.pos@.len() && (#[trigger] self.prio@[x]) is Some implies self.pos@[x] is Some by {
                    assert(prio0[x] is Some);
                    assert(pos0[x] is Some);
                }
                assert forall|k: int|
                    1 <= k < self.heap@.len() && (k - 1) / 2 != 0 implies #[trigger] above_parent(
                    self.heap@,
                    self.prio@,
                    k,
                ) by {
                    assert(above_parent(heap0, prio0, k));
                    assert(heap0[k] < pos0.len() && pos0[heap0[k] as int] == Some(k as usize));
                    assert(heap0[(k - 1) / 2] < pos0.len() && pos0[heap0[(k - 1) / 2] as int]
                        == Some(((k - 1) / 2) as usize));
                    assert(heap0[k] != root);
                    assert(heap0[(k - 1) / 2] != root);
                }
            }
            self.down(0);
        } else {
            proof {
                assert(last == root);
                assert forall|x: int|
                    0 <= x < self.pos@.len() && (#[trigger] self.pos@[x]) is Some implies self.pos@[x]->0
                    < self.heap@.len() && self.heap@[self.pos@[x]->0 as int] == x by {
                    assert(pos0[x] is Some);
                    assert(heap0[pos0[x]->0 as int] == x);
                }
                assert forall|x: int|
                    0 <= x < self.pos@.len() && (#[trigger] self.prio@[x]) is Some implies self.pos@[x] is Some by {
                    assert(prio0[x] is Some);
                    assert(pos0[x] is Some);
                    assert(heap0[pos0[x]->0 as int] == x);
                }
            }
        }
        proof {
            assert(final(self)@ =~= old(self)@.remove(root as int));
        }
        Some((root, pr))
    }
}

} // verus!
