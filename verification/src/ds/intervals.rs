//! Closed integer intervals and sets of them.

use vstd::prelude::*;

verus! {

/// The integers from `start` to `end`, both included.
#[derive(Copy, Clone, Debug, PartialEq, Eq, Structural)]
pub struct Interval {
    pub start: i64,
    pub end: i64,
}

impl Interval {
    /// The interval is not empty.
    pub open spec fn wf(&self) -> bool {
        self.start <= self.end
    }

    /// Whether `x` lies in the interval.
    pub open spec fn has(&self, x: int) -> bool {
        self.start <= x <= self.end
    }

    /// The interval from `start` to `end`.
    pub fn new(start: i64, end: i64) -> (iv: Self)
        requires
            start <= end,
        ensures
            iv == (Interval { start, end }),
    {
        Interval { start, end }
    }

    /// Whether the two intervals share an integer.
    pub fn overlaps(&self, other: &Interval) -> (shared: bool)
        ensures
            shared == (self.start <= other.end && other.start <= self.end),
            self.wf() && other.wf() ==> (shared <==> exists|x: int| self.has(x) && other.has(x)),
    {
        let shared = self.start <= other.end && other.start <= self.end;
        proof {
            if self.wf() && other.wf() && shared {
                let x = if self.start <= other.start {
                    other.start as int
                } else {
                    self.start as int
                };
                assert(self.has(x) && other.has(x));
            }
        }
        shared
    }

    /// The smallest interval that holds both.
    pub fn merge(&self, other: &Interval) -> (iv: Interval)
        requires
            self.wf() || other.wf(),
        ensures
            iv.start == (if self.start <= other.start {
                self.start
            } else {
                other.start
            }),
            iv.end == (if self.end >= other.end {
                self.end
            } else {
                other.end
            }),
            iv.wf(),
    {
        let start = if self.start <= other.start {
            self.start
        } else {
            other.start
        };
        let end = if self.end >= other.end {
            self.end
        } else {
            other.end
        };
        Interval::new(start, end)
    }

    /// Whether `x` lies in the interval.
    pub fn contains(&self, x: i64) -> (inside: bool)
        ensures
            inside == self.has(x as int),
    {
        self.start <= x && x <= self.end
    }

    /// The number of integers in the interval.
    pub fn len(&self) -> (n: i64)
        requires
            i64::MIN <= self.end - self.start < i64::MAX,
        ensures
            n == self.end - self.start + 1,
    {
        self.end - self.start + 1
    }
}

/// Some interval of the list holds `x`.
pub open spec fn covered(v: Seq<Interval>, x: int) -> bool {
    exists|i: int| 0 <= i < v.len() && (#[trigger] v[i]).has(x)
}

/// The intervals are not empty, in increasing order, and apart: between two
/// of them lies an integer that neither holds.
pub open spec fn separated(v: Seq<Interval>) -> bool {
    &&& forall|i: int| 0 <= i < v.len() ==> (#[trigger] v[i]).wf()
    &&& forall|i: int, j: int| 0 <= i < j < v.len() ==> v[i].end + 1 < v[j].start
}

/// What the intervals listed cover, together with `iv` unless it is among
/// them already.
pub open spec fn covered_with(v: Seq<Interval>, iv: Interval, inserted: bool, x: int) -> bool {
    covered(v, x) || (!inserted && iv.has(x))
}

/// What a list with one more interval covers.
pub proof fn lemma_covered_push(v: Seq<Interval>, e: Interval)
    ensures
        forall|x: int| covered(v.push(e), x) <==> (covered(v, x) || e.has(x)),
{
    let w = v.push(e);
    assert forall|x: int| covered(w, x) <==> (covered(v, x) || e.has(x)) by {
        if covered(w, x) {
            let i = choose|i: int| 0 <= i < w.len() && (#[trigger] w[i]).has(x);
            if i < v.len() {
                assert(v[i].has(x));
            }
        }
        if covered(v, x) {
            let i = choose|i: int| 0 <= i < v.len() && (#[trigger] v[i]).has(x);
            assert(w[i].has(x));
        }
        if e.has(x) {
            assert(w[v.len() as int].has(x));
        }
    }
}

/// An interval to the right of all the others, and apart from them, can
/// follow them.
pub proof fn lemma_separated_push(v: Seq<Interval>, e: Interval)
    requires
        separated(v),
        e.wf(),
        forall|i: int| 0 <= i < v.len() ==> (#[trigger] v[i]).end + 1 < e.start,
    ensures
        separated(v.push(e)),
{
    let w = v.push(e);
    assert forall|i: int, j: int| 0 <= i < j < w.len() implies w[i].end + 1 < w[j].start by {
        if j < v.len() {
            assert(v[i].end + 1 < v[j].start);
        } else {
            assert(v[i].end + 1 < e.start);
        }
    }
}

/// A set of integers kept as the list of its maximal intervals.
#[derive(Clone, Debug)]
pub struct IntervalSet {
    v: Vec<Interval>,
}

impl Default for IntervalSet {
    fn default() -> (s: Self)
        ensures
            s.wf(),
            s@ == Seq::<Interval>::empty(),
    {
        IntervalSet { v: Vec::new() }
    }
}

impl View for IntervalSet {
    type V = Seq<Interval>;

    /// The maximal intervals in increasing order.
    closed spec fn view(&self) -> Seq<Interval> {
        self.v@
    }
}

impl IntervalSet {
    /// The intervals are kept apart and in order.
    pub open spec fn wf(&self) -> bool {
        separated(self@)
    }

    /// Whether `x` is in the set.
    pub open spec fn has(&self, x: int) -> bool {
        covered(self@, x)
    }

    /// The empty set.
    pub fn new() -> (s: Self)
        ensures
            s.wf(),
            s@ == Seq::<Interval>::empty(),
    {
        IntervalSet { v: Vec::new() }
    }

    /// Adds every integer of `iv` to the set, merging the intervals that it
    /// meets or touches.
    pub fn add(&mut self, iv: Interval)
        requires
            old(self).wf(),
            iv.wf(),
        ensures
            final(self).wf(),
            forall|x: int| #[trigger] final(self).has(x) <==> (old(self).has(x) || iv.has(x)),
    {
        let ghost before = self.v@;
        let mut res: Vec<Interval> = Vec::new();
        let mut cur_iv = iv;
        let mut inserted = false;
        let n = self.v.len();
        proof {
            assert(before.subrange(0, 0) =~= Seq::<Interval>::empty());
        }
        for k in 0..n
            invariant
                n == before.len(),
                self.v@ == before,
                separated(before),
                separated(res@),
                cur_iv.wf(),
                forall|i: int, j: int|
                    0 <= i < res@.len() && k <= j < before.len() ==> #[trigger] res@[i].end + 1
                        < #[trigger] before[j].start,
                !inserted ==> forall|i: int|
                    0 <= i < res@.len() ==> (#[trigger] res@[i]).end + 1 < cur_iv.start,
                inserted ==> forall|j: int|
                    k <= j < before.len() ==> cur_iv.end + 1 < (#[trigger] before[j]).start,
                forall|x: int| #[trigger]
                    covered_with(res@, cur_iv, inserted, x) == covered_with(
                        before.subrange(0, k as int),
                        iv,
                        false,
                        x,
                    ),
        {
            let cur = self.v[k];
            let ghost res_before = res@;
            let ghost iv_before = cur_iv;
            let ghost was_inserted = inserted;
            assert(before[k as int].wf());
            proof {
                assert(before.subrange(0, k + 1) =~= before.subrange(0, k as int).push(cur));
                lemma_covered_push(before.subrange(0, k as int), cur);
                assert forall|j: int| k + 1 <= j < before.len() implies cur.end + 1 < (
                #[trigger] before[j]).start by {
                    assert(before[k as int].end + 1 < before[j].start);
                }
            }
            if (cur.end as i128) < (cur_iv.start as i128) - 1 {
                res.push(cur);
                proof {
                    lemma_covered_push(res_before, cur);
                    lemma_separated_push(res_before, cur);
                }
            } else if (cur_iv.end as i128) < (cur.start as i128) - 1 {
                if !inserted {
                    res.push(cur_iv);
                    inserted = true;
                    proof {
                        lemma_covered_push(res_before, cur_iv);
                        lemma_separated_push(res_before, cur_iv);
                    }
                }
                let ghost res_mid = res@;
                res.push(cur);
                proof {
                    lemma_covered_push(res_mid, cur);
                    assert forall|i: int| 0 <= i < res_mid.len() implies (#[trigger] res_mid[i]).end
                        + 1 < cur.start by {
                        if i < res_before.len() {
                            assert(res_before[i].end + 1 < before[k as int].start);
                        }
                    }
                    lemma_separated_push(res_mid, cur);
                }
            } else {
                cur_iv = cur_iv.merge(&cur);
                proof {
                    assert forall|i: int| 0 <= i < res@.len() implies (#[trigger] res@[i]).end + 1
                        < cur_iv.start by {
                        assert(res@[i].end + 1 < before[k as int].start);
                    }
                }
            }
            proof {
                assert forall|x: int| #[trigger]
                    covered_with(res@, cur_iv, inserted, x) == covered_with(
                        before.subrange(0, k + 1),
                        iv,
                        false,
                        x,
                    ) by {
                    assert(covered_with(res_before, iv_before, was_inserted, x) == covered_with(
                        before.subrange(0, k as int),
                        iv,
                        false,
                        x,
                    ));
                }
                assert forall|i: int, j: int|
                    0 <= i < res@.len() && k + 1 <= j < before.len() implies #[trigger] res@[i].end
                    + 1 < #[trigger] before[j].start by {
                    if i < res_before.len() {
                        assert(res_before[i].end + 1 < before[j].start);
                    } else {
                        assert(before[k as int].end + 1 < before[j].start);
                    }
                }
            }
        }
        let ghost res_end = res@;
        let ghost was_inserted = inserted;
        if !inserted {
            proof {
                lemma_covered_push(res@, cur_iv);
                lemma_separated_push(res@, cur_iv);
            }
            res.push(cur_iv);
        }
        proof {
            assert(before.subrange(0, n as int) =~= before);
            assert forall|x: int| covered(res@, x) <==> (covered(before, x) || iv.has(x)) by {
                assert(covered_with(res_end, cur_iv, was_inserted, x) == covered_with(
                    before,
                    iv,
                    false,
                    x,
                ));
            }
        }
        self.v = res;
    }

    /// Whether `x` is in the set.
    pub fn contains(&self, x: i64) -> (inside: bool)
        ensures
            inside == self.has(x as int),
    {
        for k in 0..self.v.len()
            invariant
                forall|i: int| 0 <= i < k ==> !(#[trigger] self.v@[i]).has(x as int),
        {
            if self.v[k].contains(x) {
                return true;
            }
        }
        false
    }

    /// The maximal intervals in increasing order.
    pub fn intervals(&self) -> (list: &[Interval])
        ensures
            list@ == self@,
    {
        self.v.as_slice()
    }
}

} // verus!
