//! A Fenwick tree: prefix sums of a list of integers under point updates.

use vstd::prelude::*;

verus! {

/// The lowest set bit of `i`: the length of the range that place `i` of the
/// tree stands for.
pub open spec fn low_bit(i: u64) -> u64 {
    i & ((!i + 1) as u64)
}

/// The sum of the values from `lo` up to `hi`.
pub open spec fn range_sum(values: Seq<int>, lo: int, hi: int) -> int
    decreases hi - lo,
{
    if hi <= lo {
        0
    } else {
        range_sum(values, lo, hi - 1) + values[hi - 1]
    }
}

/// Every sum of a range of the values is in the range of `i64`.
pub open spec fn sums_fit(values: Seq<int>) -> bool {
    forall|lo: int, hi: int|
        0 <= lo <= hi <= values.len() ==> i64::MIN <= #[trigger] range_sum(values, lo, hi)
            <= i64::MAX
}

/// A range sum is the sum of its two parts.
pub proof fn lemma_range_split(values: Seq<int>, lo: int, mid: int, hi: int)
    requires
        lo <= mid <= hi,
    ensures
        range_sum(values, lo, hi) == range_sum(values, lo, mid) + range_sum(values, mid, hi),
    decreases hi - mid,
{
    if mid < hi {
        lemma_range_split(values, lo, mid, hi - 1);
    }
}

/// Changing one value changes the sums of the ranges that hold it.
pub proof fn lemma_range_update(values: Seq<int>, i: int, v: int, lo: int, hi: int)
    requires
        0 <= i < values.len(),
        0 <= lo <= hi <= values.len(),
    ensures
        range_sum(values.update(i, v), lo, hi) == range_sum(values, lo, hi) + (if lo <= i < hi {
            v - values[i]
        } else {
            0
        }),
    decreases hi - lo,
{
    if lo < hi {
        lemma_range_update(values, i, v, lo, hi - 1);
    }
}

/// Facts about the lowest set bit.
pub proof fn lemma_low_bit(i: u64)
    requires
        i > 0,
    ensures
        0 < low_bit(i) <= i,
        !i + 1 <= u64::MAX,
        i & ((i - 1) as u64) == i - low_bit(i),
{
    assert(!i < 0xffff_ffff_ffff_ffffu64) by (bit_vector)
        requires
            i > 0,
    ;
    let m = (!i + 1) as u64;
    let d = (i - 1) as u64;
    assert(0 < (i & m) <= i && (i & d) == i - (i & m)) by (bit_vector)
        requires
            i > 0,
            m == !i + 1,
            d == i - 1,
    ;
}

/// The range of the next place up holds the range of this place.
pub proof fn lemma_low_bit_up(i: u64)
    requires
        i > 0,
        i + low_bit(i) <= u64::MAX,
    ensures
        (i + low_bit(i)) - low_bit((i + low_bit(i)) as u64) <= i - low_bit(i),
        0 < low_bit((i + low_bit(i)) as u64),
{
    lemma_low_bit(i);
    let m = (!i + 1) as u64;
    let j = (i + low_bit(i)) as u64;
    lemma_low_bit(j);
    let mj = (!j + 1) as u64;
    assert(j - (j & mj) <= i - (i & m)) by (bit_vector)
        requires
            i > 0,
            m == !i + 1,
            j == i + (i & m),
            mj == !j + 1,
    ;
}

/// The places between a place and the next place up stand for ranges that
/// start at or after the place.
pub proof fn lemma_low_bit_between(i: u64, j: u64)
    requires
        i > 0,
        i < j,
        j < i + low_bit(i),
    ensures
        j - low_bit(j) >= i,
{
    lemma_low_bit(j);
    lemma_low_bit(i);
    let m = (!i + 1) as u64;
    let mj = (!j + 1) as u64;
    assert(j - (j & mj) >= i) by (bit_vector)
        requires
            i > 0,
            i < j,
            j < i + (i & m),
            m == !i + 1,
            mj == !j + 1,
    ;
}

/// A list of integers whose prefix sums can be read, and whose values can be
/// changed, in logarithmic time.
pub struct Fenwick {
    n: usize,
    bit: Vec<i64>,
    values: Ghost<Seq<int>>,
}

impl View for Fenwick {
    type V = Seq<int>;

    /// The values of the list.
    closed spec fn view(&self) -> Seq<int> {
        self.values@
    }
}

impl Fenwick {
    /// Place `i` of the tree holds the sum of the last `low_bit(i)` values
    /// before position `i`, and every range sum fits an `i64`.
    pub closed spec fn wf(&self) -> bool {
        &&& self.values@.len() == self.n
        &&& self.bit@.len() == self.n + 1
        &&& self.n < u64::MAX
        &&& sums_fit(self.values@)
        &&& forall|i: int|
            1 <= i <= self.n ==> #[trigger] self.bit@[i] == range_sum(
                self.values@,
                i - low_bit(i as u64),
                i,
            )
    }

    /// The list of `n` zeros.
    pub fn new(n: usize) -> (f: Self)
        requires
            n < usize::MAX,
        ensures
            f.wf(),
            f@ == Seq::new(n as nat, |i: int| 0int),
    {
        let ghost zeros = Seq::new(n as nat, |i: int| 0int);
        let f = Fenwick { n, bit: vec![0i64; n + 1], values: Ghost(zeros) };
        proof {
            assert forall|lo: int, hi: int| 0 <= lo <= hi <= zeros.len() implies i64::MIN
                <= #[trigger] range_sum(zeros, lo, hi) <= i64::MAX by {
                lemma_range_zeros(zeros, lo, hi);
            }
            assert forall|i: int| 1 <= i <= n implies #[trigger] f.bit@[i] == range_sum(
                zeros,
                i - low_bit(i as u64),
                i,
            ) by {
                lemma_low_bit(i as u64);
                lemma_range_zeros(zeros, i - low_bit(i as u64), i);
            }
        }
        f
    }

    /// Adds `delta` to the value at position `i`. A position beyond the end
    /// of the list changes nothing.
    pub fn add(&mut self, i: usize, delta: i64)
        requires
            old(self).wf(),
            i < usize::MAX,
            i < old(self)@.len() ==> sums_fit(
                old(self)@.update(i as int, old(self)@[i as int] + delta),
            ),
        ensures
            final(self).wf(),
            final(self)@ == (if i < old(self)@.len() {
                old(self)@.update(i as int, old(self)@[i as int] + delta)
            } else {
                old(self)@
            }),
    {
        if i >= self.n {
            return ;
        }
        let ghost before = self.values@;
        let ghost after = before.update(i as int, before[i as int] + delta);
        let mut k: u64 = (i + 1) as u64;
        let n = self.n as u64;
        proof {
            lemma_low_bit(k);
            assert forall|j: int| 1 <= j <= n && j < k implies #[trigger] self.bit@[j] == range_sum(
                after,
                j - low_bit(j as u64),
                j,
            ) by {
                lemma_low_bit(j as u64);
                lemma_range_update(
                    before,
                    i as int,
                    before[i as int] + delta,
                    j - low_bit(j as u64),
                    j,
                );
            }
        }
        while k <= n
            invariant
                self.n == n,
                n < u64::MAX,
                self.bit@.len() == n + 1,
                self.values@ == before,
                before.len() == n,
                0 <= i < n,
                after == before.update(i as int, before[i as int] + delta),
                sums_fit(after),
                i + 1 <= k <= n + 1,
                k <= n ==> k - low_bit(k) <= i,
                forall|j: int|
                    1 <= j <= n && j < k ==> #[trigger] self.bit@[j] == range_sum(
                        after,
                        j - low_bit(j as u64),
                        j,
                    ),
                forall|j: int|
                    1 <= j <= n && j >= k ==> #[trigger] self.bit@[j] == range_sum(
                        before,
                        j - low_bit(j as u64),
                        j,
                    ),
            decreases n + 1 - k,
        {
            let ghost bits = self.bit@;
            proof {
                lemma_low_bit(k);
                lemma_range_update(
                    before,
                    i as int,
                    before[i as int] + delta,
                    k - low_bit(k),
                    k as int,
                );
                assert(i64::MIN <= range_sum(after, k - low_bit(k), k as int) <= i64::MAX);
                assert(bits[k as int] == range_sum(before, k - low_bit(k), k as int));
            }
            let cur = self.bit[k as usize];
            self.bit[k as usize] = cur + delta;
            let step = k & (!k + 1);
            let ghost prev = k;
            if step > n - k {
                k = n + 1;
            } else {
                k = k + step;
                proof {
                    lemma_low_bit_up(prev);
                }
            }
            proof {
                assert forall|j: int| 1 <= j <= n && j < k implies #[trigger] self.bit@[j]
                    == range_sum(after, j - low_bit(j as u64), j) by {
                    if j > prev {
                        lemma_low_bit(j as u64);
                        lemma_low_bit_between(prev, j as u64);
                        lemma_range_update(
                            before,
                            i as int,
                            before[i as int] + delta,
                            j - low_bit(j as u64),
                            j,
                        );
                        assert(bits[j] == range_sum(before, j - low_bit(j as u64), j));
                    } else if j < prev {
                        assert(bits[j] == range_sum(after, j - low_bit(j as u64), j));
                    }
                }
                assert forall|j: int| 1 <= j <= n && j >= k implies #[trigger] self.bit@[j]
                    == range_sum(before, j - low_bit(j as u64), j) by {
                    assert(bits[j] == range_sum(before, j - low_bit(j as u64), j));
                }
            }
        }
        self.values = Ghost(after);
    }

    /// The sum of the values at the positions `0 ..= i`.
    pub fn sum_prefix(&self, i: usize) -> (s: i64)
        requires
            self.wf(),
            i < self@.len(),
        ensures
            s == range_sum(self@, 0, i + 1),
    {
        let mut s: i64 = 0;
        let mut k: u64 = (i + 1) as u64;
        while k > 0
            invariant
                self.wf(),
                k <= i + 1 <= self.n,
                s + range_sum(self.values@, 0, k as int) == range_sum(self.values@, 0, i + 1),
                s == range_sum(self.values@, k as int, i + 1),
            decreases k,
        {
            proof {
                lemma_low_bit(k);
                lemma_range_split(self.values@, 0, k - low_bit(k), k as int);
                lemma_range_split(self.values@, k - low_bit(k), k as int, i + 1);
                assert(i64::MIN <= range_sum(self.values@, k - low_bit(k), i + 1) <= i64::MAX);
                assert(self.bit@[k as int] == range_sum(self.values@, k - low_bit(k), k as int));
            }
            s = s + self.bit[k as usize];
            k = k & (k - 1);
        }
        s
    }

    /// The sum of the values at the positions `l ..= r`; zero when `r < l`.
    pub fn sum_range(&self, l: usize, r: usize) -> (s: i64)
        requires
            self.wf(),
            l <= r ==> r < self@.len(),
        ensures
            s == (if r < l {
                0
            } else {
                range_sum(self@, l as int, r + 1)
            }),
    {
        if r < l {
            0
        } else {
            let hi = self.sum_prefix(r);
            if l == 0 {
                hi
            } else {
                let lo = self.sum_prefix(l - 1);
                proof {
                    lemma_range_split(self.values@, 0, l as int, r + 1);
                    assert(i64::MIN <= range_sum(self.values@, l as int, r + 1) <= i64::MAX);
                }
                hi - lo
            }
        }
    }
}

/// A list of zeros has sum zero.
proof fn lemma_range_zeros(values: Seq<int>, lo: int, hi: int)
    requires
        0 <= lo,
        hi <= values.len(),
        forall|i: int| 0 <= i < values.len() ==> values[i] == 0,
    ensures
        range_sum(values, lo, hi) == 0,
    decreases hi - lo,
{
    if lo < hi {
        lemma_range_zeros(values, lo, hi - 1);
    }
}

} // verus!
