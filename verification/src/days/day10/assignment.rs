//! Press vectors and partial assignments of the free columns.
//!
//! The bounded search fixes the free columns one by one. The lemmas here
//! relate the sums it keeps for such a prefix to the sums of a full press
//! vector that agrees with the prefix.

use vstd::prelude::*;
use crate::days::day10::linear::{
    is_rectangular, row_sum, row_sum_upto, satisfies, total, total_upto, touches,
};
use crate::days::day10::real_rows::{
    coeff_row, dot, dot_upto, increasing_below, is_complement, lemma_rmul_one, lemma_rmul_zero,
    real_solves, reals_of, rmul,
};

verus! {

/// The press vector gives the first `n` free columns the counts assigned.
pub open spec fn agrees(x: Seq<u64>, free: Seq<usize>, counts: Seq<u64>, n: int) -> bool {
    forall|j: int| 0 <= j < n ==> x[#[trigger] free[j] as int] == counts[j]
}

/// No button is pressed more often than its bound allows.
pub open spec fn bounded(x: Seq<u64>, max_press: Seq<u64>) -> bool {
    forall|c: int| 0 <= c < x.len() ==> #[trigger] x[c] <= max_press[c]
}

/// What the first `n` free columns, with the counts assigned, add to the
/// counter of `row`.
pub open spec fn partial_row(row: Seq<u8>, free: Seq<usize>, counts: Seq<u64>, n: int) -> int
    decreases n,
{
    if n <= 0 {
        0
    } else {
        partial_row(row, free, counts, n - 1) + if row[free[n - 1] as int] != 0 {
            counts[n - 1] as int
        } else {
            0
        }
    }
}

/// The sum of `row[free[j]] * counts[j]` over the first `n` free columns.
pub open spec fn free_sum(row: Seq<real>, free: Seq<usize>, counts: Seq<u64>, n: int) -> real
    decreases n,
{
    if n <= 0 {
        0real
    } else {
        free_sum(row, free, counts, n - 1) + rmul(row[free[n - 1] as int], counts[n - 1] as real)
    }
}

/// `j` free columns lie below column `n`, and the others at or above it.
pub open spec fn splits_at(free: Seq<usize>, j: int, n: int) -> bool {
    &&& 0 <= j <= free.len()
    &&& forall|t: int| 0 <= t < j ==> free[t] < n
    &&& forall|t: int| j <= t < free.len() ==> free[t] >= n
}

/// A row sum over the integers is the dot product over the reals.
pub proof fn lemma_row_sum_is_dot(row: Seq<u8>, x: Seq<u64>, n: int)
    requires
        0 <= n <= row.len(),
        n <= x.len(),
    ensures
        row_sum_upto(row, x, n) as real == dot_upto(coeff_row(row), reals_of(x), n),
    decreases n,
{
    if n > 0 {
        lemma_row_sum_is_dot(row, x, n - 1);
        let v = reals_of(x)[n - 1];
        lemma_rmul_one(v);
        lemma_rmul_zero(v);
    }
}

/// A press vector that satisfies the system solves it over the reals.
pub proof fn lemma_real_link(matrix: Seq<Seq<u8>>, target: Seq<u64>, x: Seq<u64>)
    requires
        is_rectangular(matrix, x.len() as int),
        satisfies(matrix, target, x),
    ensures
        real_solves(matrix, target, reals_of(x)),
{
    assert forall|r: int| 0 <= r < matrix.len() implies dot(
        coeff_row(#[trigger] matrix[r]),
        reals_of(x),
    ) == target[r] as real by {
        lemma_row_sum_is_dot(matrix[r], x, matrix[r].len() as int);
        assert(row_sum(matrix[r], x) == target[r]);
    }
}

/// A button that touches a row is pressed at most as often as the row sum.
pub proof fn lemma_entry_le_row_sum(row: Seq<u8>, x: Seq<u64>, c: int, n: int)
    requires
        0 <= c < n,
        row[c] != 0,
    ensures
        x[c] <= row_sum_upto(row, x, n),
    decreases n,
{
    if c < n - 1 {
        lemma_entry_le_row_sum(row, x, c, n - 1);
    } else {
        lemma_row_sum_nonneg(row, x, n - 1);
    }
}

/// A partial row sum is not negative.
pub proof fn lemma_row_sum_nonneg(row: Seq<u8>, x: Seq<u64>, n: int)
    ensures
        0 <= row_sum_upto(row, x, n),
    decreases n,
{
    if n > 0 {
        lemma_row_sum_nonneg(row, x, n - 1);
    }
}

/// A partial total is not negative.
pub proof fn lemma_total_nonneg(x: Seq<u64>, n: int)
    ensures
        0 <= total_upto(x, n),
    decreases n,
{
    if n > 0 {
        lemma_total_nonneg(x, n - 1);
    }
}

/// The presses of a prefix of the free columns are part of the total.
pub proof fn lemma_total_ge_prefix(x: Seq<u64>, free: Seq<usize>, counts: Seq<u64>, j: int, n: int)
    requires
        0 <= n,
        increasing_below(free, x.len() as int),
        splits_at(free, j, n),
        agrees(x, free, counts, j),
    ensures
        total_upto(counts, j) <= total_upto(x, n),
    decreases n,
{
    if n == 0 {
        if j > 0 {
            assert(free[0] < 0);
        }
    } else {
        if j > 0 && free[j - 1] == n - 1 {
            assert forall|t: int| 0 <= t < j - 1 implies free[t] < n - 1 by {
                assert(free[t] < free[j - 1]);
            }
            lemma_total_ge_prefix(x, free, counts, j - 1, n - 1);
            assert(x[free[j - 1] as int] == counts[j - 1]);
        } else {
            assert forall|t: int| 0 <= t < j implies free[t] < n - 1 by {
                if t < j - 1 {
                    assert(free[t] < free[j - 1]);
                }
            }
            lemma_total_ge_prefix(x, free, counts, j, n - 1);
        }
    }
}

/// What a prefix of the free columns adds to a row is part of the row sum.
pub proof fn lemma_partial_row_le(
    row: Seq<u8>,
    x: Seq<u64>,
    free: Seq<usize>,
    counts: Seq<u64>,
    j: int,
    n: int,
)
    requires
        0 <= n,
        increasing_below(free, x.len() as int),
        splits_at(free, j, n),
        agrees(x, free, counts, j),
    ensures
        partial_row(row, free, counts, j) <= row_sum_upto(row, x, n),
    decreases n,
{
    if n == 0 {
        if j > 0 {
            assert(free[0] < 0);
        }
    } else {
        if j > 0 && free[j - 1] == n - 1 {
            assert forall|t: int| 0 <= t < j - 1 implies free[t] < n - 1 by {
                assert(free[t] < free[j - 1]);
            }
            lemma_partial_row_le(row, x, free, counts, j - 1, n - 1);
            assert(x[free[j - 1] as int] == counts[j - 1]);
        } else {
            assert forall|t: int| 0 <= t < j implies free[t] < n - 1 by {
                if t < j - 1 {
                    assert(free[t] < free[j - 1]);
                }
            }
            lemma_partial_row_le(row, x, free, counts, j, n - 1);
        }
    }
}

/// A row sum grows with the number of buttons counted.
pub proof fn lemma_row_sum_mono(row: Seq<u8>, x: Seq<u64>, a: int, b: int)
    requires
        a <= b,
    ensures
        row_sum_upto(row, x, a) <= row_sum_upto(row, x, b),
    decreases b - a,
{
    if a < b {
        lemma_row_sum_mono(row, x, a, b - 1);
        lemma_row_sum_nonneg(row, x, a);
    }
}

/// A total grows with the number of buttons counted.
pub proof fn lemma_total_mono(x: Seq<u64>, a: int, b: int)
    requires
        a <= b,
    ensures
        total_upto(x, a) <= total_upto(x, b),
    decreases b - a,
{
    if a < b {
        lemma_total_mono(x, a, b - 1);
        lemma_total_nonneg(x, a);
    }
}

/// The first `j` free columns split the columns at the next free column, or
/// at the end when there is none.
pub proof fn lemma_prefix_splits(free: Seq<usize>, j: int, cols: int)
    requires
        increasing_below(free, cols),
        0 <= j <= free.len(),
    ensures
        splits_at(free, j, if j < free.len() { free[j] as int } else { cols }),
{
    let n = if j < free.len() { free[j] as int } else { cols };
    assert forall|t: int| 0 <= t < j implies free[t] < n by {
        if j < free.len() {
            assert(free[t] < free[j]);
        }
    }
    assert forall|t: int| j <= t < free.len() implies free[t] >= n by {
        if j < t {
            assert(free[j] < free[t]);
        }
    }
}

/// The counts assigned to a prefix of the free columns sum to no more than
/// the total of a press vector that agrees with them.
pub proof fn lemma_prefix_total(x: Seq<u64>, free: Seq<usize>, counts: Seq<u64>, j: int)
    requires
        increasing_below(free, x.len() as int),
        0 <= j <= free.len(),
        agrees(x, free, counts, j),
    ensures
        total_upto(counts, j) <= total(x),
{
    let n = if j < free.len() { free[j] as int } else { x.len() as int };
    lemma_prefix_splits(free, j, x.len() as int);
    lemma_total_ge_prefix(x, free, counts, j, n);
    lemma_total_mono(x, n, x.len() as int);
}

/// What a prefix of the free columns adds to a row is no more than the row
/// sum of a press vector that agrees with the prefix.
pub proof fn lemma_prefix_row(
    row: Seq<u8>,
    x: Seq<u64>,
    free: Seq<usize>,
    counts: Seq<u64>,
    j: int,
)
    requires
        row.len() == x.len(),
        increasing_below(free, x.len() as int),
        0 <= j <= free.len(),
        agrees(x, free, counts, j),
    ensures
        partial_row(row, free, counts, j) <= row_sum(row, x),
{
    let n = if j < free.len() { free[j] as int } else { x.len() as int };
    lemma_prefix_splits(free, j, x.len() as int);
    lemma_partial_row_le(row, x, free, counts, j, n);
    lemma_row_sum_mono(row, x, n, x.len() as int);
}

/// A partial row sum reads only the counts of the prefix.
pub proof fn lemma_partial_row_same(
    row: Seq<u8>,
    free: Seq<usize>,
    a: Seq<u64>,
    b: Seq<u64>,
    n: int,
)
    requires
        forall|j: int| 0 <= j < n ==> a[j] == b[j],
    ensures
        partial_row(row, free, a, n) == partial_row(row, free, b, n),
    decreases n,
{
    if n > 0 {
        lemma_partial_row_same(row, free, a, b, n - 1);
    }
}

/// A partial total reads only the counts of the prefix.
pub proof fn lemma_total_same(a: Seq<u64>, b: Seq<u64>, n: int)
    requires
        forall|j: int| 0 <= j < n ==> a[j] == b[j],
    ensures
        total_upto(a, n) == total_upto(b, n),
    decreases n,
{
    if n > 0 {
        lemma_total_same(a, b, n - 1);
    }
}

/// In a row whose pivot columns are zero but for a one in column
/// `pivots[i]`, the dot product with a press vector is the pivot's count
/// plus the contribution of the free columns.
pub proof fn lemma_pivot_value(
    row: Seq<real>,
    pivots: Seq<usize>,
    free: Seq<usize>,
    counts: Seq<u64>,
    x: Seq<u64>,
    i: int,
    j: int,
    n: int,
)
    requires
        0 <= n <= x.len() <= usize::MAX,
        row.len() == x.len(),
        increasing_below(pivots, x.len() as int),
        is_complement(pivots, free, x.len() as int),
        0 <= i < pivots.len(),
        forall|k: int|
            0 <= k < pivots.len() ==> row[#[trigger] pivots[k] as int] == (if k == i {
                1real
            } else {
                0real
            }),
        splits_at(free, j, n),
        agrees(x, free, counts, j),
    ensures
        dot_upto(row, reals_of(x), n) == free_sum(row, free, counts, j) + (if pivots[i] < n {
            x[pivots[i] as int] as real
        } else {
            0real
        }),
    decreases n,
{
    if n == 0 {
        if j > 0 {
            assert(free[0] < 0);
        }
    } else {
        let c = (n - 1) as usize;
        let v = reals_of(x)[n - 1];
        if j > 0 && free[j - 1] == n - 1 {
            assert forall|t: int| 0 <= t < j - 1 implies free[t] < n - 1 by {
                assert(free[t] < free[j - 1]);
            }
            lemma_pivot_value(row, pivots, free, counts, x, i, j - 1, n - 1);
            assert(x[free[j - 1] as int] == counts[j - 1]);
            assert(free.contains(c));
            assert(!pivots.contains(c));
            assert(pivots[i] != c);
        } else {
            assert forall|t: int| 0 <= t < j implies free[t] < n - 1 by {
                if t < j - 1 {
                    assert(free[t] < free[j - 1]);
                }
            }
            lemma_pivot_value(row, pivots, free, counts, x, i, j, n - 1);
            if free.contains(c) {
                let t = choose|t: int| 0 <= t < free.len() && free[t] == c;
                if t < j {
                    if t < j - 1 {
                        assert(free[t] < free[j - 1]);
                    }
                    assert(free[j - 1] < n);
                } else {
                    assert(free[t] >= n);
                }
                assert(false);
            }
            assert(pivots.contains(c));
            let k = choose|k: int| 0 <= k < pivots.len() && pivots[k] == c;
            assert(row[pivots[k] as int] == (if k == i {
                1real
            } else {
                0real
            }));
            lemma_rmul_one(v);
            lemma_rmul_zero(v);
            if k != i {
                if k < i {
                    assert(pivots[k] < pivots[i]);
                } else {
                    assert(pivots[i] < pivots[k]);
                }
            }
        }
    }
}

} // verus!
