//! What the cheap deductions of the reducer preserve.
//!
//! While the reducer runs, every button is either still active or has been
//! given a fixed press count. The invariant below says that the fixed counts
//! are forced: every press vector that satisfies the system gives each
//! inactive button that touches a row exactly its fixed count.

use vstd::prelude::*;
use crate::days::day10::assignment::{
    lemma_entry_le_row_sum, lemma_row_sum_nonneg, lemma_total_nonneg, partial_row,
};
use crate::days::day10::linear::{
    is_rectangular, is_touched, lemma_row_sum_agree, lemma_row_sum_le, lemma_row_sum_update,
    lemma_total_le, lemma_total_update, row_sum, row_sum_upto, satisfies, total, total_upto,
    touches,
};
use crate::days::day10::real_rows::increasing_below;
use crate::days::day10::solver::{column_count, is_least_total, is_unsatisfiable};

verus! {

/// The press vector gives every inactive button that touches a row its
/// fixed count.
pub open spec fn follows(
    matrix: Seq<Seq<u8>>,
    active: Seq<bool>,
    fixed: Seq<u64>,
    x: Seq<u64>,
) -> bool {
    forall|b: int|
        0 <= b < active.len() && !active[b] && is_touched(matrix, b) ==> #[trigger] x[b]
            == fixed[b]
}

/// The state of a reduction: the demand that remains for each row, and the
/// count fixed for each inactive button.
pub open spec fn reduction_inv(
    matrix: Seq<Seq<u8>>,
    target: Seq<u64>,
    active: Seq<bool>,
    remaining: Seq<u64>,
    fixed: Seq<u64>,
) -> bool {
    &&& matrix.len() == target.len()
    &&& remaining.len() == target.len()
    &&& is_rectangular(matrix, active.len() as int)
    &&& fixed.len() == active.len()
    &&& forall|b: int|
        0 <= b < active.len() && #[trigger] active[b] ==> fixed[b] == 0 && is_touched(matrix, b)
    &&& forall|b: int| 0 <= b < active.len() && !is_touched(matrix, b) ==> #[trigger] fixed[b] == 0
    &&& forall|r: int|
        0 <= r < matrix.len() ==> #[trigger] remaining[r] + row_sum(matrix[r], fixed) == target[r]
    &&& forall|x: Seq<u64>|
        x.len() == active.len() && #[trigger] satisfies(matrix, target, x) ==> follows(
            matrix,
            active,
            fixed,
            x,
        )
}

/// Button `b` is the only active button that touches row `r`.
pub open spec fn sole_cover(matrix: Seq<Seq<u8>>, active: Seq<bool>, r: int, b: int) -> bool {
    &&& 0 <= b < active.len()
    &&& active[b]
    &&& touches(matrix, r, b)
    &&& forall|c: int| 0 <= c < active.len() && active[c] && touches(matrix, r, c) ==> c == b
}

/// No active button touches row `r`.
pub open spec fn uncovered(matrix: Seq<Seq<u8>>, active: Seq<bool>, r: int) -> bool {
    forall|c: int| 0 <= c < active.len() && active[c] ==> !touches(matrix, r, c)
}

/// The number of active buttons among the first `n`.
pub open spec fn count_active(active: Seq<bool>, n: int) -> int
    decreases n,
{
    if n <= 0 {
        0
    } else {
        count_active(active, n - 1) + if active[n - 1] {
            1int
        } else {
            0int
        }
    }
}

/// Deactivating a button lowers the number of active buttons by one.
pub proof fn lemma_count_active_drop(active: Seq<bool>, b: int, n: int)
    requires
        0 <= b < active.len(),
        active[b],
        n <= active.len(),
    ensures
        count_active(active.update(b, false), n) == count_active(active, n) - (if b < n {
            1int
        } else {
            0int
        }),
        0 <= count_active(active, n),
    decreases n,
{
    if n > 0 {
        lemma_count_active_drop(active, b, n - 1);
    }
}

/// A vector of zeros adds nothing to a row.
pub proof fn lemma_row_sum_zeros(row: Seq<u8>, x: Seq<u64>, n: int)
    requires
        forall|c: int| 0 <= c < n ==> x[c] == 0,
    ensures
        row_sum_upto(row, x, n) == 0,
    decreases n,
{
    if n > 0 {
        lemma_row_sum_zeros(row, x, n - 1);
    }
}

/// At the start nothing is fixed: the buttons set aside touch a row whose
/// target is zero, or touch no row at all, so no solution presses them.
pub proof fn lemma_reduction_start(
    matrix: Seq<Seq<u8>>,
    target: Seq<u64>,
    active: Seq<bool>,
    fixed: Seq<u64>,
)
    requires
        matrix.len() == target.len(),
        is_rectangular(matrix, active.len() as int),
        fixed.len() == active.len(),
        forall|b: int| 0 <= b < fixed.len() ==> fixed[b] == 0,
        forall|b: int| 0 <= b < active.len() && #[trigger] active[b] ==> is_touched(matrix, b),
        forall|b: int|
            0 <= b < active.len() && !#[trigger] active[b] && is_touched(matrix, b) ==> exists|
                r: int,
            |
                0 <= r < matrix.len() && touches(matrix, r, b) && target[r] == 0,
    ensures
        reduction_inv(matrix, target, active, target, fixed),
{
    assert forall|r: int| 0 <= r < matrix.len() implies #[trigger] target[r] + row_sum(
        matrix[r],
        fixed,
    ) == target[r] by {
        lemma_row_sum_zeros(matrix[r], fixed, matrix[r].len() as int);
    }
    assert forall|x: Seq<u64>|
        x.len() == active.len() && #[trigger] satisfies(matrix, target, x) implies follows(
        matrix,
        active,
        fixed,
        x,
    ) by {
        assert forall|b: int|
            0 <= b < active.len() && !active[b] && is_touched(matrix, b) implies #[trigger] x[b]
            == fixed[b] by {
            let r = choose|r: int|
                0 <= r < matrix.len() && touches(matrix, r, b) && target[r] == 0;
            lemma_entry_le_row_sum(matrix[r], x, b, matrix[r].len() as int);
            assert(row_sum(matrix[r], x) == target[r]);
        }
    }
}

/// Every solution presses the sole cover of a row as often as the row still
/// demands.
pub proof fn lemma_sole_cover(
    matrix: Seq<Seq<u8>>,
    target: Seq<u64>,
    active: Seq<bool>,
    remaining: Seq<u64>,
    fixed: Seq<u64>,
    r: int,
    b: int,
    x: Seq<u64>,
)
    requires
        reduction_inv(matrix, target, active, remaining, fixed),
        0 <= r < matrix.len(),
        sole_cover(matrix, active, r, b),
        x.len() == active.len(),
        satisfies(matrix, target, x),
    ensures
        x[b] == remaining[r],
{
    let row = matrix[r];
    let y = fixed.update(b, x[b]);
    assert(follows(matrix, active, fixed, x));
    assert forall|c: int| 0 <= c < row.len() && row[c] != 0 implies x[c] == y[c] by {
        if c != b {
            assert(touches(matrix, r, c));
            assert(is_touched(matrix, c));
            assert(!active[c]);
        }
    }
    lemma_row_sum_agree(row, x, y, row.len() as int);
    lemma_row_sum_update(row, fixed, b, x[b], row.len() as int);
    assert(row_sum(row, x) == target[r]);
    assert(remaining[r] + row_sum(row, fixed) == target[r]);
}

/// A row that still demands presses and has no active button left makes the
/// system unsatisfiable.
pub proof fn lemma_uncovered(
    matrix: Seq<Seq<u8>>,
    target: Seq<u64>,
    active: Seq<bool>,
    remaining: Seq<u64>,
    fixed: Seq<u64>,
    r: int,
)
    requires
        reduction_inv(matrix, target, active, remaining, fixed),
        0 <= r < matrix.len(),
        remaining[r] > 0,
        uncovered(matrix, active, r),
    ensures
        is_unsatisfiable(matrix, target, active.len() as int),
{
    let row = matrix[r];
    assert forall|x: Seq<u64>| x.len() == active.len() implies !#[trigger] satisfies(
        matrix,
        target,
        x,
    ) by {
        if satisfies(matrix, target, x) {
            assert(follows(matrix, active, fixed, x));
            assert forall|c: int| 0 <= c < row.len() && row[c] != 0 implies x[c] == fixed[c] by {
                assert(touches(matrix, r, c));
                assert(is_touched(matrix, c));
            }
            lemma_row_sum_agree(row, x, fixed, row.len() as int);
            assert(row_sum(row, x) == target[r]);
            assert(remaining[r] + row_sum(row, fixed) == target[r]);
        }
    }
}

/// When the sole cover of a row would have to be pressed more often than
/// another row it touches still demands, the system is unsatisfiable.
pub proof fn lemma_short_row(
    matrix: Seq<Seq<u8>>,
    target: Seq<u64>,
    active: Seq<bool>,
    remaining: Seq<u64>,
    fixed: Seq<u64>,
    r: int,
    b: int,
    other: int,
)
    requires
        reduction_inv(matrix, target, active, remaining, fixed),
        0 <= r < matrix.len(),
        sole_cover(matrix, active, r, b),
        0 <= other < matrix.len(),
        touches(matrix, other, b),
        remaining[other] < remaining[r],
    ensures
        is_unsatisfiable(matrix, target, active.len() as int),
{
    let row = matrix[other];
    assert forall|x: Seq<u64>| x.len() == active.len() implies !#[trigger] satisfies(
        matrix,
        target,
        x,
    ) by {
        if satisfies(matrix, target, x) {
            lemma_sole_cover(matrix, target, active, remaining, fixed, r, b, x);
            let y = fixed.update(b, x[b]);
            assert(follows(matrix, active, fixed, x));
            assert forall|c: int| 0 <= c < row.len() && row[c] != 0 implies y[c] <= x[c] by {
                if c != b {
                    assert(touches(matrix, other, c));
                    assert(is_touched(matrix, c));
                    if active[c] {
                        assert(fixed[c] == 0);
                    }
                }
            }
            lemma_row_sum_le(row, y, x, row.len() as int);
            lemma_row_sum_update(row, fixed, b, x[b], row.len() as int);
            assert(row_sum(row, x) == target[other]);
            assert(remaining[other] + row_sum(row, fixed) == target[other]);
        }
    }
}

/// Fixing the sole cover of a row at the row's remaining demand, and taking
/// that count off every row the button touches, keeps the invariant.
pub proof fn lemma_forced(
    matrix: Seq<Seq<u8>>,
    target: Seq<u64>,
    active: Seq<bool>,
    remaining: Seq<u64>,
    fixed: Seq<u64>,
    r: int,
    b: int,
    after: Seq<u64>,
)
    requires
        reduction_inv(matrix, target, active, remaining, fixed),
        0 <= r < matrix.len(),
        sole_cover(matrix, active, r, b),
        after.len() == remaining.len(),
        forall|q: int|
            0 <= q < matrix.len() ==> #[trigger] after[q] == remaining[q] - (if touches(
                matrix,
                q,
                b,
            ) {
                remaining[r] as int
            } else {
                0
            }),
    ensures
        reduction_inv(
            matrix,
            target,
            active.update(b, false),
            after,
            fixed.update(b, remaining[r]),
        ),
{
    let need = remaining[r];
    let active2 = active.update(b, false);
    let fixed2 = fixed.update(b, need);
    assert(is_touched(matrix, b));
    assert forall|q: int| 0 <= q < matrix.len() implies #[trigger] after[q] + row_sum(
        matrix[q],
        fixed2,
    ) == target[q] by {
        lemma_row_sum_update(matrix[q], fixed, b, need, matrix[q].len() as int);
        assert(remaining[q] + row_sum(matrix[q], fixed) == target[q]);
    }
    assert forall|x: Seq<u64>|
        x.len() == active2.len() && #[trigger] satisfies(matrix, target, x) implies follows(
        matrix,
        active2,
        fixed2,
        x,
    ) by {
        assert(follows(matrix, active, fixed, x));
        lemma_sole_cover(matrix, target, active, remaining, fixed, r, b, x);
        assert forall|c: int|
            0 <= c < active2.len() && !active2[c] && is_touched(matrix, c) implies #[trigger] x[c]
            == fixed2[c] by {
            if c != b {
                assert(!active[c]);
            }
        }
    }
    assert forall|c: int| 0 <= c < active2.len() && #[trigger] active2[c] implies fixed2[c] == 0
        && is_touched(matrix, c) by {
        assert(active[c]);
    }
    assert forall|c: int| 0 <= c < active2.len() && !is_touched(matrix, c) implies #[trigger] fixed2[c]
        == 0 by {
        assert(fixed[c] == 0);
    }
}

/// An active button that touches a row with no demand left is never
/// pressed, so setting it aside keeps the invariant.
pub proof fn lemma_removed(
    matrix: Seq<Seq<u8>>,
    target: Seq<u64>,
    active: Seq<bool>,
    remaining: Seq<u64>,
    fixed: Seq<u64>,
    r: int,
    b: int,
)
    requires
        reduction_inv(matrix, target, active, remaining, fixed),
        0 <= r < matrix.len(),
        0 <= b < active.len(),
        active[b],
        touches(matrix, r, b),
        remaining[r] == 0,
    ensures
        reduction_inv(matrix, target, active.update(b, false), remaining, fixed),
{
    let active2 = active.update(b, false);
    let row = matrix[r];
    assert forall|x: Seq<u64>|
        x.len() == active2.len() && #[trigger] satisfies(matrix, target, x) implies follows(
        matrix,
        active2,
        fixed,
        x,
    ) by {
        assert(follows(matrix, active, fixed, x));
        let y = fixed.update(b, x[b]);
        assert forall|c: int| 0 <= c < row.len() && row[c] != 0 implies y[c] <= x[c] by {
            if c != b {
                assert(touches(matrix, r, c));
                assert(is_touched(matrix, c));
                if active[c] {
                    assert(fixed[c] == 0);
                }
            }
        }
        lemma_row_sum_le(row, y, x, row.len() as int);
        lemma_row_sum_update(row, fixed, b, x[b], row.len() as int);
        assert(row_sum(row, x) == target[r]);
        assert(remaining[r] + row_sum(row, fixed) == target[r]);
        assert(x[b] == 0);
        assert forall|c: int|
            0 <= c < active2.len() && !active2[c] && is_touched(matrix, c) implies #[trigger] x[c]
            == fixed[c] by {
            if c != b {
                assert(!active[c]);
            }
        }
    }
    assert forall|c: int| 0 <= c < active2.len() && #[trigger] active2[c] implies fixed[c] == 0
        && is_touched(matrix, c) by {
        assert(active[c]);
    }
}

/// Rows `r` is touched by two different active buttons.
pub open spec fn two_covers(matrix: Seq<Seq<u8>>, active: Seq<bool>, r: int) -> bool {
    exists|b: int, c: int|
        0 <= b < c < active.len() && active[b] && active[c] && touches(matrix, r, b) && touches(
            matrix,
            r,
            c,
        )
}

/// The fixpoint of the reducer: no active button touches a row without
/// demand, and every row with demand has two active buttons.
pub open spec fn at_fixpoint(matrix: Seq<Seq<u8>>, active: Seq<bool>, remaining: Seq<u64>) -> bool {
    &&& forall|b: int, r: int|
        0 <= b < active.len() && active[b] && touches(matrix, r, b) ==> remaining[r] > 0
    &&& forall|r: int| 0 <= r < matrix.len() && remaining[r] > 0 ==> two_covers(matrix, active, r)
}

/// `rows` lists in increasing order the rows that still have demand, and
/// `cols` the buttons that are still active.
pub open spec fn survivors(
    active: Seq<bool>,
    remaining: Seq<u64>,
    rows: Seq<usize>,
    cols: Seq<usize>,
) -> bool {
    &&& increasing_below(rows, remaining.len() as int)
    &&& forall|r: usize| r < remaining.len() ==> (#[trigger] rows.contains(r) <==> remaining[r as int] > 0)
    &&& increasing_below(cols, active.len() as int)
    &&& forall|b: usize| b < active.len() ==> (#[trigger] cols.contains(b) <==> active[b as int])
}

/// `small` is the system restricted to the rows and columns listed.
pub open spec fn is_selection(
    small: Seq<Seq<u8>>,
    matrix: Seq<Seq<u8>>,
    rows: Seq<usize>,
    cols: Seq<usize>,
) -> bool {
    &&& small.len() == rows.len()
    &&& is_rectangular(small, cols.len() as int)
    &&& forall|i: int, j: int|
        0 <= i < rows.len() && 0 <= j < cols.len() ==> ((#[trigger] small[i][j] != 0)
            <==> matrix[rows[i] as int][cols[j] as int] != 0)
}

/// The fixed counts with the first `j` listed columns set to the counts `y`.
pub open spec fn scatter(fixed: Seq<u64>, cols: Seq<usize>, y: Seq<u64>, j: int) -> Seq<u64>
    decreases j,
{
    if j <= 0 {
        fixed
    } else {
        scatter(fixed, cols, y, j - 1).update(cols[j - 1] as int, y[j - 1])
    }
}

/// The counts that `x` gives the listed columns.
pub open spec fn gather(x: Seq<u64>, cols: Seq<usize>) -> Seq<u64> {
    Seq::new(cols.len(), |j: int| x[cols[j] as int])
}

/// What scattering does to entries, row sums and the total.
pub proof fn lemma_scatter(row: Seq<u8>, fixed: Seq<u64>, cols: Seq<usize>, y: Seq<u64>, j: int)
    requires
        increasing_below(cols, fixed.len() as int),
        0 <= j <= cols.len(),
        row.len() == fixed.len(),
        forall|t: int| 0 <= t < cols.len() ==> fixed[#[trigger] cols[t] as int] == 0,
    ensures
        scatter(fixed, cols, y, j).len() == fixed.len(),
        forall|t: int| 0 <= t < j ==> scatter(fixed, cols, y, j)[#[trigger] cols[t] as int] == y[t],
        forall|b: int|
            0 <= b < fixed.len() && (forall|t: int| 0 <= t < j ==> cols[t] != b) ==> #[trigger] scatter(
                fixed,
                cols,
                y,
                j,
            )[b] == fixed[b],
        row_sum(row, scatter(fixed, cols, y, j)) == row_sum(row, fixed) + partial_row(
            row,
            cols,
            y,
            j,
        ),
        total(scatter(fixed, cols, y, j)) == total(fixed) + total_upto(y, j),
    decreases j,
{
    if j > 0 {
        lemma_scatter(row, fixed, cols, y, j - 1);
        let prev = scatter(fixed, cols, y, j - 1);
        let c = cols[j - 1] as int;
        assert(prev[c] == fixed[c]) by {
            assert forall|t: int| 0 <= t < j - 1 implies cols[t] != c by {
                assert(cols[t] < cols[j - 1]);
            }
        }
        lemma_row_sum_update(row, prev, c, y[j - 1], row.len() as int);
        lemma_total_update(prev, c, y[j - 1], prev.len() as int);
        let cur = scatter(fixed, cols, y, j);
        assert forall|t: int| 0 <= t < j implies cur[#[trigger] cols[t] as int] == y[t] by {
            if t < j - 1 {
                assert(cols[t] < cols[j - 1]);
                assert(prev[cols[t] as int] == y[t]);
            }
        }
        assert forall|b: int|
            0 <= b < fixed.len() && (forall|t: int| 0 <= t < j ==> cols[t] != b) implies #[trigger] cur[b]
            == fixed[b] by {
            assert(cols[j - 1] != b);
            assert(forall|t: int| 0 <= t < j - 1 ==> cols[t] != b);
            assert(prev[b] == fixed[b]);
        }
    }
}

/// A row of the selection has the sum that the listed columns add to the
/// row it was taken from.
pub proof fn lemma_selected_row(
    small_row: Seq<u8>,
    row: Seq<u8>,
    cols: Seq<usize>,
    y: Seq<u64>,
    j: int,
)
    requires
        forall|t: int| 0 <= t < j ==> ((#[trigger] small_row[t] != 0) <==> row[cols[t] as int] != 0),
    ensures
        row_sum_upto(small_row, y, j) == partial_row(row, cols, y, j),
    decreases j,
{
    if j > 0 {
        lemma_selected_row(small_row, row, cols, y, j - 1);
        assert((small_row[j - 1] != 0) <==> row[cols[j - 1] as int] != 0);
    }
}

/// Columns that do not touch a row add nothing to it.
pub proof fn lemma_partial_row_zero(row: Seq<u8>, cols: Seq<usize>, y: Seq<u64>, j: int)
    requires
        forall|t: int| 0 <= t < j ==> row[#[trigger] cols[t] as int] == 0,
    ensures
        partial_row(row, cols, y, j) == 0,
    decreases j,
{
    if j > 0 {
        lemma_partial_row_zero(row, cols, y, j - 1);
        assert(row[cols[j - 1] as int] == 0);
    }
}

/// Two different buttons touch row `i`.
pub open spec fn row_has_two(matrix: Seq<Seq<u8>>, i: int) -> bool {
    exists|j: int, k: int| j < k && touches(matrix, i, j) && touches(matrix, i, k)
}

/// The shape that the reducer leaves: every row has a target above zero and
/// two buttons, and every button touches a row.
pub open spec fn is_reduced(matrix: Seq<Seq<u8>>, target: Seq<u64>, cols: int) -> bool {
    &&& matrix.len() == target.len()
    &&& is_rectangular(matrix, cols)
    &&& forall|i: int| 0 <= i < target.len() ==> #[trigger] target[i] > 0
    &&& forall|i: int| 0 <= i < matrix.len() ==> #[trigger] row_has_two(matrix, i)
    &&& forall|j: int| 0 <= j < cols ==> #[trigger] is_touched(matrix, j)
}

/// Every entry is zero or one.
pub open spec fn is_binary(matrix: Seq<Seq<u8>>) -> bool {
    forall|i: int, j: int|
        0 <= i < matrix.len() && 0 <= j < matrix[i].len() ==> #[trigger] matrix[i][j] <= 1
}

/// The numbers from zero up to `n`.
pub open spec fn identity(n: nat) -> Seq<usize> {
    Seq::new(n, |i: int| i as usize)
}

/// At the fixpoint every surviving row has two surviving buttons, and every
/// surviving button touches a surviving row.
pub proof fn lemma_selection_shape(
    matrix: Seq<Seq<u8>>,
    target: Seq<u64>,
    active: Seq<bool>,
    remaining: Seq<u64>,
    fixed: Seq<u64>,
    rows: Seq<usize>,
    cols: Seq<usize>,
    small: Seq<Seq<u8>>,
)
    requires
        reduction_inv(matrix, target, active, remaining, fixed),
        at_fixpoint(matrix, active, remaining),
        survivors(active, remaining, rows, cols),
        is_selection(small, matrix, rows, cols),
        matrix.len() <= usize::MAX,
        active.len() <= usize::MAX,
    ensures
        forall|i: int| 0 <= i < small.len() ==> #[trigger] row_has_two(small, i),
        forall|j: int| 0 <= j < cols.len() ==> #[trigger] is_touched(small, j),
{
    assert forall|i: int| 0 <= i < small.len() implies #[trigger] row_has_two(small, i) by {
        let r = rows[i] as int;
        assert(rows.contains(rows[i]));
        assert(two_covers(matrix, active, r));
        let (b, c) = choose|b: int, c: int|
            0 <= b < c < active.len() && active[b] && active[c] && touches(matrix, r, b)
                && touches(matrix, r, c);
        assert(cols.contains(b as usize));
        assert(cols.contains(c as usize));
        let j = choose|j: int| 0 <= j < cols.len() && cols[j] == b as usize;
        let k = choose|k: int| 0 <= k < cols.len() && cols[k] == c as usize;
        if k <= j {
            if k < j {
                assert(cols[k] < cols[j]);
            }
        }
        assert((small[i][j] != 0) <==> matrix[rows[i] as int][cols[j] as int] != 0);
        assert((small[i][k] != 0) <==> matrix[rows[i] as int][cols[k] as int] != 0);
        assert(small[i].len() == cols.len());
        assert(j < k && touches(small, i, j) && touches(small, i, k));
    }
    assert forall|j: int| 0 <= j < cols.len() implies #[trigger] is_touched(small, j) by {
        let b = cols[j] as int;
        assert(cols.contains(cols[j]));
        assert(active[b]);
        assert(is_touched(matrix, b));
        let r = choose|r: int| 0 <= r < matrix.len() && touches(matrix, r, b);
        assert(remaining[r] > 0);
        assert(rows.contains(r as usize));
        let i = choose|i: int| 0 <= i < rows.len() && rows[i] == r as usize;
        assert((small[i][j] != 0) <==> matrix[rows[i] as int][cols[j] as int] != 0);
        assert(small[i].len() == cols.len());
        assert(touches(small, i, j));
    }
}

/// Some vector of `cols` press counts satisfies the system.
pub open spec fn is_satisfiable(matrix: Seq<Seq<u8>>, target: Seq<u64>, cols: int) -> bool {
    exists|x: Seq<u64>| x.len() == cols && #[trigger] satisfies(matrix, target, x)
}

/// Among the states at the fixpoint this one sets the fewest buttons aside:
/// where the system has a solution, every button that is active in some
/// state at the fixpoint is active here.
#[verifier::opaque]
pub open spec fn dominant(matrix: Seq<Seq<u8>>, target: Seq<u64>, active: Seq<bool>) -> bool {
    is_satisfiable(matrix, target, active.len() as int) ==> forall|
        a: Seq<bool>,
        r: Seq<u64>,
        f: Seq<u64>,
        b: int,
    |
        #![trigger reduction_inv(matrix, target, a, r, f), a[b]]
        reduction_inv(matrix, target, a, r, f) && at_fixpoint(matrix, a, r) && a.len()
            == active.len() && 0 <= b < active.len() && a[b] ==> active[b]
}

/// At the start the buttons set aside touch no row or a row without
/// demand: no state has them active.
pub proof fn lemma_dominant_start(matrix: Seq<Seq<u8>>, target: Seq<u64>, active: Seq<bool>)
    requires
        forall|b: int|
            0 <= b < active.len() && !#[trigger] active[b] && is_touched(matrix, b) ==> exists|
                r: int,
            |
                0 <= r < matrix.len() && touches(matrix, r, b) && target[r] == 0,
    ensures
        dominant(matrix, target, active),
{
    reveal(dominant);
    assert forall|a: Seq<bool>, r: Seq<u64>, f: Seq<u64>, b: int|
        #![trigger reduction_inv(matrix, target, a, r, f), a[b]]
        reduction_inv(matrix, target, a, r, f) && at_fixpoint(matrix, a, r) && a.len()
            == active.len() && 0 <= b < active.len() && a[b] implies active[b] by {
        if !active[b] {
            assert(is_touched(matrix, b));
            let q = choose|q: int| 0 <= q < matrix.len() && touches(matrix, q, b) && target[q] == 0;
            assert(r[q] > 0);
            lemma_row_sum_nonneg(matrix[q], f, matrix[q].len() as int);
            assert(r[q] + row_sum(matrix[q], f) == target[q]);
        }
    }
}

/// Setting aside the only button of a row keeps the state dominant: no
/// state at the fixpoint has that button active.
pub proof fn lemma_dominant_forced(
    matrix: Seq<Seq<u8>>,
    target: Seq<u64>,
    active: Seq<bool>,
    r0: int,
    b0: int,
)
    requires
        dominant(matrix, target, active),
        0 <= r0 < matrix.len(),
        sole_cover(matrix, active, r0, b0),
    ensures
        dominant(matrix, target, active.update(b0, false)),
{
    reveal(dominant);
    let after = active.update(b0, false);
    if is_satisfiable(matrix, target, active.len() as int) {
        assert forall|a: Seq<bool>, r: Seq<u64>, f: Seq<u64>, b: int|
            #![trigger reduction_inv(matrix, target, a, r, f), a[b]]
            reduction_inv(matrix, target, a, r, f) && at_fixpoint(matrix, a, r) && a.len()
                == after.len() && 0 <= b < after.len() && a[b] implies after[b] by {
            assert(active[b]);
            if b == b0 {
                assert(r[r0] > 0);
                assert(two_covers(matrix, a, r0));
                let (c, d) = choose|c: int, d: int|
                    0 <= c < d < a.len() && a[c] && a[d] && touches(matrix, r0, c) && touches(
                        matrix,
                        r0,
                        d,
                    );
                assert(active[c]);
                assert(active[d]);
            }
        }
    }
}

/// Setting aside a button that touches a row without demand keeps the
/// state dominant: in no state at the fixpoint has that row demand left.
pub proof fn lemma_dominant_removed(
    matrix: Seq<Seq<u8>>,
    target: Seq<u64>,
    active: Seq<bool>,
    remaining: Seq<u64>,
    fixed: Seq<u64>,
    r0: int,
    b0: int,
)
    requires
        dominant(matrix, target, active),
        reduction_inv(matrix, target, active, remaining, fixed),
        0 <= r0 < matrix.len(),
        0 <= b0 < active.len(),
        touches(matrix, r0, b0),
        remaining[r0] == 0,
    ensures
        dominant(matrix, target, active.update(b0, false)),
{
    reveal(dominant);
    let after = active.update(b0, false);
    if is_satisfiable(matrix, target, active.len() as int) {
        let x = choose|x: Seq<u64>| x.len() == active.len() && #[trigger] satisfies(matrix, target, x);
        assert forall|a: Seq<bool>, r: Seq<u64>, f: Seq<u64>, b: int|
            #![trigger reduction_inv(matrix, target, a, r, f), a[b]]
            reduction_inv(matrix, target, a, r, f) && at_fixpoint(matrix, a, r) && a.len()
                == after.len() && 0 <= b < after.len() && a[b] implies after[b] by {
            assert(active[b]);
            if b == b0 {
                let row = matrix[r0];
                assert(r[r0] > 0);
                assert(follows(matrix, active, fixed, x));
                assert(follows(matrix, a, f, x));
                assert forall|c: int| 0 <= c < row.len() && row[c] != 0 implies fixed[c] <= f[c] by {
                    assert(touches(matrix, r0, c));
                    assert(is_touched(matrix, c));
                    if active[c] {
                        assert(fixed[c] == 0);
                    } else {
                        if a[c] {
                            assert(active[c]);
                        }
                        assert(x[c] == fixed[c]);
                        assert(x[c] == f[c]);
                    }
                }
                lemma_row_sum_le(row, fixed, f, row.len() as int);
                assert(remaining[r0] + row_sum(matrix[r0], fixed) == target[r0]);
                assert(r[r0] + row_sum(matrix[r0], f) == target[r0]);
            }
        }
    }
}

/// `small` with the demands `small_target` is what is left in a state of
/// the reduction: the rows that still have demand and the buttons that are
/// still active, with the demands that remain.
pub open spec fn is_residue(
    matrix: Seq<Seq<u8>>,
    active: Seq<bool>,
    remaining: Seq<u64>,
    small: Seq<Seq<u8>>,
    small_target: Seq<u64>,
) -> bool {
    exists|rows: Seq<usize>, cols: Seq<usize>|
        {
            &&& #[trigger] survivors(active, remaining, rows, cols)
            &&& is_selection(small, matrix, rows, cols)
            &&& column_count(small) == cols.len()
            &&& small_target.len() == rows.len()
            &&& forall|i: int|
                0 <= i < rows.len() ==> small_target[i] == remaining[#[trigger] rows[i] as int]
        }
}

/// `small` with the demands `small_target` and the forced total `forced` is
/// what the reducer's fixpoint leaves of the system: there is a state of
/// the reduction, forced by the system, at the fixpoint and dominant, whose
/// fixed counts add up to `forced` and whose residue is `small`.
pub open spec fn is_reduction(
    matrix: Seq<Seq<u8>>,
    target: Seq<u64>,
    forced: int,
    small: Seq<Seq<u8>>,
    small_target: Seq<u64>,
) -> bool {
    exists|active: Seq<bool>, remaining: Seq<u64>, fixed: Seq<u64>|
        {
            &&& #[trigger] reduction_inv(matrix, target, active, remaining, fixed)
            &&& at_fixpoint(matrix, active, remaining)
            &&& dominant(matrix, target, active)
            &&& is_residue(matrix, active, remaining, small, small_target)
            &&& forced == total(fixed)
        }
}

/// The survivors of a state at the fixpoint are what the reducer leaves.
pub proof fn lemma_is_reduction(
    matrix: Seq<Seq<u8>>,
    target: Seq<u64>,
    active: Seq<bool>,
    remaining: Seq<u64>,
    fixed: Seq<u64>,
    rows: Seq<usize>,
    cols: Seq<usize>,
    small: Seq<Seq<u8>>,
    small_target: Seq<u64>,
)
    requires
        reduction_inv(matrix, target, active, remaining, fixed),
        at_fixpoint(matrix, active, remaining),
        dominant(matrix, target, active),
        survivors(active, remaining, rows, cols),
        is_selection(small, matrix, rows, cols),
        column_count(small) == cols.len(),
        small_target.len() == rows.len(),
        forall|i: int| 0 <= i < rows.len() ==> small_target[i] == remaining[#[trigger] rows[i] as int],
    ensures
        is_reduction(matrix, target, total(fixed), small, small_target),
{
    assert(is_residue(matrix, active, remaining, small, small_target));
}

/// Two increasing lists with the same members are the same list.
pub proof fn lemma_same_members(a: Seq<usize>, b: Seq<usize>, bound: int)
    requires
        increasing_below(a, bound),
        increasing_below(b, bound),
        forall|v: usize| #[trigger] a.contains(v) <==> b.contains(v),
    ensures
        a == b,
    decreases a.len(),
{
    if a.len() == 0 {
        if b.len() > 0 {
            assert(b.contains(b[0]));
            assert(a.contains(b[0]));
        }
        assert(a =~= b);
    } else if b.len() == 0 {
        assert(a.contains(a[0]));
        assert(b.contains(a[0]));
    } else {
        let top = a.last();
        assert(a.contains(top));
        assert(b.contains(top));
        let k = choose|k: int| 0 <= k < b.len() && b[k] == top;
        assert(b.contains(b.last()));
        assert(a.contains(b.last()));
        let j = choose|j: int| 0 <= j < a.len() && a[j] == b.last();
        if k < b.len() - 1 {
            assert(b[k] < b[b.len() - 1]);
            if j < a.len() - 1 {
                assert(a[j] < a[a.len() - 1]);
            }
        }
        assert(b.last() == top);
        let a2 = a.drop_last();
        let b2 = b.drop_last();
        assert forall|v: usize| #[trigger] a2.contains(v) <==> b2.contains(v) by {
            if a2.contains(v) {
                let i = choose|i: int| 0 <= i < a2.len() && a2[i] == v;
                assert(a[i] == v && a[i] < a[a.len() - 1]);
                assert(a.contains(v));
                let m = choose|m: int| 0 <= m < b.len() && b[m] == v;
                assert(m < b.len() - 1);
                assert(b2[m] == v);
            }
            if b2.contains(v) {
                let i = choose|i: int| 0 <= i < b2.len() && b2[i] == v;
                assert(b[i] == v && b[i] < b[b.len() - 1]);
                assert(b.contains(v));
                assert(a.contains(v));
                let m = choose|m: int| 0 <= m < a.len() && a[m] == v;
                assert(m < a.len() - 1);
                assert(a2[m] == v);
            }
        }
        lemma_same_members(a2, b2, bound);
        assert(a =~= a2.push(top));
        assert(b =~= b2.push(top));
    }
}

/// The reducer's result is fixed by the system: for a system with rows and
/// a solution, any two results that the definition admits are the same.
pub proof fn lemma_reduction_unique(
    matrix: Seq<Seq<u8>>,
    target: Seq<u64>,
    forced1: int,
    small1: Seq<Seq<u8>>,
    target1: Seq<u64>,
    forced2: int,
    small2: Seq<Seq<u8>>,
    target2: Seq<u64>,
)
    requires
        matrix.len() > 0,
        is_satisfiable(matrix, target, matrix[0].len() as int),
        is_reduction(matrix, target, forced1, small1, target1),
        is_reduction(matrix, target, forced2, small2, target2),
        is_binary(small1),
        is_binary(small2),
    ensures
        forced1 == forced2,
        small1 == small2,
        target1 == target2,
{
    let (a1, r1, f1) = choose|active: Seq<bool>, remaining: Seq<u64>, fixed: Seq<u64>|
        {
            &&& #[trigger] reduction_inv(matrix, target, active, remaining, fixed)
            &&& at_fixpoint(matrix, active, remaining)
            &&& dominant(matrix, target, active)
            &&& is_residue(matrix, active, remaining, small1, target1)
            &&& forced1 == total(fixed)
        };
    let (a2, r2, f2) = choose|active: Seq<bool>, remaining: Seq<u64>, fixed: Seq<u64>|
        {
            &&& #[trigger] reduction_inv(matrix, target, active, remaining, fixed)
            &&& at_fixpoint(matrix, active, remaining)
            &&& dominant(matrix, target, active)
            &&& is_residue(matrix, active, remaining, small2, target2)
            &&& forced2 == total(fixed)
        };
    let n = matrix[0].len() as int;
    assert(a1.len() == n && a2.len() == n);
    reveal(dominant);
    assert forall|b: int| 0 <= b < n implies a1[b] == a2[b] by {
        if a1[b] {
            assert(reduction_inv(matrix, target, a1, r1, f1) && a1[b]);
            assert(a2[b]);
        }
        if a2[b] {
            assert(reduction_inv(matrix, target, a2, r2, f2) && a2[b]);
            assert(a1[b]);
        }
    }
    assert(a1 =~= a2);
    let x = choose|x: Seq<u64>| x.len() == n && #[trigger] satisfies(matrix, target, x);
    assert(follows(matrix, a1, f1, x));
    assert(follows(matrix, a2, f2, x));
    assert forall|b: int| 0 <= b < n implies f1[b] == f2[b] by {
        if a1[b] {
        } else if is_touched(matrix, b) {
            assert(x[b] == f1[b]);
            assert(x[b] == f2[b]);
        } else {
        }
    }
    assert(f1 =~= f2);
    assert forall|q: int| 0 <= q < r1.len() implies r1[q] == r2[q] by {
        assert(r1[q] + row_sum(matrix[q], f1) == target[q]);
        assert(r2[q] + row_sum(matrix[q], f2) == target[q]);
    }
    assert(r1 =~= r2);
    let (rows1, cols1) = choose|rows: Seq<usize>, cols: Seq<usize>|
        {
            &&& #[trigger] survivors(a1, r1, rows, cols)
            &&& is_selection(small1, matrix, rows, cols)
            &&& column_count(small1) == cols.len()
            &&& target1.len() == rows.len()
            &&& forall|i: int| 0 <= i < rows.len() ==> target1[i] == r1[#[trigger] rows[i] as int]
        };
    let (rows2, cols2) = choose|rows: Seq<usize>, cols: Seq<usize>|
        {
            &&& #[trigger] survivors(a2, r2, rows, cols)
            &&& is_selection(small2, matrix, rows, cols)
            &&& column_count(small2) == cols.len()
            &&& target2.len() == rows.len()
            &&& forall|i: int| 0 <= i < rows.len() ==> target2[i] == r2[#[trigger] rows[i] as int]
        };
    assert forall|v: usize| #[trigger] rows1.contains(v) <==> rows2.contains(v) by {
        if rows1.contains(v) {
            let i = choose|i: int| 0 <= i < rows1.len() && rows1[i] == v;
            assert(v < r1.len());
        }
        if rows2.contains(v) {
            let i = choose|i: int| 0 <= i < rows2.len() && rows2[i] == v;
            assert(v < r1.len());
        }
    }
    lemma_same_members(rows1, rows2, r1.len() as int);
    assert forall|v: usize| #[trigger] cols1.contains(v) <==> cols2.contains(v) by {
        if cols1.contains(v) {
            let i = choose|i: int| 0 <= i < cols1.len() && cols1[i] == v;
            assert(v < a1.len());
        }
        if cols2.contains(v) {
            let i = choose|i: int| 0 <= i < cols2.len() && cols2[i] == v;
            assert(v < a1.len());
        }
    }
    lemma_same_members(cols1, cols2, a1.len() as int);
    assert(target1 =~= target2) by {
        assert forall|i: int| 0 <= i < target1.len() implies target1[i] == target2[i] by {
            assert(target1[i] == r1[rows1[i] as int]);
            assert(target2[i] == r2[rows2[i] as int]);
        }
    }
    assert forall|i: int| 0 <= i < small1.len() implies #[trigger] small1[i] =~= small2[i] by {
        assert(small1[i].len() == cols1.len());
        assert(small2[i].len() == cols1.len());
        assert forall|j: int| 0 <= j < cols1.len() implies small1[i][j] == small2[i][j] by {
            assert((small1[i][j] != 0) <==> matrix[rows1[i] as int][cols1[j] as int] != 0);
            assert((small2[i][j] != 0) <==> matrix[rows1[i] as int][cols1[j] as int] != 0);
            assert(small1[i][j] <= 1 && small2[i][j] <= 1);
        }
    }
    assert(small1 =~= small2);
}

/// A row with demand that fewer than two buttons touch is settled by the
/// reducer: nothing of it remains.
pub proof fn lemma_single_cover_settled(
    matrix: Seq<Seq<u8>>,
    target: Seq<u64>,
    active: Seq<bool>,
    remaining: Seq<u64>,
    fixed: Seq<u64>,
    r: int,
)
    requires
        reduction_inv(matrix, target, active, remaining, fixed),
        at_fixpoint(matrix, active, remaining),
        0 <= r < matrix.len(),
        !row_has_two(matrix, r),
    ensures
        remaining[r] == 0,
{
    if remaining[r] > 0 {
        assert(two_covers(matrix, active, r));
        let (b, c) = choose|b: int, c: int|
            0 <= b < c < active.len() && active[b] && active[c] && touches(matrix, r, b) && touches(
                matrix,
                r,
                c,
            );
        assert(b < c && touches(matrix, r, b) && touches(matrix, r, c));
    }
}

/// Where every row has fewer than two buttons, the reducer leaves nothing:
/// no row and no button.
pub proof fn lemma_single_covers_leave_nothing(
    matrix: Seq<Seq<u8>>,
    target: Seq<u64>,
    forced: int,
    small: Seq<Seq<u8>>,
    small_target: Seq<u64>,
)
    requires
        is_reduction(matrix, target, forced, small, small_target),
        forall|r: int| 0 <= r < matrix.len() ==> !#[trigger] row_has_two(matrix, r),
    ensures
        small.len() == 0,
        small_target.len() == 0,
{
    let (active, remaining, fixed) = choose|
        active: Seq<bool>,
        remaining: Seq<u64>,
        fixed: Seq<u64>,
    |
        {
            &&& #[trigger] reduction_inv(matrix, target, active, remaining, fixed)
            &&& at_fixpoint(matrix, active, remaining)
            &&& dominant(matrix, target, active)
            &&& is_residue(matrix, active, remaining, small, small_target)
            &&& forced == total(fixed)
        };
    let (rows, cols) = choose|rows: Seq<usize>, cols: Seq<usize>|
        {
            &&& #[trigger] survivors(active, remaining, rows, cols)
            &&& is_selection(small, matrix, rows, cols)
            &&& column_count(small) == cols.len()
            &&& small_target.len() == rows.len()
            &&& forall|i: int|
                0 <= i < rows.len() ==> small_target[i] == remaining[#[trigger] rows[i] as int]
        };
    if rows.len() > 0 {
        let r = rows[0];
        assert(rows.contains(r));
        assert(remaining[r as int] > 0);
        lemma_single_cover_settled(matrix, target, active, remaining, fixed, r as int);
    }
}

/// What the reducer leaves of a system in which a row with demand has one
/// button only: every row that this button touches demands at least as
/// much.
pub proof fn lemma_sole_button_fits(
    matrix: Seq<Seq<u8>>,
    target: Seq<u64>,
    forced: int,
    small: Seq<Seq<u8>>,
    small_target: Seq<u64>,
    r: int,
    b: int,
    q: int,
)
    requires
        is_reduction(matrix, target, forced, small, small_target),
        0 <= r < matrix.len(),
        0 <= q < matrix.len(),
        !row_has_two(matrix, r),
        touches(matrix, r, b),
        touches(matrix, q, b),
    ensures
        target[r] <= target[q],
{
    let (active, remaining, fixed) = choose|
        active: Seq<bool>,
        remaining: Seq<u64>,
        fixed: Seq<u64>,
    |
        {
            &&& #[trigger] reduction_inv(matrix, target, active, remaining, fixed)
            &&& at_fixpoint(matrix, active, remaining)
            &&& dominant(matrix, target, active)
            &&& is_residue(matrix, active, remaining, small, small_target)
            &&& forced == total(fixed)
        };
    lemma_single_cover_settled(matrix, target, active, remaining, fixed, r);
    let row = matrix[r];
    let only = Seq::new(fixed.len(), |c: int| if c == b { fixed[b] } else { 0u64 });
    assert forall|c: int| 0 <= c < row.len() && row[c] != 0 implies fixed[c] == only[c] by {
        if c != b {
            assert(touches(matrix, r, c));
            if c < b {
                assert(c < b && touches(matrix, r, c) && touches(matrix, r, b));
            } else {
                assert(b < c && touches(matrix, r, b) && touches(matrix, r, c));
            }
        }
    }
    lemma_row_sum_agree(row, fixed, only, row.len() as int);
    let zeros = Seq::new(fixed.len(), |c: int| 0u64);
    lemma_row_sum_zeros(row, zeros, row.len() as int);
    lemma_row_sum_update(row, zeros, b, fixed[b], row.len() as int);
    assert(zeros.update(b, fixed[b]) =~= only);
    assert(row_sum(row, fixed) == fixed[b]);
    assert(remaining[r] + row_sum(matrix[r], fixed) == target[r]);
    lemma_entry_le_row_sum(matrix[q], fixed, b, matrix[q].len() as int);
    assert(remaining[q] + row_sum(matrix[q], fixed) == target[q]);
}

/// The reduced system stands for the system it came from: each solution of
/// either gives a solution of the other, the totals differing by the forced
/// total, but for presses of buttons that touch no row.
pub open spec fn reduces_to(
    matrix: Seq<Seq<u8>>,
    target: Seq<u64>,
    cols: int,
    forced: int,
    small: Seq<Seq<u8>>,
    small_target: Seq<u64>,
) -> bool {
    &&& forall|x: Seq<u64>|
        x.len() == cols && #[trigger] satisfies(matrix, target, x) ==> exists|y: Seq<u64>|
            y.len() == column_count(small) && #[trigger] satisfies(small, small_target, y) && forced
                + total(y) <= total(x)
    &&& forall|y: Seq<u64>|
        y.len() == column_count(small) && #[trigger] satisfies(small, small_target, y)
            ==> exists|x: Seq<u64>|
            x.len() == cols && #[trigger] satisfies(matrix, target, x) && total(x) == forced
                + total(y)
}

/// At the fixpoint the surviving rows and columns form a system that stands
/// for the whole.
pub proof fn lemma_reduces_to(
    matrix: Seq<Seq<u8>>,
    target: Seq<u64>,
    active: Seq<bool>,
    remaining: Seq<u64>,
    fixed: Seq<u64>,
    rows: Seq<usize>,
    cols: Seq<usize>,
    small: Seq<Seq<u8>>,
    small_target: Seq<u64>,
)
    requires
        reduction_inv(matrix, target, active, remaining, fixed),
        at_fixpoint(matrix, active, remaining),
        survivors(active, remaining, rows, cols),
        is_selection(small, matrix, rows, cols),
        column_count(small) == cols.len(),
        small_target.len() == rows.len(),
        forall|i: int| 0 <= i < rows.len() ==> small_target[i] == remaining[#[trigger] rows[i] as int],
        matrix.len() <= usize::MAX,
        active.len() <= usize::MAX,
    ensures
        reduces_to(matrix, target, active.len() as int, total(fixed), small, small_target),
{
    let nb = active.len() as int;
    let nk = cols.len() as int;
    assert forall|t: int| 0 <= t < cols.len() implies fixed[#[trigger] cols[t] as int] == 0 by {
        assert(cols.contains(cols[t]));
        assert(active[cols[t] as int]);
    }
    assert forall|y: Seq<u64>|
        y.len() == column_count(small) && #[trigger] satisfies(
            small,
            small_target,
            y,
        ) implies exists|x: Seq<u64>|
        x.len() == nb && #[trigger] satisfies(matrix, target, x) && total(x) == total(fixed)
            + total(y) by {
        let x = scatter(fixed, cols, y, nk);
        assert forall|r: int| 0 <= r < matrix.len() implies row_sum(#[trigger] matrix[r], x)
            == target[r] by {
            lemma_scatter(matrix[r], fixed, cols, y, nk);
            assert(remaining[r] + row_sum(matrix[r], fixed) == target[r]);
            if remaining[r] > 0 {
                assert(rows.contains(r as usize));
                let i = choose|i: int| 0 <= i < rows.len() && rows[i] == r as usize;
                assert forall|t: int| 0 <= t < nk implies ((#[trigger] small[i][t] != 0)
                    <==> matrix[r][cols[t] as int] != 0) by {
                    assert((small[i][t] != 0) <==> matrix[rows[i] as int][cols[t] as int] != 0);
                }
                lemma_selected_row(small[i], matrix[r], cols, y, nk);
                assert(row_sum(small[i], y) == small_target[i]);
                assert(small_target[i] == remaining[rows[i] as int]);
            } else {
                assert forall|t: int| 0 <= t < nk implies matrix[r][#[trigger] cols[t] as int]
                    == 0 by {
                    assert(cols.contains(cols[t]));
                    assert(active[cols[t] as int]);
                    if matrix[r][cols[t] as int] != 0 {
                        assert(touches(matrix, r, cols[t] as int));
                    }
                }
                lemma_partial_row_zero(matrix[r], cols, y, nk);
            }
        }
        if matrix.len() > 0 {
            lemma_scatter(matrix[0], fixed, cols, y, nk);
        } else {
            lemma_scatter(Seq::new(fixed.len(), |c: int| 0u8), fixed, cols, y, nk);
        }
        assert(x.len() == nb && satisfies(matrix, target, x) && total(x) == total(fixed) + total(y));
    }
    assert forall|x: Seq<u64>|
        x.len() == nb && #[trigger] satisfies(matrix, target, x) implies exists|y: Seq<u64>|
        y.len() == column_count(small) && #[trigger] satisfies(small, small_target, y) && total(
            fixed,
        ) + total(y) <= total(x) by {
        let y = gather(x, cols);
        let z = scatter(fixed, cols, y, nk);
        assert(follows(matrix, active, fixed, x));
        if matrix.len() > 0 {
            lemma_scatter(matrix[0], fixed, cols, y, nk);
        } else {
            lemma_scatter(Seq::new(fixed.len(), |c: int| 0u8), fixed, cols, y, nk);
        }
        assert forall|b: int| 0 <= b < nb implies z[b] <= x[b] && (is_touched(matrix, b) ==> z[b]
            == x[b]) by {
            if active[b] {
                assert(cols.contains(b as usize));
                let t = choose|t: int| 0 <= t < cols.len() && cols[t] == b as usize;
                assert(z[cols[t] as int] == y[t]);
            } else {
                assert forall|t: int| 0 <= t < nk implies cols[t] != b by {
                    assert(cols.contains(cols[t]));
                    assert(active[cols[t] as int]);
                }
                assert(z[b] == fixed[b]);
                if is_touched(matrix, b) {
                    assert(x[b] == fixed[b]);
                } else {
                    assert(fixed[b] == 0);
                }
            }
        }
        lemma_total_le(z, x, nb);
        assert forall|i: int| 0 <= i < small.len() implies row_sum(#[trigger] small[i], y)
            == small_target[i] by {
            let r = rows[i] as int;
            lemma_scatter(matrix[r], fixed, cols, y, nk);
            assert forall|c: int| 0 <= c < matrix[r].len() && matrix[r][c] != 0 implies z[c]
                == x[c] by {
                assert(touches(matrix, r, c));
                assert(is_touched(matrix, c));
            }
            lemma_row_sum_agree(matrix[r], z, x, matrix[r].len() as int);
            assert(row_sum(matrix[r], x) == target[r]);
            assert(remaining[r] + row_sum(matrix[r], fixed) == target[r]);
            assert forall|t: int| 0 <= t < nk implies ((#[trigger] small[i][t] != 0)
                <==> matrix[r][cols[t] as int] != 0) by {
                assert((small[i][t] != 0) <==> matrix[rows[i] as int][cols[t] as int] != 0);
            }
            lemma_selected_row(small[i], matrix[r], cols, y, nk);
        }
        assert(y.len() == column_count(small) && satisfies(small, small_target, y) && total(fixed)
            + total(y) <= total(x));
    }
}

/// The least total of a system is the forced total plus the least total of
/// the system it reduces to.
pub proof fn lemma_reduction_least(
    matrix: Seq<Seq<u8>>,
    target: Seq<u64>,
    cols: int,
    forced: int,
    small: Seq<Seq<u8>>,
    small_target: Seq<u64>,
    t: int,
)
    requires
        reduces_to(matrix, target, cols, forced, small, small_target),
        is_least_total(small, small_target, column_count(small), t),
    ensures
        is_least_total(matrix, target, cols, forced + t),
{
    let y = choose|y: Seq<u64>|
        y.len() == column_count(small) && #[trigger] satisfies(small, small_target, y) && total(y)
            == t;
    let x = choose|x: Seq<u64>|
        x.len() == cols && #[trigger] satisfies(matrix, target, x) && total(x) == forced + total(
            y,
        );
    assert(x.len() == cols && satisfies(matrix, target, x) && total(x) == forced + t);
    assert forall|x: Seq<u64>|
        x.len() == cols && #[trigger] satisfies(matrix, target, x) implies forced + t <= total(
        x,
    ) by {
        let y = choose|y: Seq<u64>|
            y.len() == column_count(small) && #[trigger] satisfies(small, small_target, y)
                && forced + total(y) <= total(x);
        assert(t <= total(y));
    }
}

/// Where the reducer leaves no row, the forced total is the least total of
/// the system.
pub proof fn lemma_empty_residue_least(
    matrix: Seq<Seq<u8>>,
    target: Seq<u64>,
    cols: int,
    forced: int,
    small: Seq<Seq<u8>>,
    small_target: Seq<u64>,
)
    requires
        reduces_to(matrix, target, cols, forced, small, small_target),
        small.len() == 0,
        small_target.len() == 0,
    ensures
        is_least_total(matrix, target, cols, forced),
{
    let y = Seq::<u64>::empty();
    assert(y.len() == column_count(small) && satisfies(small, small_target, y) && total(y) == 0);
    assert forall|y: Seq<u64>|
        y.len() == column_count(small) && #[trigger] satisfies(small, small_target, y) implies 0
        <= total(y) by {
        lemma_total_nonneg(y, y.len() as int);
    }
    lemma_reduction_least(matrix, target, cols, forced, small, small_target, 0);
}

/// A system is unsatisfiable when the system it reduces to is.
pub proof fn lemma_reduction_unsatisfiable(
    matrix: Seq<Seq<u8>>,
    target: Seq<u64>,
    cols: int,
    forced: int,
    small: Seq<Seq<u8>>,
    small_target: Seq<u64>,
)
    requires
        reduces_to(matrix, target, cols, forced, small, small_target),
        is_unsatisfiable(small, small_target, column_count(small)),
    ensures
        is_unsatisfiable(matrix, target, cols),
{
    assert forall|x: Seq<u64>| x.len() == cols implies !#[trigger] satisfies(
        matrix,
        target,
        x,
    ) by {
        if satisfies(matrix, target, x) {
            let y = choose|y: Seq<u64>|
                y.len() == column_count(small) && #[trigger] satisfies(small, small_target, y)
                    && forced + total(y) <= total(x);
            assert(false);
        }
    }
}

} // verus!
