//! Systems `matrix * presses = target` over the non-negative integers.
//!
//! A matrix is a list of rows, one per counter; column `c` of a row is
//! non-zero when button `c` increments that counter. A press vector says how
//! often each button is pressed.

use vstd::prelude::*;

verus! {

/// The rows of a matrix as sequences.
pub open spec fn matrix_view(matrix: Seq<Vec<u8>>) -> Seq<Seq<u8>> {
    Seq::new(matrix.len(), |r: int| matrix[r]@)
}

/// Every row has exactly `cols` entries.
pub open spec fn is_rectangular(matrix: Seq<Seq<u8>>, cols: int) -> bool {
    forall|r: int| 0 <= r < matrix.len() ==> (#[trigger] matrix[r]).len() == cols
}

/// What the first `n` buttons add to the counter of `row`.
pub open spec fn row_sum_upto(row: Seq<u8>, presses: Seq<u64>, n: int) -> int
    decreases n,
{
    if n <= 0 {
        0
    } else {
        row_sum_upto(row, presses, n - 1) + if row[n - 1] != 0 {
            presses[n - 1] as int
        } else {
            0
        }
    }
}

/// What all the buttons together add to the counter of `row`.
pub open spec fn row_sum(row: Seq<u8>, presses: Seq<u64>) -> int {
    row_sum_upto(row, presses, row.len() as int)
}

/// The press vector brings every counter exactly to its target.
pub open spec fn satisfies(matrix: Seq<Seq<u8>>, target: Seq<u64>, presses: Seq<u64>) -> bool {
    forall|r: int| 0 <= r < matrix.len() ==> row_sum(#[trigger] matrix[r], presses) == target[r]
}

/// The sum of the first `n` press counts.
pub open spec fn total_upto(presses: Seq<u64>, n: int) -> int
    decreases n,
{
    if n <= 0 {
        0
    } else {
        total_upto(presses, n - 1) + presses[n - 1]
    }
}

/// The total number of presses, the quantity to minimise.
pub open spec fn total(presses: Seq<u64>) -> int {
    total_upto(presses, presses.len() as int)
}

/// A partial row sum is bounded by the number of buttons counted.
pub proof fn lemma_row_sum_bound(row: Seq<u8>, presses: Seq<u64>, n: int)
    requires
        0 <= n,
    ensures
        0 <= row_sum_upto(row, presses, n) <= n * u64::MAX,
    decreases n,
{
    if n > 0 {
        lemma_row_sum_bound(row, presses, n - 1);
        assert((n - 1) * u64::MAX + u64::MAX == n * u64::MAX) by (nonlinear_arith);
    }
}

/// A partial total is bounded by the number of buttons counted.
pub proof fn lemma_total_bound(presses: Seq<u64>, n: int)
    requires
        0 <= n,
    ensures
        0 <= total_upto(presses, n) <= n * u64::MAX,
    decreases n,
{
    if n > 0 {
        lemma_total_bound(presses, n - 1);
        assert((n - 1) * u64::MAX + u64::MAX == n * u64::MAX) by (nonlinear_arith);
    }
}

/// Replays a press vector: does it bring every counter exactly to its target?
pub fn verify_press_counts(matrix: &[Vec<u8>], target: &[u64], presses: &[u64]) -> (ok: bool)
    requires
        matrix@.len() <= target@.len(),
        forall|r: int| 0 <= r < matrix@.len() ==> (#[trigger] matrix@[r])@.len() <= presses@.len(),
    ensures
        ok == satisfies(matrix_view(matrix@), target@, presses@),
{
    let rows = matrix.len();
    for row_idx in 0..rows
        invariant
            rows == matrix@.len(),
            rows <= target@.len(),
            forall|r: int| 0 <= r < matrix@.len() ==> (#[trigger] matrix@[r])@.len() <= presses@.len(),
            forall|r: int|
                0 <= r < row_idx ==> row_sum(#[trigger] matrix_view(matrix@)[r], presses@)
                    == target@[r],
    {
        let row = &matrix[row_idx];
        let cols = row.len();
        let mut sum: u128 = 0;
        for col_idx in 0..cols
            invariant
                cols == row@.len(),
                cols <= presses@.len(),
                sum == row_sum_upto(row@, presses@, col_idx as int),
        {
            proof {
                lemma_row_sum_bound(row@, presses@, col_idx as int);
                assert(col_idx * u64::MAX + u64::MAX <= u128::MAX) by (nonlinear_arith)
                    requires
                        col_idx <= usize::MAX,
                ;
            }
            if row[col_idx] != 0 {
                sum = sum + presses[col_idx] as u128;
            }
        }
        assert(matrix_view(matrix@)[row_idx as int] == row@);
        if sum != target[row_idx] as u128 {
            return false;
        }
    }
    true
}

/// Button `c` increments the counter of row `r`.
pub open spec fn touches(matrix: Seq<Seq<u8>>, r: int, c: int) -> bool {
    0 <= r < matrix.len() && 0 <= c < matrix[r].len() && matrix[r][c] != 0
}

/// Some row touches column `c`.
pub open spec fn is_touched(matrix: Seq<Seq<u8>>, c: int) -> bool {
    exists|r: int| 0 <= r < matrix.len() && touches(matrix, r, c)
}

/// Two press vectors that agree on the buttons touching a row give it the
/// same sum.
pub proof fn lemma_row_sum_agree(row: Seq<u8>, a: Seq<u64>, b: Seq<u64>, n: int)
    requires
        forall|c: int| 0 <= c < n && row[c] != 0 ==> a[c] == b[c],
    ensures
        row_sum_upto(row, a, n) == row_sum_upto(row, b, n),
    decreases n,
{
    if n > 0 {
        lemma_row_sum_agree(row, a, b, n - 1);
    }
}

/// A press vector that is nowhere larger on the buttons touching a row gives
/// it no larger sum.
pub proof fn lemma_row_sum_le(row: Seq<u8>, a: Seq<u64>, b: Seq<u64>, n: int)
    requires
        forall|c: int| 0 <= c < n && row[c] != 0 ==> a[c] <= b[c],
    ensures
        row_sum_upto(row, a, n) <= row_sum_upto(row, b, n),
    decreases n,
{
    if n > 0 {
        lemma_row_sum_le(row, a, b, n - 1);
    }
}

/// Changing one press count changes a row sum by the difference, where the
/// button touches the row.
pub proof fn lemma_row_sum_update(row: Seq<u8>, x: Seq<u64>, b: int, v: u64, n: int)
    requires
        0 <= b < x.len(),
        n <= x.len(),
    ensures
        row_sum_upto(row, x.update(b, v), n) == row_sum_upto(row, x, n) + (if b < n && row[b]
            != 0 {
            v - x[b]
        } else {
            0
        }),
    decreases n,
{
    if n > 0 {
        lemma_row_sum_update(row, x, b, v, n - 1);
    }
}

/// A press vector that is nowhere larger has no larger total.
pub proof fn lemma_total_le(a: Seq<u64>, b: Seq<u64>, n: int)
    requires
        forall|c: int| 0 <= c < n ==> a[c] <= b[c],
    ensures
        total_upto(a, n) <= total_upto(b, n),
    decreases n,
{
    if n > 0 {
        lemma_total_le(a, b, n - 1);
    }
}

/// Changing one press count changes the total by the difference.
pub proof fn lemma_total_update(x: Seq<u64>, b: int, v: u64, n: int)
    requires
        0 <= b < x.len(),
        n <= x.len(),
    ensures
        total_upto(x.update(b, v), n) == total_upto(x, n) + (if b < n {
            v - x[b]
        } else {
            0
        }),
    decreases n,
{
    if n > 0 {
        lemma_total_update(x, b, v, n - 1);
    }
}

/// `bound` is the most that button `c` can be pressed, judged by the first
/// `n` rows: the smallest target among the rows it touches, or zero when it
/// touches none of them.
pub open spec fn is_column_bound(
    matrix: Seq<Seq<u8>>,
    target: Seq<u64>,
    c: int,
    n: int,
    bound: u64,
) -> bool {
    if exists|r: int| 0 <= r < n && touches(matrix, r, c) {
        &&& exists|r: int| 0 <= r < n && touches(matrix, r, c) && target[r] == bound
        &&& forall|r: int| 0 <= r < n && touches(matrix, r, c) ==> bound <= target[r]
    } else {
        bound == 0
    }
}

/// `list` holds, in increasing order, exactly those of the first `n` rows
/// that button `c` touches.
pub open spec fn is_touched_list(matrix: Seq<Seq<u8>>, c: int, n: int, list: Seq<usize>) -> bool {
    &&& forall|i: int, j: int| 0 <= i < j < list.len() ==> list[i] < list[j]
    &&& forall|i: int| 0 <= i < list.len() ==> list[i] < n && touches(matrix, #[trigger] list[i] as int, c)
    &&& forall|r: int| 0 <= r < n && touches(matrix, r, c) ==> list.contains(r as usize)
}

/// For each button, the rows it touches, in increasing order.
pub fn build_button_rows(matrix: &[Vec<u8>]) -> (button_rows: Vec<Vec<usize>>)
    requires
        matrix@.len() > 0 ==> is_rectangular(matrix_view(matrix@), matrix@[0]@.len() as int),
    ensures
        matrix@.len() == 0 ==> button_rows@.len() == 0,
        matrix@.len() > 0 ==> button_rows@.len() == matrix@[0]@.len(),
        forall|c: int|
            0 <= c < button_rows@.len() ==> is_touched_list(
                matrix_view(matrix@),
                c,
                matrix@.len() as int,
                (#[trigger] button_rows@[c])@,
            ),
{
    if matrix.len() == 0 {
        return Vec::new();
    }
    let rows = matrix.len();
    let cols = matrix[0].len();
    let ghost m = matrix_view(matrix@);
    let mut button_rows: Vec<Vec<usize>> = Vec::new();
    for c in 0..cols
        invariant
            button_rows@.len() == c,
            forall|k: int| 0 <= k < c ==> (#[trigger] button_rows@[k])@.len() == 0,
    {
        button_rows.push(Vec::new());
    }
    for row in 0..rows
        invariant
            rows == matrix@.len(),
            cols == matrix@[0]@.len(),
            m == matrix_view(matrix@),
            is_rectangular(m, cols as int),
            button_rows@.len() == cols,
            forall|c: int|
                0 <= c < cols ==> is_touched_list(m, c, row as int, (#[trigger] button_rows@[c])@),
    {
        for col in 0..cols
            invariant
                row < rows,
                rows == matrix@.len(),
                cols == matrix@[0]@.len(),
                m == matrix_view(matrix@),
                is_rectangular(m, cols as int),
                button_rows@.len() == cols,
                forall|c: int|
                    0 <= c < col ==> is_touched_list(
                        m,
                        c,
                        row as int + 1,
                        (#[trigger] button_rows@[c])@,
                    ),
                forall|c: int|
                    col <= c < cols ==> is_touched_list(
                        m,
                        c,
                        row as int,
                        (#[trigger] button_rows@[c])@,
                    ),
        {
            assert(m[row as int].len() == cols);
            assert(m[row as int] == matrix@[row as int]@);
            let ghost before = button_rows@[col as int]@;
            if matrix[row][col] != 0 {
                button_rows[col].push(row);
                proof {
                    let after = button_rows@[col as int]@;
                    assert(after == before.push(row));
                    assert forall|r: int| 0 <= r < row + 1 && touches(m, r, col as int) implies after.contains(
                        r as usize,
                    ) by {
                        if r < row {
                            assert(before.contains(r as usize));
                            let i = choose|i: int| 0 <= i < before.len() && before[i] == r as usize;
                            assert(after[i] == r as usize);
                        } else {
                            assert(after[after.len() - 1] == row);
                        }
                    }
                }
            }
        }
    }
    button_rows
}

/// For each button, the most it can be pressed: the smallest target among the
/// rows it touches, and zero for a button that touches no row.
pub fn max_press_counts(matrix: &[Vec<u8>], target: &[u64]) -> (bounds: Vec<u64>)
    requires
        matrix@.len() <= target@.len(),
        matrix@.len() > 0 ==> is_rectangular(matrix_view(matrix@), matrix@[0]@.len() as int),
    ensures
        matrix@.len() == 0 ==> bounds@.len() == 0,
        matrix@.len() > 0 ==> bounds@.len() == matrix@[0]@.len(),
        forall|c: int|
            0 <= c < bounds@.len() ==> is_column_bound(
                matrix_view(matrix@),
                target@,
                c,
                matrix@.len() as int,
                #[trigger] bounds@[c],
            ),
{
    if matrix.len() == 0 {
        return Vec::new();
    }
    let rows = matrix.len();
    let cols = matrix[0].len();
    let ghost m = matrix_view(matrix@);
    let mut result: Vec<u64> = Vec::new();
    for col in 0..cols
        invariant
            rows == matrix@.len(),
            rows <= target@.len(),
            cols == matrix@[0]@.len(),
            m == matrix_view(matrix@),
            is_rectangular(m, cols as int),
            result@.len() == col,
            forall|c: int|
                0 <= c < col ==> is_column_bound(m, target@, c, rows as int, #[trigger] result@[c]),
    {
        let mut min_val: u64 = 0;
        let mut found = false;
        for row in 0..rows
            invariant
                col < cols,
                rows == matrix@.len(),
                rows <= target@.len(),
                cols == matrix@[0]@.len(),
                m == matrix_view(matrix@),
                is_rectangular(m, cols as int),
                found == (exists|r: int| 0 <= r < row && touches(m, r, col as int)),
                is_column_bound(m, target@, col as int, row as int, min_val),
        {
            assert(m[row as int].len() == cols);
            assert(m[row as int] == matrix@[row as int]@);
            if matrix[row][col] != 0 {
                assert(touches(m, row as int, col as int));
                if !found || target[row] < min_val {
                    min_val = target[row];
                }
                found = true;
            }
        }
        result.push(min_val);
    }
    result
}

} // verus!
