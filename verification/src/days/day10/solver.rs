//! The minimum-press solver for a linear system.

use vstd::prelude::*;
use crate::days::day10::assignment::{agrees, lemma_entry_le_row_sum, lemma_real_link};
use crate::days::day10::echelon::compute_rref;
use crate::days::day10::linear::{
    build_button_rows, is_column_bound, is_rectangular, is_touched, lemma_row_sum_agree,
    lemma_total_le, matrix_view, max_press_counts, row_sum, satisfies, total, touches,
};
use crate::days::day10::search::{
    is_candidate, is_candidate_below, pivots_bounded, search_free_assignments, within,
};

verus! {

/// Why no minimum was returned.
#[derive(Debug, Clone, Copy, PartialEq, Eq, Structural)]
pub enum SolveError {
    /// No press vector of non-negative whole numbers reaches the target.
    Unsatisfiable,
    /// A sum of press counts does not fit the integer type of the result.
    Overflow,
}

/// The number of columns of a matrix: the length of its first row, and zero
/// for a matrix without rows.
pub open spec fn column_count(matrix: Seq<Seq<u8>>) -> int {
    if matrix.len() == 0 {
        0
    } else {
        matrix[0].len() as int
    }
}

/// `t` is the total of some vector of `cols` press counts that satisfies the
/// system, and no such vector has a smaller total.
pub open spec fn is_least_total(
    matrix: Seq<Seq<u8>>,
    target: Seq<u64>,
    cols: int,
    t: int,
) -> bool {
    &&& exists|x: Seq<u64>|
        x.len() == cols && #[trigger] satisfies(matrix, target, x) && total(x) == t
    &&& forall|x: Seq<u64>|
        x.len() == cols && #[trigger] satisfies(matrix, target, x) ==> t <= total(x)
}

/// No vector of `cols` press counts satisfies the system.
pub open spec fn is_unsatisfiable(matrix: Seq<Seq<u8>>, target: Seq<u64>, cols: int) -> bool {
    forall|x: Seq<u64>| x.len() == cols ==> !#[trigger] satisfies(matrix, target, x)
}

/// No button touches row `r`.
pub open spec fn row_untouched(matrix: Seq<Seq<u8>>, r: int) -> bool {
    forall|c: int| 0 <= c < matrix[r].len() ==> #[trigger] matrix[r][c] == 0
}

/// Some row has a target above zero and no button.
pub open spec fn has_uncovered_row(matrix: Seq<Seq<u8>>, target: Seq<u64>) -> bool {
    exists|r: int| 0 <= r < matrix.len() && target[r] > 0 && #[trigger] row_untouched(matrix, r)
}

/// A system with a row that no button touches and whose target is not zero
/// is unsatisfiable.
pub proof fn lemma_uncovered_row_unsatisfiable(matrix: Seq<Seq<u8>>, target: Seq<u64>, cols: int)
    requires
        has_uncovered_row(matrix, target),
    ensures
        is_unsatisfiable(matrix, target, cols),
{
    let r = choose|r: int|
        0 <= r < matrix.len() && target[r] > 0 && #[trigger] row_untouched(matrix, r);
    assert forall|x: Seq<u64>| x.len() == cols implies !#[trigger] satisfies(matrix, target, x) by {
        if satisfies(matrix, target, x) {
            lemma_row_sum_untouched(matrix[r], x, matrix[r].len() as int);
            assert(row_sum(matrix[r], x) == target[r]);
        }
    }
}

/// A row that no button touches has sum zero.
pub proof fn lemma_row_sum_untouched(row: Seq<u8>, x: Seq<u64>, n: int)
    requires
        n <= row.len(),
        forall|c: int| 0 <= c < row.len() ==> row[c] == 0,
    ensures
        crate::days::day10::linear::row_sum_upto(row, x, n) == 0,
    decreases n,
{
    if n > 0 {
        lemma_row_sum_untouched(row, x, n - 1);
    }
}

/// The press vector with the buttons that touch no row left unpressed.
pub open spec fn without_idle(matrix: Seq<Seq<u8>>, x: Seq<u64>) -> Seq<u64> {
    Seq::new(
        x.len(),
        |c: int|
            if is_touched(matrix, c) {
                x[c]
            } else {
                0u64
            },
    )
}

/// Leaving idle buttons unpressed keeps a solution a solution, brings it
/// within the press bounds, and does not raise its total.
proof fn lemma_without_idle(
    matrix: Seq<Seq<u8>>,
    target: Seq<u64>,
    max_press: Seq<u64>,
    x: Seq<u64>,
)
    requires
        matrix.len() == target.len(),
        x.len() == max_press.len(),
        is_rectangular(matrix, x.len() as int),
        satisfies(matrix, target, x),
        forall|c: int|
            0 <= c < max_press.len() ==> is_column_bound(
                matrix,
                target,
                c,
                matrix.len() as int,
                #[trigger] max_press[c],
            ),
    ensures
        is_candidate(matrix, target, max_press, without_idle(matrix, x)),
        total(without_idle(matrix, x)) <= total(x),
{
    let y = without_idle(matrix, x);
    assert forall|r: int| 0 <= r < matrix.len() implies row_sum(#[trigger] matrix[r], y)
        == target[r] by {
        assert forall|c: int| 0 <= c < matrix[r].len() && matrix[r][c] != 0 implies y[c]
            == x[c] by {
            assert(touches(matrix, r, c));
        }
        lemma_row_sum_agree(matrix[r], y, x, matrix[r].len() as int);
        assert(row_sum(matrix[r], x) == target[r]);
    }
    assert forall|c: int| 0 <= c < y.len() implies #[trigger] y[c] <= max_press[c] by {
        assert(is_column_bound(matrix, target, c, matrix.len() as int, max_press[c]));
        if is_touched(matrix, c) {
            let r = choose|r: int|
                0 <= r < matrix.len() && touches(matrix, r, c) && target[r] == max_press[c];
            lemma_entry_le_row_sum(matrix[r], x, c, matrix[r].len() as int);
            assert(row_sum(matrix[r], x) == target[r]);
        }
    }
    lemma_total_le(y, x, x.len() as int);
}

/// Solves `matrix * presses = target` over the non-negative integers with the
/// least total number of presses.
///
/// The system is row-reduced exactly, the free columns are searched within
/// their bounds, and every candidate is replayed against the system. The
/// result is the least total over all press vectors that satisfy the
/// system; `Unsatisfiable` says that there is none, `Overflow` that the
/// least total does not fit a `u64`.
pub fn solve_linear_system(matrix: &[Vec<u8>], target: &[u64]) -> (result: Result<u64, SolveError>)
    requires
        matrix@.len() == target@.len(),
        is_rectangular(matrix_view(matrix@), column_count(matrix_view(matrix@))),
    ensures
        match result {
            Ok(t) => is_least_total(
                matrix_view(matrix@),
                target@,
                column_count(matrix_view(matrix@)),
                t as int,
            ),
            Err(SolveError::Unsatisfiable) => is_unsatisfiable(
                matrix_view(matrix@),
                target@,
                column_count(matrix_view(matrix@)),
            ),
            Err(SolveError::Overflow) => exists|t: int|
                t > u64::MAX && #[trigger] is_least_total(
                    matrix_view(matrix@),
                    target@,
                    column_count(matrix_view(matrix@)),
                    t,
                ),
        },
        has_uncovered_row(matrix_view(matrix@), target@) ==> result == Err::<u64, SolveError>(
            SolveError::Unsatisfiable,
        ),
{
    proof {
        if has_uncovered_row(matrix_view(matrix@), target@) {
            lemma_uncovered_row_unsatisfiable(
                matrix_view(matrix@),
                target@,
                column_count(matrix_view(matrix@)),
            );
        }
    }
    let ghost mv = matrix_view(matrix@);
    if matrix.len() == 0 {
        proof {
            let x = Seq::<u64>::empty();
            assert(x.len() == column_count(mv) && satisfies(mv, target@, x) && total(x) == 0);
            assert forall|x: Seq<u64>|
                x.len() == column_count(mv) && #[trigger] satisfies(mv, target@, x) implies 0
                <= total(x) by {
                assert(x.len() == 0);
            }
        }
        return Ok(0);
    }
    let rows = matrix.len();
    let cols = matrix[0].len();
    assert(mv[0] == matrix@[0]@);
    let form = match compute_rref(matrix, target) {
        Some(form) => form,
        None => {
            proof {
                assert forall|x: Seq<u64>| x.len() == column_count(mv) implies !#[trigger] satisfies(
                    mv,
                    target@,
                    x,
                ) by {
                    if satisfies(mv, target@, x) {
                        lemma_real_link(mv, target@, x);
                    }
                }
            }
            return Err(SolveError::Unsatisfiable);
        },
    };
    let max_press = max_press_counts(matrix, target);
    let button_rows = build_button_rows(matrix);
    let nfree = form.free_cols.len();
    let mut partial_rows: Vec<u128> = vec![0u128; rows];
    let mut free_counts: Vec<u64> = vec![0u64; nfree];
    let mut best: Option<u128> = None;
    let ghost counts0 = free_counts@;
    search_free_assignments(
        0,
        &form,
        &button_rows,
        max_press.as_slice(),
        &mut partial_rows,
        &mut free_counts,
        0,
        matrix,
        target,
        &mut best,
    );
    proof {
        assert forall|x: Seq<u64>|
            x.len() == column_count(mv) && #[trigger] satisfies(mv, target@, x) implies within(
            best,
            total(x),
        ) by {
            lemma_without_idle(mv, target@, max_press@, x);
            let y = without_idle(mv, x);
            assert(is_candidate(mv, target@, max_press@, y) && agrees(
                y,
                form.free_cols@,
                counts0,
                0,
            ));
            assert(pivots_bounded(y, form.pivot_cols@, max_press@));
            assert(is_candidate_below(
                mv,
                target@,
                max_press@,
                form.pivot_cols@,
                form.free_cols@,
                counts0,
                0,
                y,
            ));
        }
    }
    match best {
        None => Err(SolveError::Unsatisfiable),
        Some(least) => {
            if least > u64::MAX as u128 {
                proof {
                    assert(is_least_total(mv, target@, column_count(mv), least as int));
                }
                Err(SolveError::Overflow)
            } else {
                Ok(least as u64)
            }
        },
    }
}

} // verus!
