//! The bounded search over the free columns, and the assembly and replay of
//! each candidate it reaches.

use vstd::prelude::*;
use crate::days::day10::assignment::{
    agrees, bounded, free_sum, lemma_partial_row_same, lemma_pivot_value, lemma_prefix_row,
    lemma_prefix_total, lemma_real_link, lemma_total_same, partial_row,
};
use crate::days::day10::echelon::EchelonForm;
use crate::days::day10::linear::{
    is_rectangular, is_touched_list, lemma_total_bound, matrix_view, row_sum, satisfies, total,
    total_upto, touches, verify_press_counts,
};
use crate::days::day10::rational::{lemma_whole_u64, rational_from_u64, Rational};
use crate::days::day10::real_rows::{
    dot, increasing_below, lemma_rmul_zero, rational_row, rational_rows, reals_of, rows_hold,
};

verus! {

/// No pivot column is pressed more often than its bound allows.
pub open spec fn pivots_bounded(x: Seq<u64>, pivots: Seq<usize>, max_press: Seq<u64>) -> bool {
    forall|k: int|
        0 <= k < pivots.len() ==> x[#[trigger] pivots[k] as int] <= max_press[pivots[k] as int]
}

/// `x` is a press vector that satisfies the system, gives the free columns
/// the counts assigned, and keeps the pivot columns within their bounds.
pub open spec fn is_completion(
    matrix: Seq<Seq<u8>>,
    target: Seq<u64>,
    pivots: Seq<usize>,
    free: Seq<usize>,
    counts: Seq<u64>,
    max_press: Seq<u64>,
    x: Seq<u64>,
) -> bool {
    &&& x.len() == max_press.len()
    &&& satisfies(matrix, target, x)
    &&& agrees(x, free, counts, free.len() as int)
    &&& pivots_bounded(x, pivots, max_press)
}

/// A completion gives pivot column `pivots[i]` the value that row `i` of the
/// echelon form determines.
proof fn lemma_completion_pivot(
    form: &EchelonForm,
    matrix: Seq<Seq<u8>>,
    target: Seq<u64>,
    counts: Seq<u64>,
    max_press: Seq<u64>,
    x: Seq<u64>,
    i: int,
)
    requires
        is_rectangular(matrix, max_press.len() as int),
        max_press.len() <= usize::MAX,
        form.wf(max_press.len() as int),
        form.entailed_by(matrix, target),
        counts.len() == form.free_cols@.len(),
        is_completion(matrix, target, form.pivot_cols@, form.free_cols@, counts, max_press, x),
        0 <= i < form.pivot_cols@.len(),
    ensures
        form.rhs@[i]@ - free_sum(
            rational_rows(form.matrix@)[i],
            form.free_cols@,
            counts,
            counts.len() as int,
        ) == x[form.pivot_cols@[i] as int] as real,
{
    let m = rational_rows(form.matrix@);
    let rr = rational_row(form.rhs@);
    lemma_real_link(matrix, target, x);
    assert(rows_hold(m, rr, reals_of(x)));
    assert(dot(m[i], reals_of(x)) == rr[i]);
    assert forall|k: int| 0 <= k < form.pivot_cols@.len() implies m[i][#[trigger] form.pivot_cols@[k] as int]
        == (if k == i {
        1real
    } else {
        0real
    }) by {
        assert(m[i][form.pivot_cols@[k] as int] == (if i == k {
            1real
        } else {
            0real
        }));
    }
    lemma_pivot_value(
        m[i],
        form.pivot_cols@,
        form.free_cols@,
        counts,
        x,
        i,
        counts.len() as int,
        x.len() as int,
    );
}

/// The value that row `row_idx` of the echelon form determines for its pivot
/// column: the right-hand side less the contribution of the free columns.
fn pivot_value(form: &EchelonForm, free_counts: &[u64], row_idx: usize) -> (value: Rational)
    requires
        form.wf(form.matrix@[row_idx as int]@.len() as int),
        row_idx < form.matrix@.len(),
        free_counts@.len() == form.free_cols@.len(),
    ensures
        value.wf(),
        value@ == form.rhs@[row_idx as int]@ - free_sum(
            rational_rows(form.matrix@)[row_idx as int],
            form.free_cols@,
            free_counts@,
            free_counts@.len() as int,
        ),
{
    let ghost m = rational_rows(form.matrix@);
    let ghost free = form.free_cols@;
    let nfree = form.free_cols.len();
    let mut value = form.rhs[row_idx].clone();
    for free_idx in 0..nfree
        invariant
            row_idx < form.matrix@.len(),
            nfree == free.len(),
            free == form.free_cols@,
            m == rational_rows(form.matrix@),
            free_counts@.len() == nfree,
            form.wf(form.matrix@[row_idx as int]@.len() as int),
            value.wf(),
            value@ == form.rhs@[row_idx as int]@ - free_sum(
                m[row_idx as int],
                free,
                free_counts@,
                free_idx as int,
            ),
    {
        let col = form.free_cols[free_idx];
        let coeff = &form.matrix[row_idx][col];
        assert(m[row_idx as int][col as int] == coeff@);
        if coeff.is_zero() {
            proof {
                lemma_rmul_zero(free_counts@[free_idx as int] as real);
            }
        } else {
            let count_rat = rational_from_u64(free_counts[free_idx]);
            let product = coeff.mul(&count_rat);
            value = value.sub(&product);
        }
    }
    value
}

/// The first `n` pivot columns of `presses` hold the values that the rows
/// of the echelon form determine.
pub open spec fn pivots_assigned(
    form: &EchelonForm,
    counts: Seq<u64>,
    presses: Seq<u64>,
    n: int,
) -> bool {
    forall|k: int|
        0 <= k < n ==> presses[#[trigger] form.pivot_cols@[k] as int] as real == form.rhs@[k]@
            - free_sum(
            rational_rows(form.matrix@)[k],
            form.free_cols@,
            counts,
            counts.len() as int,
        )
}

/// A vector that holds the assigned counts in the free columns and the
/// determined values in the pivot columns is the only possible completion.
proof fn lemma_assembled_is_completion(
    form: &EchelonForm,
    matrix: Seq<Seq<u8>>,
    target: Seq<u64>,
    counts: Seq<u64>,
    max_press: Seq<u64>,
    presses: Seq<u64>,
    x: Seq<u64>,
)
    requires
        is_rectangular(matrix, max_press.len() as int),
        max_press.len() <= usize::MAX,
        form.wf(max_press.len() as int),
        form.entailed_by(matrix, target),
        counts.len() == form.free_cols@.len(),
        presses.len() == max_press.len(),
        agrees(presses, form.free_cols@, counts, counts.len() as int),
        pivots_assigned(form, counts, presses, form.pivot_cols@.len() as int),
        is_completion(matrix, target, form.pivot_cols@, form.free_cols@, counts, max_press, x),
    ensures
        presses == x,
{
    let pivots = form.pivot_cols@;
    let free = form.free_cols@;
    assert forall|c: int| 0 <= c < presses.len() implies presses[c] == x[c] by {
        let cu = c as usize;
        if pivots.contains(cu) {
            let k = choose|k: int| 0 <= k < pivots.len() && pivots[k] == cu;
            lemma_completion_pivot(form, matrix, target, counts, max_press, x, k);
            assert(presses[pivots[k] as int] as real == x[pivots[k] as int] as real);
        } else {
            assert(free.contains(cu));
            let j = choose|j: int| 0 <= j < free.len() && free[j] == cu;
            assert(presses[free[j] as int] == counts[j]);
            assert(x[free[j] as int] == counts[j]);
        }
    }
    assert(presses =~= x);
}

/// Assembles the press vector that a free-column assignment implies and
/// replays it against the system.
///
/// Each pivot column gets the value that its row of the echelon form
/// determines. The assignment is turned down when such a value is not a
/// whole number, is negative or exceeds the column's bound, or when the
/// replay misses a target. The result is the total of the assembled vector.
pub fn evaluate_solution(
    form: &EchelonForm,
    free_counts: &[u64],
    matrix: &[Vec<u8>],
    target: &[u64],
    max_press: &[u64],
) -> (result: Option<u128>)
    requires
        matrix@.len() == target@.len(),
        matrix@.len() > 0 ==> max_press@.len() == matrix@[0]@.len(),
        matrix@.len() == 0 ==> max_press@.len() == 0,
        is_rectangular(matrix_view(matrix@), max_press@.len() as int),
        form.wf(max_press@.len() as int),
        form.entailed_by(matrix_view(matrix@), target@),
        free_counts@.len() == form.free_cols@.len(),
    ensures
        match result {
            Some(t) => exists|x: Seq<u64>|
                is_completion(
                    matrix_view(matrix@),
                    target@,
                    form.pivot_cols@,
                    form.free_cols@,
                    free_counts@,
                    max_press@,
                    x,
                ) && total(x) == t,
            None => forall|x: Seq<u64>|
                !is_completion(
                    matrix_view(matrix@),
                    target@,
                    form.pivot_cols@,
                    form.free_cols@,
                    free_counts@,
                    max_press@,
                    x,
                ),
        },
        forall|x: Seq<u64>|
            is_completion(
                matrix_view(matrix@),
                target@,
                form.pivot_cols@,
                form.free_cols@,
                free_counts@,
                max_press@,
                x,
            ) ==> (result matches Some(t) && t == total(x)),
{
    let ghost mv = matrix_view(matrix@);
    let ghost pivots = form.pivot_cols@;
    let ghost free = form.free_cols@;
    let cols = if matrix.len() == 0 {
        0
    } else {
        matrix[0].len()
    };
    let mut presses: Vec<u64> = vec![0u64; cols];
    let nfree = form.free_cols.len();
    for idx in 0..nfree
        invariant
            nfree == free.len(),
            free == form.free_cols@,
            free_counts@.len() == nfree,
            form.wf(cols as int),
            presses@.len() == cols,
            agrees(presses@, free, free_counts@, idx as int),
    {
        let col = form.free_cols[idx];
        presses[col] = free_counts[idx];
        assert forall|j: int| 0 <= j < idx + 1 implies presses@[#[trigger] free[j] as int]
            == free_counts@[j] by {
            if j < idx {
                assert(free[j] < free[idx as int]);
            }
        }
    }
    let rank = form.pivot_cols.len();
    for row_idx in 0..rank
        invariant
            cols == max_press@.len(),
            mv == matrix_view(matrix@),
            is_rectangular(mv, cols as int),
            pivots == form.pivot_cols@,
            free == form.free_cols@,
            rank == pivots.len(),
            nfree == free.len(),
            free_counts@.len() == nfree,
            form.wf(cols as int),
            form.entailed_by(mv, target@),
            presses@.len() == cols,
            agrees(presses@, free, free_counts@, nfree as int),
            forall|k: int|
                0 <= k < row_idx ==> presses@[#[trigger] pivots[k] as int] <= max_press@[pivots[k] as int],
            pivots_assigned(form, free_counts@, presses@, row_idx as int),
    {
        let pivot_col = form.pivot_cols[row_idx];
        let value = pivot_value(form, free_counts, row_idx);
        let found = value.to_u64();
        if found.is_none() || found.unwrap() > max_press[pivot_col] {
            proof {
                assert forall|x: Seq<u64>| !is_completion(
                    mv,
                    target@,
                    pivots,
                    free,
                    free_counts@,
                    max_press@,
                    x,
                ) by {
                    if is_completion(mv, target@, pivots, free, free_counts@, max_press@, x) {
                        lemma_completion_pivot(
                            form,
                            mv,
                            target@,
                            free_counts@,
                            max_press@,
                            x,
                            row_idx as int,
                        );
                        let xp = x[pivots[row_idx as int] as int];
                        assert(value@ == xp as real);
                        lemma_whole_u64(xp);
                        assert(xp <= max_press@[pivots[row_idx as int] as int]);
                    }
                }
            }
            return None;
        }
        let count = found.unwrap();
        let ghost before = presses@;
        presses[pivot_col] = count;
        proof {
            assert(!free.contains(pivot_col)) by {
                assert(pivots.contains(pivot_col));
            }
            assert forall|j: int| 0 <= j < nfree implies presses@[#[trigger] free[j] as int]
                == free_counts@[j] by {
                assert(free.contains(free[j]));
                assert(before[free[j] as int] == free_counts@[j]);
            }
            assert forall|k: int| 0 <= k < row_idx + 1 implies presses@[#[trigger] pivots[k] as int]
                <= max_press@[pivots[k] as int] by {
                if k < row_idx {
                    assert(pivots[k] < pivots[row_idx as int]);
                    assert(before[pivots[k] as int] <= max_press@[pivots[k] as int]);
                }
            }
            assert forall|k: int| 0 <= k < row_idx + 1 implies presses@[#[trigger] pivots[k] as int] as real
                == form.rhs@[k]@ - free_sum(
                rational_rows(form.matrix@)[k],
                free,
                free_counts@,
                free_counts@.len() as int,
            ) by {
                if k < row_idx {
                    assert(pivots[k] < pivots[row_idx as int]);
                    assert(before[pivots[k] as int] == presses@[pivots[k] as int]);
                }
            }
        }
    }
    proof {
        assert forall|x: Seq<u64>|
            is_completion(
                mv,
                target@,
                pivots,
                free,
                free_counts@,
                max_press@,
                x,
            ) implies presses@ == x by {
            lemma_assembled_is_completion(form, mv, target@, free_counts@, max_press@, presses@, x);
        }
        assert forall|r: int| 0 <= r < matrix@.len() implies (#[trigger] matrix@[r])@.len()
            <= presses@.len() by {
            assert(mv[r].len() == cols);
        }
    }
    if !verify_press_counts(matrix, target, presses.as_slice()) {
        return None;
    }
    let mut sum: u128 = 0;
    for c in 0..cols
        invariant
            presses@.len() == cols,
            sum == total_upto(presses@, c as int),
    {
        proof {
            lemma_total_bound(presses@, c as int);
            assert(c * u64::MAX + u64::MAX <= u128::MAX) by (nonlinear_arith)
                requires
                    c <= usize::MAX,
            ;
        }
        sum = sum + presses[c] as u128;
    }
    proof {
        assert(pivots_bounded(presses@, pivots, max_press@));
        assert(is_completion(mv, target@, pivots, free, free_counts@, max_press@, presses@)
            && total(presses@) == sum);
    }
    Some(sum)
}

/// What the search is given and never changes: a rectangular system with at
/// least one row, its echelon form, the press bounds, and for each button
/// the rows it touches.
pub open spec fn search_context(
    form: &EchelonForm,
    matrix: Seq<Seq<u8>>,
    target: Seq<u64>,
    max_press: Seq<u64>,
    button_rows: Seq<Vec<usize>>,
) -> bool {
    &&& matrix.len() == target.len()
    &&& matrix.len() > 0
    &&& max_press.len() == matrix[0].len()
    &&& is_rectangular(matrix, max_press.len() as int)
    &&& form.wf(max_press.len() as int)
    &&& form.entailed_by(matrix, target)
    &&& button_rows.len() == max_press.len()
    &&& forall|c: int|
        0 <= c < button_rows.len() ==> is_touched_list(
            matrix,
            c,
            matrix.len() as int,
            (#[trigger] button_rows[c])@,
        )
}

/// The scratch state on entering depth `idx`: the row sums and the press
/// total of the free columns fixed so far, with no row above its target.
pub open spec fn search_state(
    matrix: Seq<Seq<u8>>,
    target: Seq<u64>,
    free: Seq<usize>,
    counts: Seq<u64>,
    partial_rows: Seq<u128>,
    partial_sum: u128,
    idx: int,
) -> bool {
    &&& 0 <= idx <= free.len()
    &&& counts.len() == free.len()
    &&& partial_rows.len() == matrix.len()
    &&& forall|r: int|
        0 <= r < matrix.len() ==> #[trigger] partial_rows[r] == partial_row(
            matrix[r],
            free,
            counts,
            idx,
        ) && partial_rows[r] <= target[r]
    &&& partial_sum == total_upto(counts, idx)
}

/// A press vector within the bounds that satisfies the system.
pub open spec fn is_candidate(
    matrix: Seq<Seq<u8>>,
    target: Seq<u64>,
    max_press: Seq<u64>,
    x: Seq<u64>,
) -> bool {
    &&& x.len() == max_press.len()
    &&& satisfies(matrix, target, x)
    &&& bounded(x, max_press)
}

/// The best total, if there is one, is the total of a press vector that
/// satisfies the system.
pub open spec fn best_sound(
    matrix: Seq<Seq<u8>>,
    target: Seq<u64>,
    cols: int,
    best: Option<u128>,
) -> bool {
    best matches Some(b) ==> exists|x: Seq<u64>|
        x.len() == cols && #[trigger] satisfies(matrix, target, x) && total(x) == b
}

/// There is a best total, and it is at most `t`.
pub open spec fn within(best: Option<u128>, t: int) -> bool {
    best matches Some(b) && b <= t
}

/// The best total has not grown.
pub open spec fn improves(before: Option<u128>, after: Option<u128>) -> bool {
    before matches Some(b) ==> within(after, b as int)
}

/// A candidate below the prefix: a press vector that satisfies the system,
/// gives the first `idx` free columns the counts assigned, and keeps the
/// pivot columns and the free columns from `idx` on within their bounds.
pub open spec fn is_candidate_below(
    matrix: Seq<Seq<u8>>,
    target: Seq<u64>,
    max_press: Seq<u64>,
    pivots: Seq<usize>,
    free: Seq<usize>,
    counts: Seq<u64>,
    idx: int,
    x: Seq<u64>,
) -> bool {
    &&& x.len() == max_press.len()
    &&& satisfies(matrix, target, x)
    &&& agrees(x, free, counts, idx)
    &&& pivots_bounded(x, pivots, max_press)
    &&& forall|j: int|
        idx <= j < free.len() ==> x[#[trigger] free[j] as int] <= max_press[free[j] as int]
}

/// The best total is at most the total of every candidate below the
/// prefix.
pub open spec fn covers(
    matrix: Seq<Seq<u8>>,
    target: Seq<u64>,
    max_press: Seq<u64>,
    pivots: Seq<usize>,
    free: Seq<usize>,
    counts: Seq<u64>,
    idx: int,
    best: Option<u128>,
) -> bool {
    forall|x: Seq<u64>|
        #[trigger] is_candidate_below(matrix, target, max_press, pivots, free, counts, idx, x)
            ==> within(best, total(x))
}

/// As [`covers`], for the candidates whose count in free column `idx` is
/// below `count`.
pub open spec fn covers_below(
    matrix: Seq<Seq<u8>>,
    target: Seq<u64>,
    max_press: Seq<u64>,
    pivots: Seq<usize>,
    free: Seq<usize>,
    counts: Seq<u64>,
    idx: int,
    count: int,
    best: Option<u128>,
) -> bool {
    forall|x: Seq<u64>|
        #[trigger] is_candidate_below(matrix, target, max_press, pivots, free, counts, idx, x)
            && x[free[idx] as int] < count ==> within(best, total(x))
}

/// The best total is the one before, or the total of a candidate below the
/// prefix.
pub open spec fn found_below(
    matrix: Seq<Seq<u8>>,
    target: Seq<u64>,
    max_press: Seq<u64>,
    pivots: Seq<usize>,
    free: Seq<usize>,
    counts: Seq<u64>,
    idx: int,
    before: Option<u128>,
    after: Option<u128>,
) -> bool {
    after == before || (after matches Some(b) && exists|x: Seq<u64>|
        #[trigger] is_candidate_below(matrix, target, max_press, pivots, free, counts, idx, x)
            && total(x) == b)
}

/// A best total found below a longer prefix was found below the shorter
/// one.
proof fn lemma_found_next(
    matrix: Seq<Seq<u8>>,
    target: Seq<u64>,
    max_press: Seq<u64>,
    pivots: Seq<usize>,
    free: Seq<usize>,
    counts: Seq<u64>,
    next: Seq<u64>,
    idx: int,
    first: Option<u128>,
    before: Option<u128>,
    after: Option<u128>,
)
    requires
        0 <= idx < free.len(),
        counts.len() == free.len(),
        next.len() == free.len(),
        forall|j: int| 0 <= j < idx ==> next[j] == counts[j],
        next[idx] <= max_press[free[idx] as int],
        found_below(matrix, target, max_press, pivots, free, counts, idx, first, before),
        found_below(matrix, target, max_press, pivots, free, next, idx + 1, before, after),
    ensures
        found_below(matrix, target, max_press, pivots, free, counts, idx, first, after),
{
    if after != before {
        let x = choose|x: Seq<u64>|
            #[trigger] is_candidate_below(matrix, target, max_press, pivots, free, next, idx + 1, x)
                && total(x) == after->Some_0;
        assert(x[free[idx] as int] == next[idx]);
        assert forall|j: int| idx <= j < free.len() implies x[#[trigger] free[j] as int]
            <= max_press[free[j] as int] by {
            if j == idx {
            }
        }
        assert(is_candidate_below(matrix, target, max_press, pivots, free, counts, idx, x));
    }
}

/// A prefix whose presses already reach the best total has no candidate
/// below it.
proof fn lemma_pruned(
    matrix: Seq<Seq<u8>>,
    target: Seq<u64>,
    max_press: Seq<u64>,
    pivots: Seq<usize>,
    free: Seq<usize>,
    counts: Seq<u64>,
    idx: int,
    best: Option<u128>,
)
    requires
        increasing_below(free, max_press.len() as int),
        0 <= idx <= free.len(),
        within(best, total_upto(counts, idx)),
    ensures
        covers(matrix, target, max_press, pivots, free, counts, idx, best),
{
    assert forall|x: Seq<u64>| #[trigger]
        is_candidate_below(matrix, target, max_press, pivots, free, counts, idx, x) implies within(
        best,
        total(x),
    ) by {
        lemma_prefix_total(x, free, counts, idx);
    }
}

/// A prefix that takes some row above its target has no candidate at all.
proof fn lemma_overshoot(
    matrix: Seq<Seq<u8>>,
    target: Seq<u64>,
    max_press: Seq<u64>,
    pivots: Seq<usize>,
    free: Seq<usize>,
    counts: Seq<u64>,
    idx: int,
    r: int,
    best: Option<u128>,
)
    requires
        is_rectangular(matrix, max_press.len() as int),
        increasing_below(free, max_press.len() as int),
        0 <= idx <= free.len(),
        0 <= r < matrix.len(),
        partial_row(matrix[r], free, counts, idx) > target[r],
    ensures
        covers(matrix, target, max_press, pivots, free, counts, idx, best),
{
    assert forall|x: Seq<u64>| #[trigger]
        is_candidate_below(matrix, target, max_press, pivots, free, counts, idx, x) implies within(
        best,
        total(x),
    ) by {
        lemma_prefix_row(matrix[r], x, free, counts, idx);
        assert(row_sum(matrix[r], x) == target[r]);
    }
}

/// Having covered the counts below `count` and then the count itself, the
/// counts below `count + 1` are covered.
proof fn lemma_cover_next(
    matrix: Seq<Seq<u8>>,
    target: Seq<u64>,
    max_press: Seq<u64>,
    pivots: Seq<usize>,
    free: Seq<usize>,
    counts: Seq<u64>,
    next: Seq<u64>,
    idx: int,
    count: u64,
    before: Option<u128>,
    after: Option<u128>,
)
    requires
        0 <= idx < free.len(),
        counts.len() == free.len(),
        next.len() == free.len(),
        forall|j: int| 0 <= j < idx ==> next[j] == counts[j],
        next[idx] == count,
        covers_below(matrix, target, max_press, pivots, free, counts, idx, count as int, before),
        improves(before, after),
        covers(matrix, target, max_press, pivots, free, next, idx + 1, after),
    ensures
        covers_below(matrix, target, max_press, pivots, free, counts, idx, count + 1, after),
{
    assert forall|x: Seq<u64>|
        #[trigger] is_candidate_below(matrix, target, max_press, pivots, free, counts, idx, x)
            && x[free[idx] as int] < count + 1 implies within(after, total(x)) by {
        if x[free[idx] as int] < count {
            assert(within(before, total(x)));
        } else {
            assert(agrees(x, free, next, idx + 1));
            assert(is_candidate_below(matrix, target, max_press, pivots, free, next, idx + 1, x));
        }
    }
}

/// Row `r` is among the first `k` entries of `list`.
pub open spec fn listed(list: Seq<usize>, k: int, r: int) -> bool {
    exists|t: int| 0 <= t < k && list[t] == r
}

/// Adds `count` to the partial sum of every row in `list` and says whether
/// every row is still within its target.
fn apply_count(list: &Vec<usize>, partial_rows: &mut Vec<u128>, count: u64, target: &[u64]) -> (ok:
    bool)
    requires
        increasing_below(list@, old(partial_rows)@.len() as int),
        old(partial_rows)@.len() == target@.len(),
        forall|r: int| 0 <= r < target@.len() ==> old(partial_rows)@[r] <= target@[r],
    ensures
        final(partial_rows)@.len() == old(partial_rows)@.len(),
        forall|r: int|
            0 <= r < target@.len() ==> #[trigger] final(partial_rows)@[r] == old(partial_rows)@[r]
                + (if listed(list@, list@.len() as int, r) {
                count as int
            } else {
                0
            }),
        ok == (forall|r: int| 0 <= r < target@.len() ==> final(partial_rows)@[r] <= target@[r]),
{
    let mut ok = true;
    for k in 0..list.len()
        invariant
            increasing_below(list@, target@.len() as int),
            partial_rows@.len() == target@.len(),
            old(partial_rows)@.len() == target@.len(),
            forall|r: int| 0 <= r < target@.len() ==> old(partial_rows)@[r] <= target@[r],
            forall|r: int|
                0 <= r < target@.len() ==> #[trigger] partial_rows@[r] == old(partial_rows)@[r] + (
                if listed(list@, k as int, r) {
                    count as int
                } else {
                    0
                }),
            ok == (forall|r: int| 0 <= r < target@.len() ==> partial_rows@[r] <= target@[r]),
    {
        let row = list[k];
        let ghost before = partial_rows@;
        proof {
            if listed(list@, k as int, row as int) {
                let t = choose|t: int| 0 <= t < k && list@[t] == row as int;
                assert(list@[t] < list@[k as int]);
            }
            assert(partial_rows@[row as int] == old(partial_rows)@[row as int]);
            assert(old(partial_rows)@[row as int] <= target@[row as int]);
        }
        partial_rows[row] = partial_rows[row] + count as u128;
        if partial_rows[row] > target[row] as u128 {
            ok = false;
        }
        proof {
            assert(listed(list@, k + 1, row as int)) by {
                assert(list@[k as int] == row as int);
            }
            assert forall|r: int| 0 <= r < target@.len() implies #[trigger] partial_rows@[r]
                == old(partial_rows)@[r] + (if listed(list@, k + 1, r) {
                count as int
            } else {
                0
            }) by {
                if r != row {
                    assert(partial_rows@[r] == before[r]);
                    if listed(list@, k as int, r) {
                        let t = choose|t: int| 0 <= t < k && list@[t] == r;
                        assert(0 <= t < k + 1 && list@[t] == r);
                    }
                    if listed(list@, k + 1, r) {
                        let t = choose|t: int| 0 <= t < k + 1 && list@[t] == r;
                        assert(t != k);
                    }
                }
            }
            if ok {
                assert forall|r: int| 0 <= r < target@.len() implies partial_rows@[r]
                    <= target@[r] by {
                    if r != row {
                        assert(before[r] <= target@[r]);
                    }
                }
            } else {
                if partial_rows@[row as int] <= target@[row as int] {
                    let r = choose|r: int| 0 <= r < target@.len() && !(before[r] <= target@[r]);
                    assert(r != row);
                    assert(partial_rows@[r] == before[r]);
                }
            }
        }
    }
    ok
}

/// Takes `count` off the partial sum of every row in `list`.
fn undo_count(list: &Vec<usize>, partial_rows: &mut Vec<u128>, count: u64)
    requires
        increasing_below(list@, old(partial_rows)@.len() as int),
        forall|t: int| 0 <= t < list@.len() ==> old(partial_rows)@[#[trigger] list@[t] as int] >= count,
    ensures
        final(partial_rows)@.len() == old(partial_rows)@.len(),
        forall|r: int|
            0 <= r < old(partial_rows)@.len() ==> #[trigger] final(partial_rows)@[r] == old(
                partial_rows,
            )@[r] - (if listed(list@, list@.len() as int, r) {
                count as int
            } else {
                0
            }),
{
    for k in 0..list.len()
        invariant
            increasing_below(list@, partial_rows@.len() as int),
            partial_rows@.len() == old(partial_rows)@.len(),
            forall|t: int|
                0 <= t < list@.len() ==> old(partial_rows)@[#[trigger] list@[t] as int] >= count,
            forall|r: int|
                0 <= r < partial_rows@.len() ==> #[trigger] partial_rows@[r] == old(partial_rows)@[r]
                    - (if listed(list@, k as int, r) {
                    count as int
                } else {
                    0
                }),
    {
        let row = list[k];
        let ghost before = partial_rows@;
        proof {
            if listed(list@, k as int, row as int) {
                let t = choose|t: int| 0 <= t < k && list@[t] == row as int;
                assert(list@[t] < list@[k as int]);
            }
            assert(old(partial_rows)@[list@[k as int] as int] >= count);
        }
        partial_rows[row] = partial_rows[row] - count as u128;
        proof {
            assert(listed(list@, k + 1, row as int)) by {
                assert(list@[k as int] == row as int);
            }
            assert forall|r: int| 0 <= r < partial_rows@.len() implies #[trigger] partial_rows@[r]
                == old(partial_rows)@[r] - (if listed(list@, k + 1, r) {
                count as int
            } else {
                0
            }) by {
                if r != row {
                    assert(partial_rows@[r] == before[r]);
                    if listed(list@, k as int, r) {
                        let t = choose|t: int| 0 <= t < k && list@[t] == r;
                        assert(0 <= t < k + 1 && list@[t] == r);
                    }
                    if listed(list@, k + 1, r) {
                        let t = choose|t: int| 0 <= t < k + 1 && list@[t] == r;
                        assert(t != k);
                    }
                }
            }
        }
    }
}

/// After `count` has been added to the rows that free column `idx` touches,
/// the row sums and the press total are those of the longer prefix.
proof fn lemma_state_after_apply(
    matrix: Seq<Seq<u8>>,
    target: Seq<u64>,
    free: Seq<usize>,
    counts: Seq<u64>,
    next: Seq<u64>,
    before: Seq<u128>,
    after: Seq<u128>,
    partial_sum: u128,
    idx: int,
    count: u64,
    list: Seq<usize>,
    cols: int,
)
    requires
        search_state(matrix, target, free, counts, before, partial_sum, idx),
        idx < free.len(),
        matrix.len() <= usize::MAX,
        is_rectangular(matrix, cols),
        increasing_below(free, cols),
        is_touched_list(matrix, free[idx] as int, matrix.len() as int, list),
        after.len() == matrix.len(),
        forall|r: int|
            0 <= r < matrix.len() ==> #[trigger] after[r] == before[r] + (if listed(
                list,
                list.len() as int,
                r,
            ) {
                count as int
            } else {
                0
            }),
        next.len() == counts.len(),
        forall|j: int| 0 <= j < idx ==> next[j] == counts[j],
        next[idx] == count,
    ensures
        forall|r: int|
            0 <= r < matrix.len() ==> #[trigger] after[r] == partial_row(
                matrix[r],
                free,
                next,
                idx + 1,
            ),
        total_upto(next, idx + 1) == partial_sum + count,
{
    lemma_total_same(next, counts, idx);
    let col = free[idx] as int;
    assert forall|r: int| 0 <= r < matrix.len() implies #[trigger] after[r] == partial_row(
        matrix[r],
        free,
        next,
        idx + 1,
    ) by {
        lemma_partial_row_same(matrix[r], free, next, counts, idx);
        assert(before[r] == partial_row(matrix[r], free, counts, idx));
        assert(matrix[r].len() == cols);
        if listed(list, list.len() as int, r) {
            let t = choose|t: int| 0 <= t < list.len() && list[t] == r;
            assert(touches(matrix, list[t] as int, col));
        } else {
            if touches(matrix, r, col) {
                assert(list.contains(r as usize));
                let t = choose|t: int| 0 <= t < list.len() && list[t] == r as usize;
                assert(list[t] == r);
                assert(false);
            }
        }
    }
}

/// Depth-first search over the free columns from depth `idx` on.
///
/// Every count from zero to the column's bound is tried for free column
/// `idx`. A count is passed over when the presses fixed so far already reach
/// the best total, or when it takes some row above its target; otherwise the
/// search descends, and at full depth the assignment is assembled and
/// replayed. `best` ends as the least total among the totals it held before
/// and those of the candidates that agree with the first `idx` counts. The
/// row sums are restored before returning.
pub fn search_free_assignments(
    idx: usize,
    form: &EchelonForm,
    button_rows: &Vec<Vec<usize>>,
    max_press: &[u64],
    partial_rows: &mut Vec<u128>,
    free_counts: &mut Vec<u64>,
    partial_sum: u128,
    matrix: &[Vec<u8>],
    target: &[u64],
    best: &mut Option<u128>,
)
    requires
        search_context(form, matrix_view(matrix@), target@, max_press@, button_rows@),
        search_state(
            matrix_view(matrix@),
            target@,
            form.free_cols@,
            old(free_counts)@,
            old(partial_rows)@,
            partial_sum,
            idx as int,
        ),
        best_sound(matrix_view(matrix@), target@, max_press@.len() as int, *old(best)),
    ensures
        final(partial_rows)@ == old(partial_rows)@,
        final(free_counts)@.len() == old(free_counts)@.len(),
        forall|j: int| 0 <= j < idx ==> final(free_counts)@[j] == old(free_counts)@[j],
        best_sound(matrix_view(matrix@), target@, max_press@.len() as int, *final(best)),
        improves(*old(best), *final(best)),
        covers(
            matrix_view(matrix@),
            target@,
            max_press@,
            form.pivot_cols@,
            form.free_cols@,
            old(free_counts)@,
            idx as int,
            *final(best),
        ),
        found_below(
            matrix_view(matrix@),
            target@,
            max_press@,
            form.pivot_cols@,
            form.free_cols@,
            old(free_counts)@,
            idx as int,
            *old(best),
            *final(best),
        ),
    decreases form.free_cols@.len() - idx,
{
    let ghost mv = matrix_view(matrix@);
    let ghost free = form.free_cols@;
    let ghost pivots = form.pivot_cols@;
    let ghost cols = max_press@.len() as int;
    let ghost counts0 = free_counts@;
    let ghost rows0 = partial_rows@;
    let ghost best0 = *best;
    if let Some(best_val) = *best {
        if partial_sum >= best_val {
            proof {
                lemma_pruned(mv, target@, max_press@, pivots, free, counts0, idx as int, *best);
            }
            return;
        }
    }
    if idx == form.free_cols.len() {
        let outcome = evaluate_solution(form, free_counts.as_slice(), matrix, target, max_press);
        if let Some(found) = outcome {
            let better = match *best {
                Some(best_val) => found < best_val,
                None => true,
            };
            if better {
                *best = Some(found);
                proof {
                    let x = choose|x: Seq<u64>|
                        is_completion(mv, target@, pivots, free, counts0, max_press@, x) && total(x)
                            == found;
                    assert(is_candidate_below(
                        mv,
                        target@,
                        max_press@,
                        pivots,
                        free,
                        counts0,
                        idx as int,
                        x,
                    ));
                }
            }
        }
        proof {
            assert forall|x: Seq<u64>| #[trigger]
                is_candidate_below(
                    mv,
                    target@,
                    max_press@,
                    pivots,
                    free,
                    counts0,
                    idx as int,
                    x,
                ) implies within(*best, total(x)) by {
                assert(is_completion(
                    mv,
                    target@,
                    form.pivot_cols@,
                    free,
                    counts0,
                    max_press@,
                    x,
                ));
            }
        }
        return;
    }
    let nfree = form.free_cols.len();
    let rows = matrix.len();
    let col = form.free_cols[idx];
    let limit = max_press[col];
    let mut count: u64 = 0;
    loop
        invariant_except_break
            covers_below(
                mv,
                target@,
                max_press@,
                pivots,
                free,
                counts0,
                idx as int,
                count as int,
                *best,
            ),
        invariant
            search_context(form, mv, target@, max_press@, button_rows@),
            mv == matrix_view(matrix@),
            free == form.free_cols@,
            pivots == form.pivot_cols@,
            found_below(mv, target@, max_press@, pivots, free, counts0, idx as int, best0, *best),
            cols == max_press@.len(),
            idx < nfree,
            nfree == free.len(),
            rows == mv.len(),
            col == free[idx as int],
            col < cols,
            limit == max_press@[col as int],
            count <= limit,
            counts0.len() == free.len(),
            search_state(mv, target@, free, counts0, rows0, partial_sum, idx as int),
            partial_rows@ == rows0,
            free_counts@.len() == counts0.len(),
            forall|j: int| 0 <= j < idx ==> free_counts@[j] == counts0[j],
            best_sound(mv, target@, cols, *best),
            improves(best0, *best),
        ensures
            covers_below(
                mv,
                target@,
                max_press@,
                pivots,
                free,
                counts0,
                idx as int,
                limit + 1,
                *best,
            ),
        decreases limit - count,
    {
        let ghost best_before = *best;
        let ghost next = free_counts@.update(idx as int, count);
        proof {
            lemma_total_bound(counts0, idx as int);
            assert(idx * u64::MAX + u64::MAX <= u128::MAX) by (nonlinear_arith)
                requires
                    idx <= usize::MAX,
            ;
            lemma_total_same(next, counts0, idx as int);
        }
        let reached = match *best {
            Some(best_val) => partial_sum + count as u128 >= best_val,
            None => false,
        };
        if reached && count != 0 {
            proof {
                lemma_pruned(mv, target@, max_press@, pivots, free, next, idx + 1, *best);
            }
        } else {
            let list = &button_rows[col];
            let ok = apply_count(list, partial_rows, count, target);
            proof {
                lemma_state_after_apply(
                    mv,
                    target@,
                    free,
                    counts0,
                    next,
                    rows0,
                    partial_rows@,
                    partial_sum,
                    idx as int,
                    count,
                    list@,
                    cols,
                );
            }
            if ok {
                free_counts[idx] = count;
                assert(free_counts@ == next);
                search_free_assignments(
                    idx + 1,
                    form,
                    button_rows,
                    max_press,
                    partial_rows,
                    free_counts,
                    partial_sum + count as u128,
                    matrix,
                    target,
                    best,
                );
                proof {
                    assert(free_counts@[idx as int] == count);
                    lemma_found_next(
                        mv,
                        target@,
                        max_press@,
                        pivots,
                        free,
                        counts0,
                        next,
                        idx as int,
                        best0,
                        best_before,
                        *best,
                    );
                }
            } else {
                proof {
                    let r = choose|r: int|
                        0 <= r < target@.len() && !(partial_rows@[r] <= target@[r]);
                    lemma_overshoot(mv, target@, max_press@, pivots, free, next, idx + 1, r, *best);
                }
            }
            let ghost applied = partial_rows@;
            proof {
                assert forall|t: int| 0 <= t < list@.len() implies applied[#[trigger] list@[t] as int]
                    >= count by {
                    assert(listed(list@, list@.len() as int, list@[t] as int));
                }
            }
            undo_count(list, partial_rows, count);
            assert(partial_rows@ =~= rows0);
        }
        proof {
            lemma_cover_next(
                mv,
                target@,
                max_press@,
                pivots,
                free,
                counts0,
                next,
                idx as int,
                count,
                best_before,
                *best,
            );
        }
        if count == limit {
            break;
        }
        count += 1;
    }
    proof {
        assert forall|x: Seq<u64>| #[trigger]
            is_candidate_below(
                mv,
                target@,
                max_press@,
                pivots,
                free,
                counts0,
                idx as int,
                x,
            ) implies within(*best, total(x)) by {
            assert(x[free[idx as int] as int] <= max_press@[free[idx as int] as int]);
        }
    }
}

} // verus!
