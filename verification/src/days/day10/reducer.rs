//! The linear-system reducer: cheap deductions before the search.

use vstd::prelude::*;
use crate::days::day10::linear::{
    is_rectangular, is_touched, lemma_total_bound, lemma_total_update, matrix_view, satisfies,
    total, touches,
};
use crate::days::day10::machine::{
    has_bit, lemma_no_bit, lemma_set_bit, machine_matrix, mask_bit, Machine,
};
use crate::days::day10::real_rows::increasing_below;
use crate::days::day10::reduction::{
    at_fixpoint, count_active, is_selection, lemma_count_active_drop, lemma_forced,
    lemma_reduces_to, lemma_reduction_start, lemma_removed, lemma_selection_shape, identity,
    dominant, is_binary, is_reduced, is_reduction, lemma_dominant_forced,
    lemma_dominant_removed, lemma_dominant_start, lemma_empty_residue_least, lemma_is_reduction,
    lemma_short_row, lemma_single_covers_leave_nothing, lemma_uncovered, reduces_to,
    reduction_inv, row_has_two, sole_cover, survivors, two_covers, uncovered,
};
use crate::days::day10::linear::row_sum;
use crate::days::day10::solver::{
    column_count, has_uncovered_row, is_least_total, is_unsatisfiable, lemma_row_sum_untouched,
    row_untouched, SolveError,
};

verus! {

/// What is left of a machine's system after the cheap deductions.
pub struct ReducedSystem {
    /// The presses already pinned down.
    pub forced_total: u128,
    /// The surviving rows and columns.
    pub matrix: Vec<Vec<u8>>,
    /// The demand that remains for each surviving row.
    pub target: Vec<u64>,
}

impl ReducedSystem {
    /// The shape of a reduced system: every row has a positive target and at
    /// least two buttons, and every button touches a row.
    pub open spec fn wf(&self) -> bool {
        let m = matrix_view(self.matrix@);
        is_reduced(m, self.target@, column_count(m)) && is_binary(m)
    }
}

/// The masks name, for each column, the rows in which the matrix has a
/// non-zero entry.
pub open spec fn encodes(buttons: Seq<u128>, matrix: Seq<Seq<u8>>) -> bool {
    &&& buttons.len() == column_count(matrix)
    &&& forall|r: int, c: int|
        0 <= r < matrix.len() && 0 <= c < buttons.len() ==> (#[trigger] mask_bit(buttons[c], r)
            <==> matrix[r][c] != 0)
}

/// Running the reducer on its own output changes nothing further.
///
/// The output of the reducer is a reduced system of zeros and ones. Written
/// as a machine, one mask per column, it has that system as its matrix and
/// is reduced; and on a machine that is reduced, [`reduce_machine`] returns
/// the machine's own matrix and targets with a forced total of zero.
pub proof fn lemma_reduction_is_fixpoint(
    matrix: Seq<Seq<u8>>,
    target: Seq<u64>,
    buttons: Seq<u128>,
)
    requires
        is_reduced(matrix, target, column_count(matrix)),
        is_binary(matrix),
        encodes(buttons, matrix),
    ensures
        machine_matrix(buttons, target.len() as int) == matrix,
        is_reduced(machine_matrix(buttons, target.len() as int), target, buttons.len() as int),
{
    let mm = machine_matrix(buttons, target.len() as int);
    assert forall|r: int| 0 <= r < matrix.len() implies #[trigger] mm[r] =~= matrix[r] by {
        assert(matrix[r].len() == buttons.len());
        assert forall|c: int| 0 <= c < buttons.len() implies mm[r][c] == matrix[r][c] by {
            assert(mask_bit(buttons[c], r) <==> matrix[r][c] != 0);
            assert(matrix[r][c] <= 1);
        }
    }
    assert(mm =~= matrix);
}

impl ReducedSystem {
    /// The machine whose increment system is this system: one button per
    /// column, which touches the counters of the rows where the column is
    /// not zero.
    pub fn to_machine(&self) -> (m: Machine)
        requires
            self.wf(),
            self.matrix@.len() <= 128,
        ensures
            m.target == 0,
            m.joltage@ == self.target@,
            encodes(m.buttons@, matrix_view(self.matrix@)),
            machine_matrix(m.buttons@, m.joltage@.len() as int) == matrix_view(self.matrix@),
            is_reduced(
                machine_matrix(m.buttons@, m.joltage@.len() as int),
                m.joltage@,
                m.buttons@.len() as int,
            ),
    {
        let ghost mv = matrix_view(self.matrix@);
        let rows = self.matrix.len();
        let cols = if rows == 0 {
            0
        } else {
            self.matrix[0].len()
        };
        let mut buttons: Vec<u128> = Vec::new();
        for c in 0..cols
            invariant
                mv == matrix_view(self.matrix@),
                rows == self.matrix@.len(),
                rows <= 128,
                cols == column_count(mv),
                is_rectangular(mv, cols as int),
                buttons@.len() == c,
                forall|r: int, b: int|
                    0 <= r < rows && 0 <= b < c ==> (#[trigger] mask_bit(buttons@[b], r) <==> mv[r][b]
                        != 0),
        {
            let mut mask: u128 = 0;
            proof {
                assert forall|q: int| !mask_bit(0, q) by {
                    lemma_no_bit(q);
                }
            }
            for r in 0..rows
                invariant
                    mv == matrix_view(self.matrix@),
                    rows == self.matrix@.len(),
                    rows <= 128,
                    c < cols,
                    is_rectangular(mv, cols as int),
                    forall|q: int| 0 <= q < r ==> (mask_bit(mask, q) <==> mv[q][c as int] != 0),
                    forall|q: int| r <= q ==> !mask_bit(mask, q),
            {
                assert(mv[r as int].len() == cols);
                assert(mv[r as int] == self.matrix@[r as int]@);
                let ghost before = mask;
                if self.matrix[r][c] != 0 {
                    mask = mask | (1u128 << (r as u128));
                    proof {
                        assert forall|q: int| mask_bit(mask, q) == (q == r || mask_bit(before, q)) by {
                            lemma_set_bit(before, r as int, q);
                        }
                    }
                }
            }
            buttons.push(mask);
        }
        let target = copy_targets(&self.target);
        proof {
            lemma_reduction_is_fixpoint(mv, self.target@, buttons@);
        }
        Machine { target: 0, buttons, joltage: target }
    }
}

/// A copy of the targets.
fn copy_targets(target: &Vec<u64>) -> (copy: Vec<u64>)
    ensures
        copy@ == target@,
{
    let mut copy: Vec<u64> = Vec::new();
    for i in 0..target.len()
        invariant
            copy@.len() == i,
            forall|k: int| 0 <= k < i ==> copy@[k] == target@[k],
    {
        copy.push(target[i]);
    }
    assert(copy@ =~= target@);
    copy
}

/// What a button touches in the machine's matrix is what its mask names.
proof fn lemma_machine_touches(buttons: Seq<u128>, rows: int, r: int, b: int)
    requires
        0 <= r < rows,
        0 <= b < buttons.len(),
    ensures
        touches(machine_matrix(buttons, rows), r, b) == mask_bit(buttons[b], r),
{
}

/// The first active button that touches `row`, and whether another one does.
fn covering(buttons: &Vec<u128>, active: &Vec<bool>, row: usize, Ghost(rows): Ghost<int>) -> (found:
    (Option<usize>, bool))
    requires
        active@.len() == buttons@.len(),
        0 <= row < rows,
    ensures
        match found.0 {
            None => uncovered(machine_matrix(buttons@, rows), active@, row as int),
            Some(b) => if found.1 {
                two_covers(machine_matrix(buttons@, rows), active@, row as int)
            } else {
                sole_cover(machine_matrix(buttons@, rows), active@, row as int, b as int)
            },
        },
{
    let ghost mm = machine_matrix(buttons@, rows);
    let mut first: Option<usize> = None;
    let mut more = false;
    for b in 0..buttons.len()
        invariant
            active@.len() == buttons@.len(),
            0 <= row < rows,
            mm == machine_matrix(buttons@, rows),
            match first {
                None => !more && forall|c: int| 0 <= c < b && active@[c] ==> !touches(mm, row as int, c),
                Some(f) => {
                    &&& f < b
                    &&& active@[f as int]
                    &&& touches(mm, row as int, f as int)
                    &&& forall|c: int| 0 <= c < f && active@[c] ==> !touches(mm, row as int, c)
                    &&& if more {
                        two_covers(mm, active@, row as int)
                    } else {
                        forall|c: int|
                            f < c < b && active@[c] ==> !touches(mm, row as int, c)
                    }
                },
            },
    {
        proof {
            lemma_machine_touches(buttons@, rows, row as int, b as int);
        }
        if active[b] && has_bit(buttons[b], row) {
            match first {
                None => {
                    first = Some(b);
                },
                Some(f) => {
                    more = true;
                    assert(0 <= f < b < active@.len() && active@[f as int] && active@[b as int]
                        && touches(mm, row as int, f as int) && touches(mm, row as int, b as int));
                },
            }
        }
    }
    (first, more)
}

/// Whether the button with this mask touches a row whose demand is zero.
fn touches_idle_row(mask: u128, demand: &Vec<u64>) -> (found: bool)
    ensures
        found == exists|r: int| 0 <= r < demand@.len() && mask_bit(mask, r) && demand@[r] == 0,
{
    for r in 0..demand.len()
        invariant
            forall|q: int| 0 <= q < r ==> !(mask_bit(mask, q) && demand@[q] == 0),
    {
        if has_bit(mask, r) && demand[r] == 0 {
            return true;
        }
    }
    false
}

/// Whether the button with this mask touches a row whose demand is positive.
fn touches_live_row(mask: u128, demand: &Vec<u64>) -> (found: bool)
    ensures
        found == exists|r: int| 0 <= r < demand@.len() && mask_bit(mask, r) && demand@[r] > 0,
{
    for r in 0..demand.len()
        invariant
            forall|q: int| 0 <= q < r ==> !(mask_bit(mask, q) && demand@[q] > 0),
    {
        if has_bit(mask, r) && demand[r] > 0 {
            return true;
        }
    }
    false
}

/// Whether the button with this mask touches any of the first `rows` rows.
fn touches_any_row(mask: u128, rows: usize) -> (found: bool)
    ensures
        found == exists|r: int| 0 <= r < rows && mask_bit(mask, r),
{
    for r in 0..rows
        invariant
            forall|q: int| 0 <= q < r ==> !mask_bit(mask, q),
    {
        if has_bit(mask, r) {
            return true;
        }
    }
    false
}

/// Takes `need` off the demand of every row that the mask names. Stops with
/// `false` at a row whose demand is smaller.
fn take_from_rows(mask: u128, remaining: &mut Vec<u64>, need: u64) -> (ok: bool)
    ensures
        final(remaining)@.len() == old(remaining)@.len(),
        ok ==> forall|q: int|
            0 <= q < old(remaining)@.len() ==> #[trigger] final(remaining)@[q] == old(remaining)@[q]
                - (if mask_bit(mask, q) {
                need as int
            } else {
                0
            }),
        !ok ==> exists|q: int|
            0 <= q < old(remaining)@.len() && mask_bit(mask, q) && old(remaining)@[q] < need,
{
    let rows = remaining.len();
    for r in 0..rows
        invariant
            rows == remaining@.len(),
            remaining@.len() == old(remaining)@.len(),
            forall|q: int|
                0 <= q < r ==> #[trigger] remaining@[q] == old(remaining)@[q] - (if mask_bit(mask, q) {
                    need as int
                } else {
                    0
                }),
            forall|q: int| r <= q < rows ==> remaining@[q] == old(remaining)@[q],
    {
        if has_bit(mask, r) {
            if remaining[r] < need {
                return false;
            }
            remaining[r] = remaining[r] - need;
        }
    }
    true
}

/// Which buttons take part at all: those that touch some row and no row
/// whose target is zero.
fn initial_active(buttons: &Vec<u128>, joltage: &Vec<u64>) -> (active: Vec<bool>)
    ensures
        active@.len() == buttons@.len(),
        forall|b: int|
            0 <= b < active@.len() && #[trigger] active@[b] ==> is_touched(
                machine_matrix(buttons@, joltage@.len() as int),
                b,
            ),
        forall|b: int|
            0 <= b < active@.len() && !#[trigger] active@[b] && is_touched(
                machine_matrix(buttons@, joltage@.len() as int),
                b,
            ) ==> exists|r: int|
                0 <= r < joltage@.len() && touches(
                    machine_matrix(buttons@, joltage@.len() as int),
                    r,
                    b,
                ) && joltage@[r] == 0,
        forall|b: int|
            0 <= b < active@.len() && is_touched(
                machine_matrix(buttons@, joltage@.len() as int),
                b,
            ) && !#[trigger] active@[b] ==> exists|r: int|
                0 <= r < joltage@.len() && joltage@[r] == 0,
{
    let rows = joltage.len();
    let ghost mm = machine_matrix(buttons@, rows as int);
    let mut active: Vec<bool> = Vec::new();
    for b in 0..buttons.len()
        invariant
            rows == joltage@.len(),
            mm == machine_matrix(buttons@, rows as int),
            active@.len() == b,
            forall|c: int| 0 <= c < b && #[trigger] active@[c] ==> is_touched(mm, c),
            forall|c: int|
                0 <= c < b && !#[trigger] active@[c] && is_touched(mm, c) ==> exists|r: int|
                    0 <= r < rows && touches(mm, r, c) && joltage@[r] == 0,
    {
        let mask = buttons[b];
        let any = touches_any_row(mask, rows);
        let idle = touches_idle_row(mask, joltage);
        proof {
            assert forall|r: int| 0 <= r < rows implies touches(mm, r, b as int) == mask_bit(
                mask,
                r,
            ) by {
                lemma_machine_touches(buttons@, rows as int, r, b as int);
            }
            if any {
                let r = choose|r: int| 0 <= r < rows && mask_bit(mask, r);
                assert(touches(mm, r, b as int));
            }
            if idle {
                let r = choose|r: int| 0 <= r < rows && mask_bit(mask, r) && joltage@[r] == 0;
                assert(touches(mm, r, b as int));
            }
        }
        active.push(any && !idle);
    }
    active
}

/// One scan over the rows for a forced assignment.
///
/// The first row that still has demand and only one active button fixes
/// that button. `Some(true)` says that a button was fixed, `Some(false)`
/// that every row with demand has two active buttons, `None` that the
/// system is unsatisfiable.
fn force_round(
    buttons: &Vec<u128>,
    joltage: &Vec<u64>,
    active: &mut Vec<bool>,
    remaining: &mut Vec<u64>,
    forced: &mut u128,
    Ghost(fixed): Ghost<Seq<u64>>,
) -> (outcome: (Option<bool>, Ghost<Seq<u64>>))
    requires
        reduction_inv(
            machine_matrix(buttons@, joltage@.len() as int),
            joltage@,
            old(active)@,
            old(remaining)@,
            fixed,
        ),
        old(active)@.len() == buttons@.len(),
        *old(forced) == total(fixed),
        dominant(machine_matrix(buttons@, joltage@.len() as int), joltage@, old(active)@),
    ensures
        final(active)@.len() == buttons@.len(),
        outcome.0 is Some ==> dominant(
            machine_matrix(buttons@, joltage@.len() as int),
            joltage@,
            final(active)@,
        ),
        (forall|r: int|
            0 <= r < joltage@.len() && old(remaining)@[r] > 0 ==> two_covers(
                machine_matrix(buttons@, joltage@.len() as int),
                old(active)@,
                r,
            )) ==> outcome.0 == Some(false),
        match outcome.0 {
            None => is_unsatisfiable(
                machine_matrix(buttons@, joltage@.len() as int),
                joltage@,
                buttons@.len() as int,
            ),
            Some(progress) => {
                &&& reduction_inv(
                    machine_matrix(buttons@, joltage@.len() as int),
                    joltage@,
                    final(active)@,
                    final(remaining)@,
                    outcome.1@,
                )
                &&& *final(forced) == total(outcome.1@)
                &&& if progress {
                    count_active(final(active)@, buttons@.len() as int) < count_active(
                        old(active)@,
                        buttons@.len() as int,
                    )
                } else {
                    &&& final(active)@ == old(active)@
                    &&& final(remaining)@ == old(remaining)@
                    &&& outcome.1@ == fixed
                    &&& *final(forced) == *old(forced)
                    &&& forall|r: int|
                        0 <= r < joltage@.len() && old(remaining)@[r] > 0 ==> two_covers(
                            machine_matrix(buttons@, joltage@.len() as int),
                            old(active)@,
                            r,
                        )
                }
            },
        },
{
    let rows = joltage.len();
    let nb = buttons.len();
    let ghost mm = machine_matrix(buttons@, rows as int);
    for row in 0..rows
        invariant
            rows == joltage@.len(),
            nb == buttons@.len(),
            mm == machine_matrix(buttons@, rows as int),
            active@ == old(active)@,
            remaining@ == old(remaining)@,
            *forced == *old(forced),
            *forced == total(fixed),
            active@.len() == buttons@.len(),
            reduction_inv(mm, joltage@, active@, remaining@, fixed),
            dominant(mm, joltage@, active@),
            forall|r: int| 0 <= r < row && remaining@[r] > 0 ==> two_covers(mm, active@, r),
    {
        let need = remaining[row];
        if need != 0 {
            let found = covering(buttons, active, row, Ghost(rows as int));
            proof {
                if two_covers(mm, active@, row as int) {
                    let (b, c) = choose|b: int, c: int|
                        0 <= b < c < active@.len() && active@[b] && active@[c] && touches(
                            mm,
                            row as int,
                            b,
                        ) && touches(mm, row as int, c);
                    assert(found.0 is Some && found.1);
                }
            }
            match found.0 {
                None => {
                    proof {
                        lemma_uncovered(mm, joltage@, active@, remaining@, fixed, row as int);
                    }
                    return (None, Ghost(fixed));
                },
                Some(col) => {
                    if !found.1 {
                        let ghost before = remaining@;
                        let ghost active_before = active@;
                        let mask = buttons[col];
                        proof {
                            assert forall|q: int| 0 <= q < rows implies touches(mm, q, col as int)
                                == mask_bit(mask, q) by {
                                lemma_machine_touches(buttons@, rows as int, q, col as int);
                            }
                        }
                        let ok = take_from_rows(mask, remaining, need);
                        if !ok {
                            proof {
                                let q = choose|q: int|
                                    0 <= q < rows && mask_bit(mask, q) && before[q] < need;
                                lemma_short_row(
                                    mm,
                                    joltage@,
                                    active_before,
                                    before,
                                    fixed,
                                    row as int,
                                    col as int,
                                    q,
                                );
                            }
                            return (None, Ghost(fixed));
                        }
                        let ghost next = fixed.update(col as int, need);
                        proof {
                            lemma_forced(
                                mm,
                                joltage@,
                                active_before,
                                before,
                                fixed,
                                row as int,
                                col as int,
                                remaining@,
                            );
                            lemma_dominant_forced(
                                mm,
                                joltage@,
                                active_before,
                                row as int,
                                col as int,
                            );
                            lemma_total_update(fixed, col as int, need, fixed.len() as int);
                            lemma_total_bound(next, next.len() as int);
                            assert(next.len() == nb);
                            assert(next.len() * u64::MAX <= u128::MAX) by (nonlinear_arith)
                                requires
                                    next.len() <= usize::MAX,
                            ;
                            lemma_count_active_drop(
                                active_before,
                                col as int,
                                active_before.len() as int,
                            );
                        }
                        *forced = *forced + need as u128;
                        active[col] = false;
                        return (Some(true), Ghost(next));
                    }
                },
            }
        }
    }
    (Some(false), Ghost(fixed))
}

/// Sets aside every active button that touches a row without demand, and
/// says whether there was one.
fn removal_pass(
    buttons: &Vec<u128>,
    joltage: &Vec<u64>,
    active: &mut Vec<bool>,
    remaining: &Vec<u64>,
    Ghost(fixed): Ghost<Seq<u64>>,
) -> (removed: bool)
    requires
        reduction_inv(
            machine_matrix(buttons@, joltage@.len() as int),
            joltage@,
            old(active)@,
            remaining@,
            fixed,
        ),
        old(active)@.len() == buttons@.len(),
        dominant(machine_matrix(buttons@, joltage@.len() as int), joltage@, old(active)@),
    ensures
        reduction_inv(
            machine_matrix(buttons@, joltage@.len() as int),
            joltage@,
            final(active)@,
            remaining@,
            fixed,
        ),
        dominant(machine_matrix(buttons@, joltage@.len() as int), joltage@, final(active)@),
        final(active)@.len() == buttons@.len(),
        removed ==> exists|r: int| 0 <= r < remaining@.len() && remaining@[r] == 0,
        if removed {
            count_active(final(active)@, buttons@.len() as int) < count_active(
                old(active)@,
                buttons@.len() as int,
            )
        } else {
            &&& final(active)@ == old(active)@
            &&& forall|b: int, r: int|
                0 <= b < buttons@.len() && old(active)@[b] && touches(
                    machine_matrix(buttons@, joltage@.len() as int),
                    r,
                    b,
                ) ==> remaining@[r] > 0
        },
{
    let rows = joltage.len();
    let nb = buttons.len();
    let ghost mm = machine_matrix(buttons@, rows as int);
    let mut removed = false;
    for col in 0..nb
        invariant
            rows == joltage@.len(),
            nb == buttons@.len(),
            mm == machine_matrix(buttons@, rows as int),
            active@.len() == nb,
            reduction_inv(mm, joltage@, active@, remaining@, fixed),
            dominant(mm, joltage@, active@),
            removed ==> exists|r: int| 0 <= r < remaining@.len() && remaining@[r] == 0,
            if removed {
                count_active(active@, nb as int) < count_active(old(active)@, nb as int)
            } else {
                &&& active@ == old(active)@
                &&& forall|b: int, r: int|
                    0 <= b < col && active@[b] && touches(mm, r, b) ==> remaining@[r] > 0
            },
    {
        if active[col] {
            let mask = buttons[col];
            let idle = touches_idle_row(mask, remaining);
            proof {
                assert forall|q: int| 0 <= q < rows implies touches(mm, q, col as int) == mask_bit(
                    mask,
                    q,
                ) by {
                    lemma_machine_touches(buttons@, rows as int, q, col as int);
                }
            }
            if idle {
                proof {
                    let r = choose|r: int|
                        0 <= r < remaining@.len() && mask_bit(mask, r) && remaining@[r] == 0;
                    lemma_removed(mm, joltage@, active@, remaining@, fixed, r, col as int);
                    lemma_dominant_removed(
                        mm,
                        joltage@,
                        active@,
                        remaining@,
                        fixed,
                        r,
                        col as int,
                    );
                    lemma_count_active_drop(active@, col as int, nb as int);
                }
                active[col] = false;
                removed = true;
            }
        }
    }
    removed
}

/// The rows that still have demand, in increasing order.
fn live_rows(remaining: &Vec<u64>) -> (rows: Vec<usize>)
    ensures
        increasing_below(rows@, remaining@.len() as int),
        forall|r: usize|
            r < remaining@.len() ==> (#[trigger] rows@.contains(r) <==> remaining@[r as int] > 0),
        (forall|r: int| 0 <= r < remaining@.len() ==> remaining@[r] > 0) ==> rows@ == identity(
            remaining@.len(),
        ),
{
    let mut rows: Vec<usize> = Vec::new();
    for r in 0..remaining.len()
        invariant
            (forall|q: int| 0 <= q < r ==> remaining@[q] > 0) ==> rows@ =~= identity(r as nat),
            increasing_below(rows@, r as int),
            forall|q: usize| q < r ==> (#[trigger] rows@.contains(q) <==> remaining@[q as int] > 0),
    {
        if remaining[r] > 0 {
            let ghost before = rows@;
            rows.push(r);
            proof {
                assert(rows@[before.len() as int] == r);
                assert forall|q: usize| q < r + 1 implies (#[trigger] rows@.contains(q)
                    <==> remaining@[q as int] > 0) by {
                    if q < r {
                        if before.contains(q) {
                            let i = choose|i: int| 0 <= i < before.len() && before[i] == q;
                            assert(rows@[i] == q);
                        }
                    }
                }
            }
        }
    }
    rows
}

/// The active buttons that touch a row with demand, in increasing order.
fn kept_columns(buttons: &Vec<u128>, active: &Vec<bool>, remaining: &Vec<u64>) -> (cols: Vec<usize>)
    requires
        active@.len() == buttons@.len(),
    ensures
        increasing_below(cols@, buttons@.len() as int),
        forall|b: usize|
            b < buttons@.len() ==> (#[trigger] cols@.contains(b) <==> (active@[b as int] && exists|
                r: int,
            |
                0 <= r < remaining@.len() && mask_bit(buttons@[b as int], r) && remaining@[r] > 0)),
        (forall|b: usize| b < buttons@.len() ==> #[trigger] cols@.contains(b)) ==> cols@
            == identity(buttons@.len()),
{
    let mut cols: Vec<usize> = Vec::new();
    for b in 0..buttons.len()
        invariant
            (forall|c: usize| c < b ==> #[trigger] cols@.contains(c)) ==> cols@ =~= identity(
                b as nat,
            ),
            active@.len() == buttons@.len(),
            increasing_below(cols@, b as int),
            forall|c: usize|
                c < b ==> (#[trigger] cols@.contains(c) <==> (active@[c as int] && exists|r: int|
                    0 <= r < remaining@.len() && mask_bit(buttons@[c as int], r) && remaining@[r]
                        > 0)),
    {
        if active[b] && touches_live_row(buttons[b], remaining) {
            let ghost before = cols@;
            cols.push(b);
            proof {
                assert(cols@[before.len() as int] == b);
                if forall|c: usize| c < b + 1 ==> #[trigger] cols@.contains(c) {
                    assert forall|c: usize| c < b implies #[trigger] before.contains(c) by {
                        assert(cols@.contains(c));
                        let i = choose|i: int| 0 <= i < cols@.len() && cols@[i] == c;
                        assert(i < before.len());
                        assert(before[i] == c);
                    }
                    assert(cols@ =~= identity((b + 1) as nat));
                }
                assert forall|c: usize| c < b + 1 implies (#[trigger] cols@.contains(c) <==> (
                active@[c as int] && exists|r: int|
                    0 <= r < remaining@.len() && mask_bit(buttons@[c as int], r) && remaining@[r]
                        > 0)) by {
                    if c < b {
                        if before.contains(c) {
                            let i = choose|i: int| 0 <= i < before.len() && before[i] == c;
                            assert(cols@[i] == c);
                        }
                    }
                }
            }
        } else {
            proof {
                if cols@.contains(b) {
                    let i = choose|i: int| 0 <= i < cols@.len() && cols@[i] == b;
                    assert(cols@[i] < b);
                }
            }
        }
    }
    cols
}

/// The matrix of the rows and columns listed.
fn select_matrix(buttons: &Vec<u128>, rows: &Vec<usize>, cols: &Vec<usize>, Ghost(height): Ghost<
    int,
>) -> (small: Vec<Vec<u8>>)
    requires
        increasing_below(rows@, height),
        increasing_below(cols@, buttons@.len() as int),
    ensures
        is_selection(matrix_view(small@), machine_matrix(buttons@, height), rows@, cols@),
        forall|i: int, j: int|
            0 <= i < rows@.len() && 0 <= j < cols@.len() ==> #[trigger] small@[i]@[j] == (
            if mask_bit(buttons@[cols@[j] as int], rows@[i] as int) {
                1u8
            } else {
                0u8
            }),
{
    let ghost mm = machine_matrix(buttons@, height);
    let mut small: Vec<Vec<u8>> = Vec::new();
    for i in 0..rows.len()
        invariant
            mm == machine_matrix(buttons@, height),
            increasing_below(rows@, height),
            increasing_below(cols@, buttons@.len() as int),
            small@.len() == i,
            forall|p: int| 0 <= p < i ==> (#[trigger] small@[p])@.len() == cols@.len(),
            forall|p: int, j: int|
                0 <= p < i && 0 <= j < cols@.len() ==> ((#[trigger] small@[p]@[j] != 0)
                    <==> mm[rows@[p] as int][cols@[j] as int] != 0),
            forall|p: int, j: int|
                0 <= p < i && 0 <= j < cols@.len() ==> #[trigger] small@[p]@[j] == (if mask_bit(
                    buttons@[cols@[j] as int],
                    rows@[p] as int,
                ) {
                    1u8
                } else {
                    0u8
                }),
    {
        let row = rows[i];
        let mut line: Vec<u8> = Vec::new();
        for j in 0..cols.len()
            invariant
                mm == machine_matrix(buttons@, height),
                increasing_below(cols@, buttons@.len() as int),
                row < height,
                line@.len() == j,
                forall|q: int|
                    0 <= q < j ==> ((#[trigger] line@[q] != 0) <==> mm[row as int][cols@[q] as int]
                        != 0),
                forall|q: int|
                    0 <= q < j ==> #[trigger] line@[q] == (if mask_bit(
                        buttons@[cols@[q] as int],
                        row as int,
                    ) {
                        1u8
                    } else {
                        0u8
                    }),
        {
            let col = cols[j];
            proof {
                lemma_machine_touches(buttons@, height, row as int, col as int);
            }
            let entry: u8 = if has_bit(buttons[col], row) {
                1
            } else {
                0
            };
            line.push(entry);
        }
        small.push(line);
    }
    proof {
        let sv = matrix_view(small@);
        assert forall|p: int| 0 <= p < sv.len() implies (#[trigger] sv[p]).len() == cols@.len() by {
            assert(small@[p]@.len() == cols@.len());
        }
        assert forall|p: int, j: int| 0 <= p < rows@.len() && 0 <= j < cols@.len() implies ((
        #[trigger] sv[p][j] != 0) <==> mm[rows@[p] as int][cols@[j] as int] != 0) by {
            assert((small@[p]@[j] != 0) <==> mm[rows@[p] as int][cols@[j] as int] != 0);
        }
    }
    small
}

/// The demand that remains for each row listed.
fn select_targets(remaining: &Vec<u64>, rows: &Vec<usize>) -> (target: Vec<u64>)
    requires
        increasing_below(rows@, remaining@.len() as int),
    ensures
        target@.len() == rows@.len(),
        forall|i: int| 0 <= i < rows@.len() ==> #[trigger] target@[i] == remaining@[rows@[i] as int],
{
    let mut target: Vec<u64> = Vec::new();
    for i in 0..rows.len()
        invariant
            increasing_below(rows@, remaining@.len() as int),
            target@.len() == i,
            forall|p: int| 0 <= p < i ==> #[trigger] target@[p] == remaining@[rows@[p] as int],
    {
        target.push(remaining[rows[i]]);
    }
    target
}

/// A vector of zeros has total zero.
proof fn lemma_total_zeros(x: Seq<u64>, n: int)
    requires
        forall|c: int| 0 <= c < n ==> x[c] == 0,
    ensures
        crate::days::day10::linear::total_upto(x, n) == 0,
    decreases n,
{
    if n > 0 {
        lemma_total_zeros(x, n - 1);
    }
}

/// The reduction itself; [`reduce_machine`] adds what follows from its
/// result.
fn reduce_system(machine: &Machine) -> (result: Result<ReducedSystem, SolveError>)
    ensures
        match result {
            Ok(sys) => {
                &&& sys.wf()
                &&& sys.matrix@.len() <= 128
                &&& reduces_to(
                    machine_matrix(machine.buttons@, machine.joltage@.len() as int),
                    machine.joltage@,
                    machine.buttons@.len() as int,
                    sys.forced_total as int,
                    matrix_view(sys.matrix@),
                    sys.target@,
                )
                &&& is_reduction(
                    machine_matrix(machine.buttons@, machine.joltage@.len() as int),
                    machine.joltage@,
                    sys.forced_total as int,
                    matrix_view(sys.matrix@),
                    sys.target@,
                )
            },
            Err(SolveError::Unsatisfiable) => is_unsatisfiable(
                machine_matrix(machine.buttons@, machine.joltage@.len() as int),
                machine.joltage@,
                machine.buttons@.len() as int,
            ),
            Err(SolveError::Overflow) => false,
        },
        has_uncovered_row(
            machine_matrix(machine.buttons@, machine.joltage@.len() as int),
            machine.joltage@,
        ) ==> result is Err && result->Err_0 == SolveError::Unsatisfiable,
        is_reduced(
            machine_matrix(machine.buttons@, machine.joltage@.len() as int),
            machine.joltage@,
            machine.buttons@.len() as int,
        ) ==> {
            &&& result is Ok
            &&& result->Ok_0.forced_total == 0
            &&& matrix_view(result->Ok_0.matrix@) == machine_matrix(
                machine.buttons@,
                machine.joltage@.len() as int,
            )
            &&& result->Ok_0.target@ == machine.joltage@
        },
{
    let buttons = &machine.buttons;
    let joltage = &machine.joltage;
    let rows = joltage.len();
    let nb = buttons.len();
    let ghost mm = machine_matrix(buttons@, rows as int);
    let mut active = initial_active(buttons, joltage);
    let mut remaining: Vec<u64> = Vec::new();
    for r in 0..rows
        invariant
            rows == joltage@.len(),
            remaining@.len() == r,
            forall|q: int| 0 <= q < r ==> remaining@[q] == joltage@[q],
    {
        remaining.push(joltage[r]);
    }
    let ghost mut fixed: Seq<u64> = Seq::new(nb as nat, |b: int| 0u64);
    let mut forced: u128 = 0;
    let ghost settled = is_reduced(mm, joltage@, nb as int);
    let ghost zeros = fixed;
    proof {
        assert(remaining@ =~= joltage@);
        assert forall|r: int| 0 <= r < mm.len() implies (#[trigger] mm[r]).len() == nb by {}
        lemma_reduction_start(mm, joltage@, active@, fixed);
        lemma_dominant_start(mm, joltage@, active@);
        lemma_total_zeros(fixed, nb as int);
        if settled {
            assert forall|b: int| 0 <= b < nb implies #[trigger] active@[b] by {
                assert(is_touched(mm, b));
                if !active@[b] {
                    let r = choose|r: int| 0 <= r < joltage@.len() && joltage@[r] == 0;
                    assert(joltage@[r] > 0);
                }
            }
        }
    }
    loop
        invariant
            settled == is_reduced(mm, joltage@, nb as int),
            settled ==> (forall|b: int| 0 <= b < nb ==> #[trigger] active@[b]) && remaining@
                == joltage@ && fixed == zeros && forced == 0,
            buttons@ == machine.buttons@,
            joltage@ == machine.joltage@,
            rows == joltage@.len(),
            nb == buttons@.len(),
            mm == machine_matrix(buttons@, rows as int),
            active@.len() == nb,
            reduction_inv(mm, joltage@, active@, remaining@, fixed),
            dominant(mm, joltage@, active@),
            forced == total(fixed),
        ensures
            at_fixpoint(mm, active@, remaining@),
        decreases count_active(active@, nb as int),
    {
        let ghost at_start = count_active(active@, nb as int);
        loop
            invariant
                settled == is_reduced(mm, joltage@, nb as int),
                settled ==> (forall|b: int| 0 <= b < nb ==> #[trigger] active@[b]) && remaining@
                    == joltage@ && fixed == zeros && forced == 0,
                buttons@ == machine.buttons@,
                joltage@ == machine.joltage@,
                rows == joltage@.len(),
                nb == buttons@.len(),
                mm == machine_matrix(buttons@, rows as int),
                active@.len() == nb,
                reduction_inv(mm, joltage@, active@, remaining@, fixed),
                dominant(mm, joltage@, active@),
                forced == total(fixed),
                count_active(active@, nb as int) <= at_start,
            ensures
                forall|r: int| 0 <= r < rows && remaining@[r] > 0 ==> two_covers(mm, active@, r),
            decreases count_active(active@, nb as int),
        {
            proof {
                lemma_count_active_nonneg(active@, nb as int);
                if settled {
                    assert forall|r: int|
                        0 <= r < joltage@.len() && remaining@[r] > 0 implies two_covers(
                        mm,
                        active@,
                        r,
                    ) by {
                        assert(row_has_two(mm, r));
                        let (j, k) = choose|j: int, k: int|
                            j < k && touches(mm, r, j) && touches(mm, r, k);
                        assert(0 <= j < k < active@.len() && active@[j] && active@[k] && touches(
                            mm,
                            r,
                            j,
                        ) && touches(mm, r, k));
                    }
                }
            }
            let outcome = force_round(
                buttons,
                joltage,
                &mut active,
                &mut remaining,
                &mut forced,
                Ghost(fixed),
            );
            proof {
                fixed = outcome.1@;
                lemma_count_active_nonneg(active@, nb as int);
            }
            match outcome.0 {
                None => {
                    return Err(SolveError::Unsatisfiable);
                },
                Some(progress) => {
                    if !progress {
                        break;
                    }
                },
            }
        }
        proof {
            lemma_count_active_nonneg(active@, nb as int);
        }
        let removed = removal_pass(buttons, joltage, &mut active, &remaining, Ghost(fixed));
        proof {
            lemma_count_active_nonneg(active@, nb as int);
            if settled && removed {
                let r = choose|r: int| 0 <= r < remaining@.len() && remaining@[r] == 0;
                assert(joltage@[r] > 0);
            }
        }
        if !removed {
            break;
        }
    }
    for row in 0..rows
        invariant
            buttons@ == machine.buttons@,
            joltage@ == machine.joltage@,
            rows == joltage@.len(),
            nb == buttons@.len(),
            mm == machine_matrix(buttons@, rows as int),
            active@.len() == nb,
            reduction_inv(mm, joltage@, active@, remaining@, fixed),
            dominant(mm, joltage@, active@),
            at_fixpoint(mm, active@, remaining@),
    {
        if remaining[row] != 0 {
            let found = covering(buttons, &active, row, Ghost(rows as int));
            proof {
                assert(two_covers(mm, active@, row as int));
                let (b, c) = choose|b: int, c: int|
                    0 <= b < c < active@.len() && active@[b] && active@[c] && touches(
                        mm,
                        row as int,
                        b,
                    ) && touches(mm, row as int, c);
                assert(found.0 is Some);
            }
            if found.0.is_none() {
                proof {
                    lemma_uncovered(mm, joltage@, active@, remaining@, fixed, row as int);
                }
                return Err(SolveError::Unsatisfiable);
            }
        }
    }
    let live = live_rows(&remaining);
    let kept = kept_columns(buttons, &active, &remaining);
    proof {
        assert forall|b: usize| b < active@.len() implies (#[trigger] kept@.contains(b)
            <==> active@[b as int]) by {
            if active@[b as int] {
                assert(is_touched(mm, b as int));
                let r = choose|r: int| 0 <= r < mm.len() && touches(mm, r, b as int);
                lemma_machine_touches(buttons@, rows as int, r, b as int);
                assert(remaining@[r] > 0);
            }
        }
    }
    proof {
        if settled {
            assert forall|b: usize| b < buttons@.len() implies #[trigger] kept@.contains(b) by {
                assert(active@[b as int]);
            }
            assert(live@ == identity(rows as nat));
            assert(kept@ == identity(nb as nat));
            if rows == 0 {
                if nb > 0 {
                    assert(is_touched(mm, 0));
                }
                assert(matrix_view(Seq::<Vec<u8>>::empty()) =~= mm);
                assert(Seq::<u64>::empty() =~= joltage@);
            } else {
                assert(row_has_two(mm, 0));
            }
        }
    }
    if live.len() == 0 {
        proof {
            if kept@.len() > 0 {
                let b = kept@[0];
                assert(kept@.contains(b));
                assert(active@[b as int]);
                assert(is_touched(mm, b as int));
                let r = choose|r: int| 0 <= r < mm.len() && touches(mm, r, b as int);
                assert(remaining@[r] > 0);
                assert(live@.contains(r as usize));
            }
            let small = Seq::<Seq<u8>>::empty();
            assert(matrix_view(Seq::<Vec<u8>>::empty()) =~= small);
            lemma_reduces_to(
                mm,
                joltage@,
                active@,
                remaining@,
                fixed,
                live@,
                kept@,
                small,
                Seq::<u64>::empty(),
            );
        }
        proof {
            lemma_all_rows_covered(mm, joltage@, active@, remaining@, fixed);
        }
        proof {
            lemma_is_reduction(
                mm,
                joltage@,
                active@,
                remaining@,
                fixed,
                live@,
                kept@,
                Seq::<Seq<u8>>::empty(),
                Seq::<u64>::empty(),
            );
            assert(matrix_view(Seq::<Vec<u8>>::empty()) =~= Seq::<Seq<u8>>::empty());
        }
        return Ok(ReducedSystem { forced_total: forced, matrix: Vec::new(), target: Vec::new() });
    }
    if kept.len() == 0 {
        proof {
            let r = live@[0];
            assert(live@.contains(r));
            assert(uncovered(mm, active@, r as int)) by {
                assert forall|c: int| 0 <= c < active@.len() && active@[c] implies !touches(
                    mm,
                    r as int,
                    c,
                ) by {
                    assert(kept@.contains(c as usize));
                }
            }
            lemma_uncovered(mm, joltage@, active@, remaining@, fixed, r as int);
        }
        return Err(SolveError::Unsatisfiable);
    }
    proof {
        assert forall|i: int| 0 <= i < live@.len() implies #[trigger] live@[i] < 128 by {
            let r = live@[i];
            assert(live@.contains(r));
            assert(two_covers(mm, active@, r as int));
            let (b, c) = choose|b: int, c: int|
                0 <= b < c < active@.len() && active@[b] && active@[c] && touches(mm, r as int, b)
                    && touches(mm, r as int, c);
            lemma_machine_touches(buttons@, rows as int, r as int, b);
        }
        lemma_increasing_len(live@, 128);
    }
    let matrix = select_matrix(buttons, &live, &kept, Ghost(rows as int));
    let target = select_targets(&remaining, &live);
    proof {
        let small = matrix_view(matrix@);
        assert(small[0].len() == kept@.len());
        if settled {
            assert forall|i: int| 0 <= i < rows implies #[trigger] small[i] =~= mm[i] by {
                assert forall|j: int| 0 <= j < nb implies small[i][j] == mm[i][j] by {
                    assert(matrix@[i]@[j] == (if mask_bit(
                        buttons@[kept@[j] as int],
                        live@[i] as int,
                    ) {
                        1u8
                    } else {
                        0u8
                    }));
                }
            }
            assert(small =~= mm);
            assert(target@ =~= joltage@);
        }
        lemma_reduces_to(mm, joltage@, active@, remaining@, fixed, live@, kept@, small, target@);
        lemma_selection_shape(mm, joltage@, active@, remaining@, fixed, live@, kept@, small);
        assert forall|i: int| 0 <= i < target@.len() implies #[trigger] target@[i] > 0 by {
            assert(live@.contains(live@[i]));
        }
    }
    proof {
        lemma_all_rows_covered(mm, joltage@, active@, remaining@, fixed);
    }
    proof {
        lemma_is_reduction(
            mm,
            joltage@,
            active@,
            remaining@,
            fixed,
            live@,
            kept@,
            matrix_view(matrix@),
            target@,
        );
    }
    Ok(ReducedSystem { forced_total: forced, matrix, target })
}

/// Applies the cheap deductions to a machine's increment system.
///
/// Buttons that touch a counter whose target is zero are set aside. Then,
/// until nothing changes: a counter with demand and no active button makes
/// the machine unsatisfiable; a counter with exactly one active button fixes
/// that button at the counter's remaining demand, which is taken off every
/// counter the button touches; and a button that touches a counter whose
/// demand has dropped to zero is set aside. The counters with demand left
/// and the buttons still active form the reduced system.
///
/// The reduced system stands for the machine's system: the least total of
/// the machine is the forced total plus the least total of the reduced
/// system. The forced total is kept in 128 bits, so the reducer itself never
/// reports `Overflow`.
pub fn reduce_machine(machine: &Machine) -> (result: Result<ReducedSystem, SolveError>)
    ensures
        match result {
            Ok(sys) => {
                &&& sys.wf()
                &&& sys.matrix@.len() <= 128
                &&& reduces_to(
                    machine_matrix(machine.buttons@, machine.joltage@.len() as int),
                    machine.joltage@,
                    machine.buttons@.len() as int,
                    sys.forced_total as int,
                    matrix_view(sys.matrix@),
                    sys.target@,
                )
                &&& is_reduction(
                    machine_matrix(machine.buttons@, machine.joltage@.len() as int),
                    machine.joltage@,
                    sys.forced_total as int,
                    matrix_view(sys.matrix@),
                    sys.target@,
                )
            },
            Err(SolveError::Unsatisfiable) => is_unsatisfiable(
                machine_matrix(machine.buttons@, machine.joltage@.len() as int),
                machine.joltage@,
                machine.buttons@.len() as int,
            ),
            Err(SolveError::Overflow) => false,
        },
        has_uncovered_row(
            machine_matrix(machine.buttons@, machine.joltage@.len() as int),
            machine.joltage@,
        ) ==> result is Err && result->Err_0 == SolveError::Unsatisfiable,
        is_reduced(
            machine_matrix(machine.buttons@, machine.joltage@.len() as int),
            machine.joltage@,
            machine.buttons@.len() as int,
        ) ==> {
            &&& result is Ok
            &&& result->Ok_0.forced_total == 0
            &&& matrix_view(result->Ok_0.matrix@) == machine_matrix(
                machine.buttons@,
                machine.joltage@.len() as int,
            )
            &&& result->Ok_0.target@ == machine.joltage@
        },
        result is Ok && result->Ok_0.matrix@.len() == 0 ==> is_least_total(
            machine_matrix(machine.buttons@, machine.joltage@.len() as int),
            machine.joltage@,
            machine.buttons@.len() as int,
            result->Ok_0.forced_total as int,
        ),
        result is Ok && (forall|r: int|
            0 <= r < machine.joltage@.len() ==> !#[trigger] row_has_two(
                machine_matrix(machine.buttons@, machine.joltage@.len() as int),
                r,
            )) ==> result->Ok_0.matrix@.len() == 0 && result->Ok_0.target@.len() == 0,
{
    let result = reduce_system(machine);
    proof {
        let mm = machine_matrix(machine.buttons@, machine.joltage@.len() as int);
        if result is Ok {
            let sys = result->Ok_0;
            let small = matrix_view(sys.matrix@);
            if forall|r: int| 0 <= r < machine.joltage@.len() ==> !#[trigger] row_has_two(mm, r) {
                lemma_single_covers_leave_nothing(
                    mm,
                    machine.joltage@,
                    sys.forced_total as int,
                    small,
                    sys.target@,
                );
            }
            if sys.matrix@.len() == 0 {
                assert(sys.target@.len() == 0);
                lemma_empty_residue_least(
                    mm,
                    machine.joltage@,
                    machine.buttons@.len() as int,
                    sys.forced_total as int,
                    small,
                    sys.target@,
                );
            }
        }
    }
    result
}

/// An increasing list of numbers below `n` has at most `n` entries.
proof fn lemma_increasing_len(list: Seq<usize>, n: int)
    requires
        0 <= n,
        forall|i: int, j: int| 0 <= i < j < list.len() ==> list[i] < list[j],
        forall|i: int| 0 <= i < list.len() ==> list[i] < n,
    ensures
        list.len() <= n,
    decreases list.len(),
{
    if list.len() > 0 {
        let shorter = list.drop_last();
        let top = list.last();
        assert forall|i: int| 0 <= i < shorter.len() implies shorter[i] < top by {
            assert(list[i] < list[list.len() - 1]);
        }
        lemma_increasing_len(shorter, top as int);
    }
}

/// At the fixpoint every row with a target above zero has a button.
proof fn lemma_all_rows_covered(
    matrix: Seq<Seq<u8>>,
    target: Seq<u64>,
    active: Seq<bool>,
    remaining: Seq<u64>,
    fixed: Seq<u64>,
)
    requires
        reduction_inv(matrix, target, active, remaining, fixed),
        at_fixpoint(matrix, active, remaining),
    ensures
        !has_uncovered_row(matrix, target),
{
    if has_uncovered_row(matrix, target) {
        let r = choose|r: int|
            0 <= r < matrix.len() && target[r] > 0 && #[trigger] row_untouched(matrix, r);
        lemma_row_sum_untouched(matrix[r], fixed, matrix[r].len() as int);
        assert(remaining[r] + row_sum(matrix[r], fixed) == target[r]);
        assert(two_covers(matrix, active, r));
    }
}

/// The number of active buttons is not negative.
proof fn lemma_count_active_nonneg(active: Seq<bool>, n: int)
    ensures
        0 <= count_active(active, n),
    decreases n,
{
    if n > 0 {
        lemma_count_active_nonneg(active, n - 1);
    }
}


} // verus!
