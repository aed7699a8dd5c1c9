//! The increment puzzle: the fewest presses that bring every counter of a
//! machine exactly to its target.

use vstd::prelude::*;
use crate::days::day10::assignment::lemma_total_nonneg;
use crate::days::day10::linear::{matrix_view, satisfies, total};
use crate::days::day10::machine::{machine_matrix, Machine};
use crate::days::day10::reducer::reduce_machine;
use crate::days::day10::reduction::{lemma_reduction_least, lemma_reduction_unsatisfiable};
use crate::days::day10::solver::{
    column_count, has_uncovered_row, is_least_total, is_unsatisfiable,
    lemma_uncovered_row_unsatisfiable, solve_linear_system, SolveError,
};

verus! {

/// The fewest button presses that bring every counter of the machine exactly
/// to its joltage target.
///
/// The machine's system is reduced first; what is left is solved exactly,
/// and the answer is the forced total plus the least total of the rest.
/// `Unsatisfiable` says that no press vector reaches the targets, `Overflow`
/// that some do and that the least of their totals is beyond `u64`.
pub fn min_joltage_button_presses(machine: &Machine) -> (result: Result<u64, SolveError>)
    ensures
        match result {
            Ok(t) => is_least_total(
                machine_matrix(machine.buttons@, machine.joltage@.len() as int),
                machine.joltage@,
                machine.buttons@.len() as int,
                t as int,
            ),
            Err(SolveError::Unsatisfiable) => is_unsatisfiable(
                machine_matrix(machine.buttons@, machine.joltage@.len() as int),
                machine.joltage@,
                machine.buttons@.len() as int,
            ),
            Err(SolveError::Overflow) => exists|t: int|
                t > u64::MAX && #[trigger] is_least_total(
                    machine_matrix(machine.buttons@, machine.joltage@.len() as int),
                    machine.joltage@,
                    machine.buttons@.len() as int,
                    t,
                ),
        },
        has_uncovered_row(
            machine_matrix(machine.buttons@, machine.joltage@.len() as int),
            machine.joltage@,
        ) ==> result == Err::<u64, SolveError>(SolveError::Unsatisfiable),
{
    let ghost mm = machine_matrix(machine.buttons@, machine.joltage@.len() as int);
    let ghost nb = machine.buttons@.len() as int;
    proof {
        if has_uncovered_row(mm, machine.joltage@) {
            lemma_uncovered_row_unsatisfiable(mm, machine.joltage@, nb);
        }
    }
    let sys = match reduce_machine(machine) {
        Ok(sys) => sys,
        Err(e) => {
            return Err(e);
        },
    };
    let ghost small = matrix_view(sys.matrix@);
    if sys.matrix.len() == 0 {
        proof {
            let y = Seq::<u64>::empty();
            assert(y.len() == column_count(small) && satisfies(small, sys.target@, y) && total(y)
                == 0);
            assert forall|y: Seq<u64>|
                y.len() == column_count(small) && #[trigger] satisfies(
                    small,
                    sys.target@,
                    y,
                ) implies 0 <= total(y) by {
                lemma_total_nonneg(y, y.len() as int);
            }
            lemma_reduction_least(
                mm,
                machine.joltage@,
                nb,
                sys.forced_total as int,
                small,
                sys.target@,
                0,
            );
        }
        if sys.forced_total > u64::MAX as u128 {
            assert(is_least_total(mm, machine.joltage@, nb, sys.forced_total as int));
            return Err(SolveError::Overflow);
        }
        return Ok(sys.forced_total as u64);
    }
    match solve_linear_system(sys.matrix.as_slice(), sys.target.as_slice()) {
        Ok(extra) => {
            proof {
                lemma_reduction_least(
                    mm,
                    machine.joltage@,
                    nb,
                    sys.forced_total as int,
                    small,
                    sys.target@,
                    extra as int,
                );
            }
            assert(is_least_total(mm, machine.joltage@, nb, sys.forced_total + extra));
            match sys.forced_total.checked_add(extra as u128) {
                Some(sum) => if sum > u64::MAX as u128 {
                    Err(SolveError::Overflow)
                } else {
                    Ok(sum as u64)
                },
                None => Err(SolveError::Overflow),
            }
        },
        Err(SolveError::Unsatisfiable) => {
            proof {
                lemma_reduction_unsatisfiable(
                    mm,
                    machine.joltage@,
                    nb,
                    sys.forced_total as int,
                    small,
                    sys.target@,
                );
            }
            Err(SolveError::Unsatisfiable)
        },
        Err(SolveError::Overflow) => {
            proof {
                let t = choose|t: int|
                    t > u64::MAX && #[trigger] is_least_total(
                        small,
                        sys.target@,
                        column_count(small),
                        t,
                    );
                lemma_reduction_least(
                    mm,
                    machine.joltage@,
                    nb,
                    sys.forced_total as int,
                    small,
                    sys.target@,
                    t,
                );
            }
            Err(SolveError::Overflow)
        },
    }
}

} // verus!
