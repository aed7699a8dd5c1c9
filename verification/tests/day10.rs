use aoc25::days::day10::answers::{decimal_string, part1, part2, Day10Error};
use aoc25::days::day10::echelon::compute_rref;
use aoc25::days::day10::grammar::ParseError;
use aoc25::days::day10::joltage::min_joltage_button_presses;
use aoc25::days::day10::linear::{build_button_rows, max_press_counts, verify_press_counts};
use aoc25::days::day10::machine::{has_bit, Machine};
use aoc25::days::day10::parse::{parse_machine, parse_machines, LineError};
use aoc25::days::day10::rational::rational_from_u64;
use aoc25::days::day10::reducer::reduce_machine;
use aoc25::days::day10::search::evaluate_solution;
use aoc25::days::day10::solver::{solve_linear_system, SolveError};
use aoc25::days::day10::toggle::min_button_presses;

const EXAMPLE: &str = "[.##.] (3) (1,3) (2) (2,3) (0,2) (0,1) {3,5,4,7}\n[...#.] (0,2,3,4) (2,3) (0,4) (0,1,2) (1,2,3,4) {7,5,12,7,2}\n[.###.#] (0,1,2,3,4) (0,3,4) (0,1,2,4,5) (1,2) {10,11,11,5,10,5}\n";

fn machine(target: u128, buttons: &[u128], joltage: &[u64]) -> Machine {
    Machine { target, buttons: buttons.to_vec(), joltage: joltage.to_vec() }
}

/// The least total over every press vector within `bound` per button.
fn enumerate_all(matrix: &[Vec<u8>], target: &[u64], bound: u64) -> Option<u64> {
    let cols = if matrix.is_empty() { 0 } else { matrix[0].len() };
    let mut presses = vec![0u64; cols];
    let mut best: Option<u64> = None;
    loop {
        if verify_press_counts(matrix, target, &presses) {
            let sum: u64 = presses.iter().sum();
            if best.map_or(true, |b| sum < b) {
                best = Some(sum);
            }
        }
        let mut c = 0;
        while c < cols {
            if presses[c] < bound {
                presses[c] += 1;
                break;
            }
            presses[c] = 0;
            c += 1;
        }
        if c == cols {
            return best;
        }
    }
}

#[test]
fn mod_example_part1() {
    let got = part1(EXAMPLE);
    assert_eq!(got, Ok("7".to_string()));
}

#[test]
fn mod_example_part2() {
    let got = part2(EXAMPLE);
    assert_eq!(got, Ok("33".to_string()));
}

#[test]
fn example_machines_one_by_one() {
    let machines = parse_machines(EXAMPLE).unwrap();
    assert_eq!(machines.len(), 3);
    let toggles: Vec<_> = machines.iter().map(min_button_presses).collect();
    assert_eq!(toggles, vec![Some(2), Some(3), Some(2)]);
    let joltages: Vec<_> = machines.iter().map(min_joltage_button_presses).collect();
    assert_eq!(joltages, vec![Ok(10), Ok(12), Ok(11)]);
}

#[test]
fn toggle_three_buttons_two_presses() {
    let m = machine(0b101, &[0b011, 0b110, 0b001], &[]);
    assert_eq!(min_button_presses(&m), Some(2));
}

#[test]
fn toggle_target_all_off_needs_no_press() {
    let m = machine(0, &[0b1], &[]);
    assert_eq!(min_button_presses(&m), Some(0));
    let none = machine(0, &[], &[]);
    assert_eq!(min_button_presses(&none), Some(0));
}

#[test]
fn toggle_without_buttons_is_unreachable() {
    let m = machine(0b1, &[], &[]);
    assert_eq!(min_button_presses(&m), None);
}

#[test]
fn toggle_unreachable_pattern() {
    let m = machine(0b10, &[0b01, 0b100], &[]);
    assert_eq!(min_button_presses(&m), None);
}

#[test]
fn shared_button_is_pressed_most() {
    let matrix = vec![vec![1u8, 1, 0], vec![0u8, 1, 1]];
    let target = vec![5u64, 3];
    assert_eq!(solve_linear_system(&matrix, &target), Ok(5));
    assert!(verify_press_counts(&matrix, &target, &[2, 3, 0]));
    let m = machine(0, &[0b01, 0b11, 0b10], &[5, 3]);
    assert_eq!(min_joltage_button_presses(&m), Ok(5));
}

#[test]
fn row_without_button_is_unsatisfiable() {
    let matrix: Vec<Vec<u8>> = vec![vec![]];
    assert_eq!(solve_linear_system(&matrix, &[1]), Err(SolveError::Unsatisfiable));
    let m = machine(0, &[], &[1]);
    assert!(matches!(reduce_machine(&m), Err(SolveError::Unsatisfiable)));
    assert_eq!(min_joltage_button_presses(&m), Err(SolveError::Unsatisfiable));
}

#[test]
fn uncovered_row_with_other_rows_covered() {
    let m = machine(0, &[0b001, 0b100], &[2, 1, 3]);
    assert_eq!(min_joltage_button_presses(&m), Err(SolveError::Unsatisfiable));
    let matrix = vec![vec![1u8, 0], vec![0u8, 0], vec![0u8, 1]];
    assert_eq!(solve_linear_system(&matrix, &[2, 1, 3]), Err(SolveError::Unsatisfiable));
}

#[test]
fn solved_by_reduction_alone() {
    let m = machine(0, &[0b001, 0b010, 0b100], &[4, 0, 6]);
    let sys = reduce_machine(&m).unwrap();
    assert_eq!(sys.forced_total, 10);
    assert!(sys.matrix.is_empty());
    assert!(sys.target.is_empty());
    assert_eq!(min_joltage_button_presses(&m), Ok(10));
}

#[test]
fn reduction_forces_then_leaves_a_residue() {
    // counter 0: only button 0; counters 1 and 2: buttons 1 and 2 both.
    let m = machine(0, &[0b001, 0b110, 0b110], &[3, 4, 4]);
    let sys = reduce_machine(&m).unwrap();
    assert_eq!(sys.forced_total, 3);
    assert_eq!(sys.matrix, vec![vec![1u8, 1], vec![1u8, 1]]);
    assert_eq!(sys.target, vec![4u64, 4]);
    assert_eq!(min_joltage_button_presses(&m), Ok(7));
}

#[test]
fn reduction_detects_overshoot() {
    // button 0 is the only cover of counter 0 and must be pressed 5 times,
    // but it also touches counter 1, which needs only 2.
    let m = machine(0, &[0b11], &[5, 2]);
    assert!(matches!(reduce_machine(&m), Err(SolveError::Unsatisfiable)));
}

#[test]
fn reduction_of_reduced_system_changes_nothing() {
    let m = machine(0, &[0b0001, 0b0110, 0b0100, 0b1000, 0b0010], &[3, 4, 5, 2]);
    let first = reduce_machine(&m).unwrap();
    assert_eq!(first.forced_total, 5);
    assert_eq!(first.matrix, vec![vec![1u8, 0, 1], vec![1u8, 1, 0]]);
    assert_eq!(first.target, vec![4u64, 5]);
    let encoded = first.to_machine();
    assert_eq!(encoded.buttons, vec![0b11u128, 0b10, 0b01]);
    assert_eq!(encoded.joltage, vec![4u64, 5]);
    let again = reduce_machine(&encoded).unwrap();
    assert_eq!(again.forced_total, 0);
    assert_eq!(again.matrix, first.matrix);
    assert_eq!(again.target, first.target);
}

#[test]
fn forced_total_overflow_is_reported() {
    let m = machine(0, &[0b01, 0b10], &[u64::MAX, u64::MAX]);
    let sys = reduce_machine(&m).unwrap();
    assert_eq!(sys.forced_total, 2 * (u64::MAX as u128));
    assert!(sys.matrix.is_empty());
    assert_eq!(min_joltage_button_presses(&m), Err(SolveError::Overflow));
    let unsat = machine(0, &[0b001, 0b010, 0b100, 0b100], &[u64::MAX, u64::MAX, 0]);
    assert!(reduce_machine(&unsat).is_ok());
    let stuck = machine(0, &[0b0001, 0b0010, 0b1100, 0b1100], &[u64::MAX, u64::MAX, 1, 2]);
    assert_eq!(min_joltage_button_presses(&stuck), Err(SolveError::Unsatisfiable));
}

#[test]
fn least_total_overflow_is_reported() {
    let matrix = vec![vec![1u8, 0], vec![0u8, 1]];
    let target = vec![u64::MAX, u64::MAX];
    assert_eq!(solve_linear_system(&matrix, &target), Err(SolveError::Overflow));
    let fits = vec![u64::MAX - 1, 1];
    assert_eq!(solve_linear_system(&matrix, &fits), Ok(u64::MAX));
}

#[test]
fn search_agrees_with_enumeration_on_small_systems() {
    let systems: Vec<(Vec<Vec<u8>>, Vec<u64>)> = vec![
        (vec![vec![1, 1, 0], vec![0, 1, 1]], vec![5, 3]),
        (vec![vec![1, 1, 0, 0], vec![0, 1, 1, 0], vec![0, 0, 1, 1]], vec![2, 3, 2]),
        (vec![vec![1, 1, 1, 1], vec![1, 0, 1, 0], vec![0, 1, 0, 1]], vec![4, 1, 3]),
        (vec![vec![1, 1, 0], vec![1, 0, 1], vec![0, 1, 1]], vec![1, 1, 1]),
        (vec![vec![1, 1, 0], vec![1, 0, 1], vec![0, 1, 1]], vec![2, 2, 2]),
        (vec![vec![1, 0], vec![1, 0]], vec![1, 2]),
        (vec![vec![1, 1, 1, 0], vec![1, 1, 0, 1]], vec![3, 2]),
        (vec![vec![0, 1], vec![1, 1]], vec![0, 4]),
    ];
    for (matrix, target) in systems {
        let expected = enumerate_all(&matrix, &target, 5);
        let got = solve_linear_system(&matrix, &target);
        match expected {
            Some(t) => assert_eq!(got, Ok(t), "{:?} {:?}", matrix, target),
            None => assert_eq!(got, Err(SolveError::Unsatisfiable), "{:?} {:?}", matrix, target),
        }
    }
}

#[test]
fn fractional_solution_is_no_solution() {
    let matrix = vec![vec![1u8, 1, 0], vec![1u8, 0, 1], vec![0u8, 1, 1]];
    assert_eq!(solve_linear_system(&matrix, &[1, 1, 1]), Err(SolveError::Unsatisfiable));
}

#[test]
fn empty_system_needs_no_press() {
    let matrix: Vec<Vec<u8>> = vec![];
    assert_eq!(solve_linear_system(&matrix, &[]), Ok(0));
    let m = machine(0, &[0b1], &[]);
    assert_eq!(min_joltage_button_presses(&m), Ok(0));
}

#[test]
fn replay_checks_every_row() {
    let matrix = vec![vec![1u8, 1, 0], vec![0u8, 1, 1]];
    assert!(verify_press_counts(&matrix, &[5, 3], &[2, 3, 0]));
    assert!(verify_press_counts(&matrix, &[5, 3], &[5, 0, 3]));
    assert!(!verify_press_counts(&matrix, &[5, 3], &[2, 3, 1]));
    assert!(!verify_press_counts(&matrix, &[5, 3], &[u64::MAX, u64::MAX, 0]));
}

#[test]
fn press_bounds_and_button_rows() {
    let matrix = vec![vec![1u8, 1, 0, 0], vec![0u8, 1, 1, 0]];
    assert_eq!(max_press_counts(&matrix, &[5, 3]), vec![5, 3, 3, 0]);
    assert_eq!(
        build_button_rows(&matrix),
        vec![vec![0usize], vec![0, 1], vec![1], vec![]]
    );
    let none: Vec<Vec<u8>> = vec![];
    assert!(max_press_counts(&none, &[]).is_empty());
    assert!(build_button_rows(&none).is_empty());
    let top = vec![vec![1u8]];
    assert_eq!(max_press_counts(&top, &[u64::MAX]), vec![u64::MAX]);
}

#[test]
fn echelon_form_of_a_small_system() {
    let matrix = vec![vec![1u8, 1], vec![1u8, 0]];
    let form = compute_rref(&matrix, &[3, 1]).unwrap();
    assert_eq!(form.pivot_cols, vec![0usize, 1]);
    assert!(form.free_cols.is_empty());
    assert_eq!(form.rhs[0].to_u64(), Some(1));
    assert_eq!(form.rhs[1].to_u64(), Some(2));
    assert_eq!(form.matrix[0][0].to_u64(), Some(1));
    assert_eq!(form.matrix[0][1].to_u64(), Some(0));
    assert_eq!(form.matrix[1][0].to_u64(), Some(0));
    assert_eq!(form.matrix[1][1].to_u64(), Some(1));
    let bounds = max_press_counts(&matrix, &[3, 1]);
    assert_eq!(evaluate_solution(&form, &[], &matrix, &[3, 1], &bounds), Some(3));
}

#[test]
fn echelon_form_with_free_columns() {
    let matrix = vec![vec![1u8, 1, 0], vec![0u8, 1, 1]];
    let form = compute_rref(&matrix, &[5, 3]).unwrap();
    assert_eq!(form.pivot_cols, vec![0usize, 1]);
    assert_eq!(form.free_cols, vec![2usize]);
    let bounds = max_press_counts(&matrix, &[5, 3]);
    assert_eq!(evaluate_solution(&form, &[0], &matrix, &[5, 3], &bounds), Some(5));
    assert_eq!(evaluate_solution(&form, &[3], &matrix, &[5, 3], &bounds), Some(8));
    assert_eq!(evaluate_solution(&form, &[4], &matrix, &[5, 3], &bounds), None);
}

#[test]
fn echelon_finds_inconsistent_rows() {
    let matrix = vec![vec![1u8, 0], vec![1u8, 0]];
    assert!(compute_rref(&matrix, &[1, 2]).is_none());
    assert!(compute_rref(&matrix, &[2, 2]).is_some());
}

#[test]
fn rational_arithmetic() {
    let seven = rational_from_u64(7);
    let three = rational_from_u64(3);
    assert_eq!(seven.sub(&three).to_u64(), Some(4));
    assert_eq!(three.sub(&seven).to_u64(), None);
    assert_eq!(seven.mul(&three).to_u64(), Some(21));
    assert_eq!(seven.div(&three).to_u64(), None);
    assert!(!seven.div(&three).is_integer());
    assert_eq!(seven.div(&three).mul(&three).to_u64(), Some(7));
    assert_eq!(rational_from_u64(6).div(&three).to_u64(), Some(2));
    assert!(rational_from_u64(0).is_zero());
    assert!(!three.is_zero());
    assert!(seven.sub(&seven).is_zero());
    assert_eq!(seven.clone().to_u64(), Some(7));
    let big = rational_from_u64(u64::MAX);
    assert_eq!(big.to_u64(), Some(u64::MAX));
    assert_eq!(big.mul(&rational_from_u64(2)).to_u64(), None);
    assert_eq!(big.mul(&rational_from_u64(2)).div(&rational_from_u64(2)).to_u64(), Some(u64::MAX));
}

#[test]
fn has_bit_reads_the_mask() {
    assert!(has_bit(0b101, 0));
    assert!(!has_bit(0b101, 1));
    assert!(has_bit(0b101, 2));
    assert!(has_bit(1u128 << 127, 127));
    assert!(!has_bit(u128::MAX, 128));
}

#[test]
fn decimal_strings() {
    assert_eq!(decimal_string(0), "0");
    assert_eq!(decimal_string(7), "7");
    assert_eq!(decimal_string(10), "10");
    assert_eq!(decimal_string(17576), "17576");
    assert_eq!(decimal_string(u64::MAX), "18446744073709551615");
}

#[test]
fn parse_one_machine() {
    let m = parse_machine("  [.##.] (3) (1,3) (2) (2,3) (0,2) (0,1) {3,5,4,7}  ").unwrap().unwrap();
    assert_eq!(m.target, 0b0110);
    assert_eq!(m.buttons, vec![0b0011u128, 0b0100, 0b0101, 0b1000, 0b1010, 0b1100]);
    assert_eq!(m.joltage, vec![3u64, 5, 4, 7]);
}

#[test]
fn parse_skips_blank_and_comment_lines() {
    assert!(matches!(parse_machine(""), Ok(None)));
    assert!(matches!(parse_machine("   \t "), Ok(None)));
    assert!(matches!(parse_machine("# [.#] (0)"), Ok(None)));
    let machines = parse_machines("\n# note\n[#.] (0) (1)\n\n[.#] (1)").unwrap();
    assert_eq!(machines.len(), 2);
    assert_eq!(machines[0].target, 0b01);
    assert_eq!(machines[1].target, 0b10);
    assert!(machines[0].joltage.is_empty());
}

#[test]
fn parse_drops_empty_and_repeated_buttons() {
    let m = parse_machine("[..#] (2) () (0, 1 ,) (2) (1,0,0)").unwrap().unwrap();
    assert_eq!(m.target, 0b100);
    assert_eq!(m.buttons, vec![0b011u128, 0b100]);
}

#[test]
fn parse_errors() {
    let err = |line: &str| parse_machine(line).unwrap_err();
    assert_eq!(err("(0) {1}"), ParseError::MissingOpenBracket);
    assert_eq!(err("[.#"), ParseError::MissingCloseBracket);
    assert_eq!(err("[] (0)"), ParseError::EmptyDiagram);
    assert_eq!(err(&format!("[{}]", ".".repeat(129))), ParseError::DiagramTooLarge);
    assert_eq!(err("[.x]"), ParseError::InvalidLight);
    assert_eq!(err("[.#] 0"), ParseError::ExpectedButton);
    assert_eq!(err("[.#] (0"), ParseError::MissingCloseParen);
    assert_eq!(err("[.#] (a)"), ParseError::InvalidIndex);
    assert_eq!(err("[.#] (2)"), ParseError::IndexOutOfRange);
    assert_eq!(err("[.#] (0) {1,2"), ParseError::MissingCloseBrace);
    assert_eq!(err("[.#] (0) {1,x}"), ParseError::InvalidJoltage);
    assert_eq!(err("[.#] (0) {1,2,3}"), ParseError::JoltageCountMismatch);
    assert!(parse_machine(&format!("[{}]", ".".repeat(128))).is_ok());
}

#[test]
fn parse_error_names_the_line() {
    let got = parse_machines("[.#] (0)\n\n[.#] (5)\n[.#] (1)");
    assert_eq!(
        got.unwrap_err(),
        LineError { line_index: 2, error: ParseError::IndexOutOfRange }
    );
    assert_eq!(
        part1("[.#] (0)\n[.#"),
        Err(Day10Error::Parse(LineError { line_index: 1, error: ParseError::MissingCloseBracket }))
    );
}

#[test]
fn answers_name_the_machine_without_solution() {
    assert_eq!(part1("[#.] (0)\n[.#] (0)"), Err(Day10Error::Unreachable { machine: 1 }));
    assert_eq!(
        part2("[#.] (0) {1,0}\n[.#] (0) {1,1}"),
        Err(Day10Error::Unsatisfiable { machine: 1 })
    );
    assert_eq!(part1(""), Ok("0".to_string()));
    assert_eq!(part2(""), Ok("0".to_string()));
}

#[test]
fn reduction_drops_a_button_on_a_row_brought_to_zero() {
    let m = machine(0, &[3, 4, 8, 14], &[2, 2, 3, 3]);
    let sys = reduce_machine(&m).unwrap();
    assert_eq!(sys.forced_total, 8);
    assert!(sys.matrix.is_empty());
    assert!(sys.target.is_empty());
    assert_eq!(min_joltage_button_presses(&m), Ok(8));
}

#[test]
fn reduction_of_single_covers() {
    let m = machine(0, &[1, 2], &[4, 7]);
    let sys = reduce_machine(&m).unwrap();
    assert_eq!(sys.forced_total, 11);
    assert!(sys.matrix.is_empty());
    assert!(sys.target.is_empty());
    let overshoot = machine(0, &[3], &[3, 2]);
    assert!(matches!(reduce_machine(&overshoot), Err(SolveError::Unsatisfiable)));
}

#[test]
fn answers_of_the_increment_puzzle() {
    assert_eq!(part2("[..] (0) (0,1) (1) {5,3}"), Ok("5".to_string()));
    assert_eq!(part2("[..] (0) (0,1) (1) {5,3}\n# note\n\n[..] (0) (1) {4,7}\n"), Ok("16".to_string()));
    assert_eq!(part2("[.##.] (3) (1,3) (2) (2,3) (0,2) (0,1) {3,5,4,7}"), Ok("10".to_string()));
    assert!(matches!(part2("[.] {1}"), Err(Day10Error::Unsatisfiable { machine: 0 })));
}

#[test]
fn echelon_form_drops_a_repeated_row() {
    let form = compute_rref(&[vec![1, 1], vec![1, 1]], &[2, 2]).unwrap();
    assert_eq!(form.pivot_cols, vec![0]);
    assert_eq!(form.free_cols, vec![1]);
    assert_eq!(form.matrix.len(), 1);
    assert_eq!(form.rhs.len(), 1);
    assert_eq!(form.rhs[0].to_u64(), Some(2));
    assert_eq!(form.matrix[0][0].to_u64(), Some(1));
    assert_eq!(form.matrix[0][1].to_u64(), Some(1));
}
