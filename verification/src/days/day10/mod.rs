//! The factory puzzle: machines with buttons and counters.

pub mod answers;
pub mod assignment;
pub mod echelon;
pub mod grammar;
pub mod joltage;
pub mod linear;
pub mod machine;
pub mod parse;
pub mod rational;
pub mod real_rows;
pub mod reducer;
pub mod reduction;
pub mod scan;
pub mod search;
pub mod solver;
pub mod toggle;

pub use answers::{part1, part2, Day10Error};
pub use grammar::ParseError;
pub use joltage::min_joltage_button_presses;
pub use machine::Machine;
pub use parse::{parse_machine, parse_machines, LineError};
pub use reducer::{reduce_machine, ReducedSystem};
pub use solver::{solve_linear_system, SolveError};
pub use toggle::min_button_presses;
