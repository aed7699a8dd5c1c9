//! The battery puzzle: each line is a bank of digits, and the answer is the
//! sum over the banks of the greatest two-digit number that two digits of
//! the bank write, the first before the second.

pub mod bank;
pub mod pick;
pub mod regex_solvers;

pub use bank::{max_pair_value, part1, Day03Error};
pub use pick::{max_subsequence_value, part2};
pub use regex_solvers::sum_with_regex_part1;

