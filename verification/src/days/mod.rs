//! Puzzle solvers, one module per day.

pub mod day01;
pub mod day03;
pub mod day04;
pub mod day05;
pub mod day10;
pub mod util;
