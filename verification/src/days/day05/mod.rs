//! The ingredient puzzle: a list of ranges of fresh ids, then a list of
//! ids. The first answer is how many of the listed ids are fresh, the
//! second how many ids the ranges hold in all.

pub mod answers;
pub mod database;
pub mod ranges;

pub use answers::{part1, part2, Day05Error};
pub use database::{parse_database, DatabaseError, DatabaseLineError};
pub use ranges::merge_ranges;
