//! The paper-roll puzzle: a grid of rolls, of which those can be taken
//! away that fewer than four others stand around. The first answer is how
//! many can be taken at once, the second how many can be taken in all,
//! one after another.

pub mod peel;
pub mod removal;
pub mod rolls;

pub use removal::{part1, part2, Day04Error};
pub use rolls::{count_neighbors, parse_grid};
