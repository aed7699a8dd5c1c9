//! The dial puzzle: a dial of a hundred positions is turned left and right.
//!
//! The dial starts at position 50. Each line of the input is a rotation: a
//! direction, `L` for left (towards lower numbers) or `R` for right, and a
//! number of clicks. The first answer counts the rotations that end at zero,
//! the second counts every click that lands on zero.

pub mod dial;
pub mod rotations;

pub use dial::{part1, part2, simulate, zero_hits_during_rotation, Day01Error};
pub use rotations::{parse_rotations, RotationError};
