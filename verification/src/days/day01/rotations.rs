//! Reading the rotations.

use vstd::prelude::*;
use crate::ds::parsing::{
    digit_value, is_digit, lines_of, split_lines, trim, trimmed,
};

verus! {

/// What is wrong with a rotation line.
#[derive(Debug, Clone, Copy, PartialEq, Eq, Structural)]
pub enum RotationError {
    /// The direction is neither `L` nor `R`.
    UnknownDirection,
    /// The distance is no number in the range of `i64`.
    InvalidDistance,
    /// The distance is negative.
    NegativeDistance,
}

/// A parse error and the line it was found on.
#[derive(Debug, Clone, Copy, PartialEq, Eq, Structural)]
pub struct RotationLineError {
    /// The number of lines before the malformed one.
    pub line_index: usize,
    /// What is wrong with the line.
    pub error: RotationError,
}

/// The direction that a character names: `L` and `R`, in capital or small
/// letters.
pub open spec fn direction_of(c: char) -> Option<char> {
    if c == 'L' || c == 'l' {
        Some('L')
    } else if c == 'R' || c == 'r' {
        Some('R')
    } else {
        None
    }
}

/// The rotation that a line that is not blank writes: its first character is
/// the direction, the rest, without the white space at its ends, the
/// distance.
pub open spec fn rotation_of(line: Seq<char>) -> Result<(char, i64), RotationError> {
    let t = trimmed(line);
    match direction_of(t[0]) {
        None => Err(RotationError::UnknownDirection),
        Some(dir) => match crate::ds::parsing::integer_of(trimmed(t.subrange(1, t.len() as int))) {
            None => Err(RotationError::InvalidDistance),
            Some(steps) => if steps < 0 {
                Err(RotationError::NegativeDistance)
            } else {
                Ok((dir, steps))
            },
        },
    }
}

/// The rotations that the first `n` lines write, after those of `acc`.
/// Blank lines are passed over.
pub open spec fn rotations_of(lines: Seq<Seq<char>>, n: int) -> Result<
    Seq<(char, i64)>,
    RotationLineError,
>
    decreases n,
{
    if n <= 0 {
        Ok(Seq::empty())
    } else {
        match rotations_of(lines, n - 1) {
            Err(e) => Err(e),
            Ok(before) => if trimmed(lines[n - 1]).len() == 0 {
                Ok(before)
            } else {
                match rotation_of(lines[n - 1]) {
                    Err(error) => Err(RotationLineError { line_index: (n - 1) as usize, error }),
                    Ok(r) => Ok(before.push(r)),
                }
            },
        }
    }
}

/// A malformed line ends the reading: the lines after it change nothing.
pub proof fn lemma_error_sticks(lines: Seq<Seq<char>>, m: int, n: int)
    requires
        m <= n,
        rotations_of(lines, m) is Err,
    ensures
        rotations_of(lines, n) == rotations_of(lines, m),
    decreases n - m,
{
    if m < n {
        lemma_error_sticks(lines, m, n - 1);
    }
}

/// Reads the rotations, one per line. The first malformed line ends the
/// reading with its place and what is wrong with it.
pub fn parse_rotations(input: &str) -> (result: Result<Vec<(char, i64)>, RotationLineError>)
    ensures
        result is Err ==> result->Err_0.line_index < lines_of(input@).len(),
        match result {
            Ok(rotations) => rotations_of(lines_of(input@), lines_of(input@).len() as int) == Ok::<
                Seq<(char, i64)>,
                RotationLineError,
            >(rotations@),
            Err(e) => rotations_of(lines_of(input@), lines_of(input@).len() as int) == Err::<
                Seq<(char, i64)>,
                RotationLineError,
            >(e),
        },
        result is Ok ==> forall|i: int|
            0 <= i < result->Ok_0@.len() ==> ((#[trigger] result->Ok_0@[i]).0 == 'L'
                || result->Ok_0@[i].0 == 'R') && result->Ok_0@[i].1 >= 0,
{
    let lines = split_lines(input);
    let ghost all = lines_of(input@);
    let mut out: Vec<(char, i64)> = Vec::new();
    for k in 0..lines.len()
        invariant
            all == lines_of(input@),
            lines@.len() == all.len(),
            forall|q: int| 0 <= q < lines@.len() ==> (#[trigger] lines@[q])@ == all[q],
            rotations_of(all, k as int) == Ok::<Seq<(char, i64)>, RotationLineError>(out@),
            forall|i: int|
                0 <= i < out@.len() ==> ((#[trigger] out@[i]).0 == 'L' || out@[i].0 == 'R')
                    && out@[i].1 >= 0,
    {
        let t = trim(&lines[k]);
        assert(lines@[k as int]@ == all[k as int]);
        if t.len() > 0 {
            let c = t[0];
            let dir = if c == 'L' || c == 'l' {
                'L'
            } else if c == 'R' || c == 'r' {
                'R'
            } else {
                assert(rotations_of(all, k + 1) == Err::<Seq<(char, i64)>, RotationLineError>(
                    RotationLineError { line_index: k, error: RotationError::UnknownDirection },
                ));
                proof {
                    lemma_error_sticks(all, k + 1, all.len() as int);
                }
                return Err(
                    RotationLineError { line_index: k, error: RotationError::UnknownDirection },
                );
            };
            let mut rest: Vec<char> = Vec::new();
            for j in 1..t.len()
                invariant
                    rest@ == t@.subrange(1, j as int),
            {
                rest.push(t[j]);
                assert(t@.subrange(1, j + 1) =~= t@.subrange(1, j as int).push(t@[j as int]));
            }
            let number = trim(&rest);
            let steps = match crate::ds::parsing::parse_i64(&number) {
                Some(steps) => steps,
                None => {
                    assert(rotations_of(all, k + 1) == Err::<Seq<(char, i64)>, RotationLineError>(
                        RotationLineError { line_index: k, error: RotationError::InvalidDistance },
                    ));
                    proof {
                        lemma_error_sticks(all, k + 1, all.len() as int);
                    }
                    return Err(
                        RotationLineError { line_index: k, error: RotationError::InvalidDistance },
                    );
                },
            };
            if steps < 0 {
                assert(rotations_of(all, k + 1) == Err::<Seq<(char, i64)>, RotationLineError>(
                    RotationLineError { line_index: k, error: RotationError::NegativeDistance },
                ));
                proof {
                    lemma_error_sticks(all, k + 1, all.len() as int);
                }
                return Err(
                    RotationLineError { line_index: k, error: RotationError::NegativeDistance },
                );
            }
            out.push((dir, steps));
        }
    }
    Ok(out)
}

} // verus!
