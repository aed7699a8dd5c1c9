//! The grammar of a machine line:
//! `[<pattern>] (<idx>,<idx>,...) ... {<target>,<target>,...}`.
//!
//! The pattern is a run of `#` and `.`, one per light. Each parenthesised
//! group is a button, given by the indices it affects. The brace group holds
//! the joltage target of each counter. Blank lines and lines that start with
//! `#` describe no machine.

use vstd::prelude::*;
use crate::days::day10::scan::{drop_blanks, find_byte, number_at, skip_blanks};

verus! {

/// What is wrong with a machine line.
#[derive(Debug, Clone, Copy, PartialEq, Eq, Structural)]
pub enum ParseError {
    /// The line has no `[`.
    MissingOpenBracket,
    /// The pattern is not closed by `]`.
    MissingCloseBracket,
    /// The pattern is empty.
    EmptyDiagram,
    /// The pattern has more than 128 lights.
    DiagramTooLarge,
    /// The pattern holds a character other than `#` and `.`.
    InvalidLight,
    /// Something other than a button or the joltage group follows.
    ExpectedButton,
    /// A button is not closed by `)`.
    MissingCloseParen,
    /// A button index is not a number.
    InvalidIndex,
    /// A button index is not below the number of lights.
    IndexOutOfRange,
    /// The joltage group is not closed by `}`.
    MissingCloseBrace,
    /// A joltage target is not a number.
    InvalidJoltage,
    /// There are joltage targets, but not one per light.
    JoltageCountMismatch,
}

/// The pattern from `i` up to `end` added to `acc`: bit `k` for the light at
/// `i`, bit `k + 1` for the next, and so on.
pub open spec fn pattern_from(s: Seq<u8>, i: int, end: int, k: int, acc: u128) -> Result<
    u128,
    ParseError,
>
    decreases end - i,
{
    if i >= end {
        Ok(acc)
    } else if s[i] == 35 {
        pattern_from(s, i + 1, end, k + 1, acc | (1u128 << (k as u128)))
    } else if s[i] == 46 {
        pattern_from(s, i + 1, end, k + 1, acc)
    } else {
        Err(ParseError::InvalidLight)
    }
}

/// The button whose comma-separated indices are written from `i` up to
/// `end`, added to `acc`. Blanks around an index and empty entries are
/// passed over.
pub open spec fn button_from(s: Seq<u8>, i: int, end: int, lights: int, acc: u128) -> Result<
    u128,
    ParseError,
>
    decreases end - i,
{
    let stop = find_byte(s, i, end, 44);
    let a = skip_blanks(s, i, stop);
    let b = drop_blanks(s, a, stop);
    let entry = if a == b {
        Ok(acc)
    } else {
        match number_at(s, a, b, u64::MAX as int) {
            None => Err(ParseError::InvalidIndex),
            Some(v) => if v >= lights {
                Err(ParseError::IndexOutOfRange)
            } else {
                Ok(acc | (1u128 << (v as u128)))
            },
        }
    };
    match entry {
        Err(e) => Err(e),
        Ok(more) => if i <= stop < end {
            button_from(s, stop + 1, end, lights, more)
        } else {
            Ok(more)
        },
    }
}

/// The comma-separated joltage targets written from `i` up to `end`, after
/// those of `acc`.
pub open spec fn joltage_from(s: Seq<u8>, i: int, end: int, acc: Seq<u64>) -> Result<
    Seq<u64>,
    ParseError,
>
    decreases end - i,
{
    let stop = find_byte(s, i, end, 44);
    let a = skip_blanks(s, i, stop);
    let b = drop_blanks(s, a, stop);
    let entry = if a == b {
        Ok(acc)
    } else {
        match number_at(s, a, b, u64::MAX as int) {
            None => Err(ParseError::InvalidJoltage),
            Some(v) => Ok(acc.push(v as u64)),
        }
    };
    match entry {
        Err(e) => Err(e),
        Ok(more) => if i <= stop < end {
            joltage_from(s, stop + 1, end, more)
        } else {
            Ok(more)
        },
    }
}

/// Where `x` belongs in an increasing sequence: the first position from `i`
/// on whose entry is not below `x`.
pub open spec fn insert_pos(seq: Seq<u128>, x: u128, i: int) -> int
    decreases seq.len() - i,
{
    if i < seq.len() && seq[i] < x {
        insert_pos(seq, x, i + 1)
    } else {
        i
    }
}

/// The increasing sequence with `x` put in its place, unless it is there.
pub open spec fn insert_sorted(seq: Seq<u128>, x: u128) -> Seq<u128> {
    let p = insert_pos(seq, x, 0);
    if p < seq.len() && seq[p] == x {
        seq
    } else {
        seq.insert(p, x)
    }
}

/// Strictly increasing.
pub open spec fn increasing(seq: Seq<u128>) -> bool {
    forall|i: int, j: int| 0 <= i < j < seq.len() ==> seq[i] < seq[j]
}

/// The buttons written from `i` up to `end`, added to those of `acc`, and
/// the position where they end: the end of the line or the `{` of the
/// joltage group. A button that affects nothing is left out, and a button
/// that is there already is not added again.
pub open spec fn buttons_from(s: Seq<u8>, i: int, end: int, lights: int, acc: Seq<u128>) -> Result<
    (Seq<u128>, int),
    ParseError,
>
    decreases end - i,
{
    if i >= end || s[i] == 123 {
        Ok((acc, i))
    } else if s[i] != 40 {
        Err(ParseError::ExpectedButton)
    } else {
        let close = find_byte(s, i + 1, end, 41);
        if i < close < end {
            match button_from(s, i + 1, close, lights, 0) {
                Err(e) => Err(e),
                Ok(mask) => {
                    let next = skip_blanks(s, close + 1, end);
                    let more = if mask != 0 {
                        insert_sorted(acc, mask)
                    } else {
                        acc
                    };
                    if close < next <= end {
                        buttons_from(s, next, end, lights, more)
                    } else {
                        Ok((more, next))
                    }
                },
            }
        } else {
            Err(ParseError::MissingCloseParen)
        }
    }
}

/// The joltage group that starts at `i`, if the line goes on there.
pub open spec fn joltage_group(s: Seq<u8>, i: int, end: int) -> Result<Seq<u64>, ParseError> {
    if i >= end {
        Ok(Seq::empty())
    } else {
        let close = find_byte(s, i + 1, end, 125);
        if close >= end {
            Err(ParseError::MissingCloseBrace)
        } else {
            joltage_from(s, i + 1, close, Seq::empty())
        }
    }
}

/// The machine that the bytes from `start` up to `end` describe, as its
/// target pattern, its buttons and its joltage targets. `Ok(None)` for a
/// line that is blank or starts with `#`.
pub open spec fn machine_at(s: Seq<u8>, start: int, end: int) -> Result<
    Option<(u128, Seq<u128>, Seq<u64>)>,
    ParseError,
> {
    let a = skip_blanks(s, start, end);
    let b = drop_blanks(s, a, end);
    if a >= b || s[a] == 35 {
        Ok(None)
    } else {
        let open = find_byte(s, a, b, 91);
        if open >= b {
            Err(ParseError::MissingOpenBracket)
        } else {
            let close = find_byte(s, open + 1, b, 93);
            let lights = close - (open + 1);
            if close >= b {
                Err(ParseError::MissingCloseBracket)
            } else if lights == 0 {
                Err(ParseError::EmptyDiagram)
            } else if lights > 128 {
                Err(ParseError::DiagramTooLarge)
            } else {
                match pattern_from(s, open + 1, close, 0, 0) {
                    Err(e) => Err(e),
                    Ok(target) => match buttons_from(
                        s,
                        skip_blanks(s, close + 1, b),
                        b,
                        lights,
                        Seq::empty(),
                    ) {
                        Err(e) => Err(e),
                        Ok((buttons, rest)) => match joltage_group(s, rest, b) {
                            Err(e) => Err(e),
                            Ok(joltage) => if joltage.len() != 0 && joltage.len() != lights {
                                Err(ParseError::JoltageCountMismatch)
                            } else {
                                Ok(Some((target, buttons, joltage)))
                            },
                        },
                    },
                }
            }
        }
    }
}

} // verus!
