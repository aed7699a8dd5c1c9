//! Turning the dial.

use vstd::prelude::*;
use crate::days::day01::rotations::{parse_rotations, rotations_of, RotationLineError};
use crate::days::day10::answers::{decimal_chars, decimal_string};
use crate::ds::parsing::lines_of;

verus! {

/// Why the puzzle has no answer.
#[derive(Debug, Clone, Copy, PartialEq, Eq, Structural)]
pub enum Day01Error {
    /// A line of the input is malformed.
    Parse(RotationLineError),
    /// A count does not fit the integer type of the result.
    Overflow,
}

/// The position of the dial after `k` clicks from `pos` in the direction
/// `dir`.
pub open spec fn after_clicks(pos: int, dir: char, k: int) -> int {
    if dir == 'L' {
        (pos - k) % 100
    } else {
        (pos + k) % 100
    }
}

/// The number of the first `n` clicks that land on zero.
pub open spec fn zero_clicks(pos: int, dir: char, n: int) -> int
    decreases n,
{
    if n <= 0 {
        0
    } else {
        zero_clicks(pos, dir, n - 1) + if after_clicks(pos, dir, n) == 0 {
            1int
        } else {
            0int
        }
    }
}

/// The number of clicks before the dial first lands on zero.
pub open spec fn first_zero(pos: int, dir: char) -> int {
    let offset = if dir == 'L' {
        pos % 100
    } else {
        (100 - pos % 100) % 100
    };
    if offset == 0 {
        100
    } else {
        offset
    }
}

/// The dial lands on zero exactly at the first zero and every hundred
/// clicks after it.
pub proof fn lemma_lands_on_zero(pos: int, dir: char, n: int)
    ensures
        1 <= first_zero(pos, dir) <= 100,
        (after_clicks(pos, dir, n) == 0) <==> (n - first_zero(pos, dir)) % 100 == 0,
{
}

/// One more click raises the count of hundreds passed where it lands on a
/// multiple of a hundred.
proof fn lemma_hundreds(m: int)
    requires
        0 <= m,
    ensures
        (m + 1) / 100 == m / 100 + (if (m + 1) % 100 == 0 {
            1int
        } else {
            0int
        }),
{
}

/// The dial lands on zero at the first zero and then every hundred clicks.
pub proof fn lemma_zero_clicks(pos: int, dir: char, n: int)
    requires
        0 <= n,
    ensures
        zero_clicks(pos, dir, n) == (if n < first_zero(pos, dir) {
            0
        } else {
            1 + (n - first_zero(pos, dir)) / 100
        }),
    decreases n,
{
    if n > 0 {
        lemma_zero_clicks(pos, dir, n - 1);
        lemma_lands_on_zero(pos, dir, n);
        let f = first_zero(pos, dir);
        if n > f {
            lemma_hundreds(n - 1 - f);
        } else if n < f {
            assert((n - f) % 100 != 0);
        }
    }
}

/// The number of clicks that land on zero while the dial is turned `steps`
/// clicks from `start_pos`.
pub fn zero_hits_during_rotation(start_pos: i64, dir: char, steps: i64) -> (hits: u64)
    requires
        dir == 'L' || dir == 'R',
        0 <= steps,
        0 <= start_pos < 100,
    ensures
        hits == zero_clicks(start_pos as int, dir, steps as int),
{
    proof {
        lemma_zero_clicks(start_pos as int, dir, steps as int);
    }
    if steps == 0 {
        return 0;
    }
    let offset = if dir == 'L' {
        start_pos % 100
    } else {
        (100 - start_pos % 100) % 100
    };
    let first_hit = if offset == 0 {
        100
    } else {
        offset
    };
    if steps < first_hit {
        0
    } else {
        let remaining = steps - first_hit;
        1 + (remaining / 100) as u64
    }
}

/// Turning by the clicks beyond the last full turn gives the same position.
proof fn lemma_turn(pos: int, dir: char, steps: int)
    requires
        0 <= pos < 100,
        0 <= steps,
    ensures
        after_clicks(pos, dir, steps) == (if dir == 'L' {
            (pos + 100 - steps % 100) % 100
        } else {
            (pos + steps % 100) % 100
        }),
{
}

/// The dial after the first `n` rotations: the number of rotations that
/// ended at zero, the position, and the number of clicks that landed on
/// zero.
pub open spec fn dial_after(rotations: Seq<(char, i64)>, n: int) -> (int, int, int)
    decreases n,
{
    if n <= 0 {
        (0, 50, 0)
    } else {
        let (hits, pos, clicks) = dial_after(rotations, n - 1);
        let (dir, steps) = rotations[n - 1];
        let next = after_clicks(pos, dir, steps as int);
        (
            hits + if next == 0 {
                1int
            } else {
                0int
            },
            next,
            clicks + zero_clicks(pos, dir, steps as int),
        )
    }
}

/// The position stays on the dial, and the counts are not negative.
pub proof fn lemma_dial_after(rotations: Seq<(char, i64)>, n: int)
    requires
        forall|i: int| 0 <= i < rotations.len() ==> (#[trigger] rotations[i]).1 >= 0,
        n <= rotations.len(),
    ensures
        0 <= dial_after(rotations, n).0 <= n || n < 0,
        0 <= dial_after(rotations, n).1 < 100,
        0 <= dial_after(rotations, n).2,
    decreases n,
{
    if n > 0 {
        lemma_dial_after(rotations, n - 1);
        let (hits, pos, clicks) = dial_after(rotations, n - 1);
        lemma_zero_clicks(pos, rotations[n - 1].0, rotations[n - 1].1 as int);
    }
}

/// The count of clicks on zero never goes down.
pub proof fn lemma_clicks_grow(rotations: Seq<(char, i64)>, n: int, m: int)
    requires
        forall|i: int| 0 <= i < rotations.len() ==> (#[trigger] rotations[i]).1 >= 0,
        0 <= n <= m <= rotations.len(),
    ensures
        dial_after(rotations, n).2 <= dial_after(rotations, m).2,
    decreases m - n,
{
    if n < m {
        lemma_clicks_grow(rotations, n, m - 1);
        lemma_dial_after(rotations, m - 1);
        let (hits, pos, clicks) = dial_after(rotations, m - 1);
        lemma_zero_clicks(pos, rotations[m - 1].0, rotations[m - 1].1 as int);
    }
}

/// Turns the dial through all the rotations, from position 50, and counts
/// the rotations that end at zero.
pub fn zero_stops(rotations: &[(char, i64)]) -> (hits: usize)
    requires
        forall|i: int|
            0 <= i < rotations@.len() ==> ((#[trigger] rotations@[i]).0 == 'L' || rotations@[i].0
                == 'R') && rotations@[i].1 >= 0,
    ensures
        hits == dial_after(rotations@, rotations@.len() as int).0,
{
    let mut pos: i64 = 50;
    let mut hits: usize = 0;
    let n = rotations.len();
    for k in 0..n
        invariant
            n == rotations@.len(),
            forall|i: int|
                0 <= i < rotations@.len() ==> ((#[trigger] rotations@[i]).0 == 'L'
                    || rotations@[i].0 == 'R') && rotations@[i].1 >= 0,
            0 <= pos < 100,
            hits <= k,
            hits == dial_after(rotations@, k as int).0,
            pos == dial_after(rotations@, k as int).1,
    {
        let (dir, steps) = rotations[k];
        assert(rotations@[k as int] == (dir, steps));
        proof {
            lemma_turn(pos as int, dir, steps as int);
        }
        let turn = steps % 100;
        pos = if dir == 'L' {
            (pos + 100 - turn) % 100
        } else {
            (pos + turn) % 100
        };
        if pos == 0 {
            hits += 1;
        }
    }
    hits
}

/// Turns the dial through all the rotations, from position 50.
///
/// Returns the number of rotations that ended at zero, the last position,
/// and the number of clicks that landed on zero; `None` when that number
/// does not fit a `u64`.
pub fn simulate(rotations: &[(char, i64)]) -> (result: Option<(usize, i64, u64)>)
    requires
        forall|i: int|
            0 <= i < rotations@.len() ==> ((#[trigger] rotations@[i]).0 == 'L' || rotations@[i].0
                == 'R') && rotations@[i].1 >= 0,
    ensures
        match result {
            Some((hits, pos, clicks)) => (hits as int, pos as int, clicks as int) == dial_after(
                rotations@,
                rotations@.len() as int,
            ),
            None => dial_after(rotations@, rotations@.len() as int).2 > u64::MAX,
        },
{
    let mut pos: i64 = 50;
    let mut zero_hits: usize = 0;
    let mut zero_clicks: u64 = 0;
    let n = rotations.len();
    for k in 0..n
        invariant
            n == rotations@.len(),
            forall|i: int|
                0 <= i < rotations@.len() ==> ((#[trigger] rotations@[i]).0 == 'L'
                    || rotations@[i].0 == 'R') && rotations@[i].1 >= 0,
            0 <= pos < 100,
            zero_hits <= k,
            (zero_hits as int, pos as int, zero_clicks as int) == dial_after(rotations@, k as int),
    {
        let (dir, steps) = rotations[k];
        assert(rotations@[k as int] == (dir, steps));
        proof {
            lemma_turn(pos as int, dir, steps as int);
        }
        let during = zero_hits_during_rotation(pos, dir, steps);
        zero_clicks = match zero_clicks.checked_add(during) {
            Some(sum) => sum,
            None => {
                proof {
                    assert(dial_after(rotations@, k + 1).2 > u64::MAX);
                    lemma_clicks_grow(rotations@, k + 1, rotations@.len() as int);
                }
                return None;
            },
        };
        let turn = steps % 100;
        pos = if dir == 'L' {
            (pos + 100 - turn) % 100
        } else {
            (pos + turn) % 100
        };
        if pos == 0 {
            zero_hits += 1;
        }
    }
    Some((zero_hits, pos, zero_clicks))
}

/// The rotations that the input writes.
pub open spec fn parsed(input: &str) -> Result<Seq<(char, i64)>, RotationLineError> {
    rotations_of(lines_of(input@), lines_of(input@).len() as int)
}

/// The first answer: the number of rotations that end at zero, in decimal.
pub fn part1(input: &str) -> (result: Result<String, Day01Error>)
    ensures
        match result {
            Ok(s) => parsed(input) is Ok && s@ == decimal_chars(
                dial_after(parsed(input)->Ok_0, parsed(input)->Ok_0.len() as int).0 as nat,
            ),
            Err(Day01Error::Parse(e)) => parsed(input) == Err::<
                Seq<(char, i64)>,
                RotationLineError,
            >(e),
            Err(Day01Error::Overflow) => false,
        },
{
    let rotations = match parse_rotations(input) {
        Ok(rotations) => rotations,
        Err(e) => {
            return Err(Day01Error::Parse(e));
        },
    };
    let hits = zero_stops(rotations.as_slice());
    Ok(decimal_string(hits as u64))
}

/// The second answer: the number of clicks that land on zero, in decimal.
pub fn part2(input: &str) -> (result: Result<String, Day01Error>)
    ensures
        match result {
            Ok(s) => parsed(input) is Ok && s@ == decimal_chars(
                dial_after(parsed(input)->Ok_0, parsed(input)->Ok_0.len() as int).2 as nat,
            ),
            Err(Day01Error::Parse(e)) => parsed(input) == Err::<
                Seq<(char, i64)>,
                RotationLineError,
            >(e),
            Err(Day01Error::Overflow) => parsed(input) is Ok && dial_after(
                parsed(input)->Ok_0,
                parsed(input)->Ok_0.len() as int,
            ).2 > u64::MAX,
        },
{
    let rotations = match parse_rotations(input) {
        Ok(rotations) => rotations,
        Err(e) => {
            return Err(Day01Error::Parse(e));
        },
    };
    match simulate(rotations.as_slice()) {
        Some((_, _, zero_clicks)) => Ok(decimal_string(zero_clicks)),
        None => Err(Day01Error::Overflow),
    }
}

} // verus!
