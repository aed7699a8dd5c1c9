//! Reading the database: ranges `a-b`, one per line, then a blank line,
//! then ids, one per line.

use vstd::prelude::*;
use crate::days::day05::ranges::ordered;
use crate::ds::parsing::{
    digits_from, lemma_digits_grow, lines_of, split_lines, trim, trimmed,
};

verus! {

/// Why a line of the database cannot be read.
#[derive(Debug, Clone, Copy, PartialEq, Eq, Structural)]
pub enum DatabaseError {
    /// A range without `-`.
    MissingDash,
    /// What stands before the `-` is no number.
    InvalidStart,
    /// What stands after the `-` is no number.
    InvalidEnd,
    /// A line of the second part is no number.
    InvalidId,
}

/// An error and the line it was found on, counted from zero.
#[derive(Debug, Clone, Copy, PartialEq, Eq, Structural)]
pub struct DatabaseLineError {
    pub line_index: usize,
    pub error: DatabaseError,
}

/// The number that `s` writes: an optional `+` and one or more digits,
/// with a value in the range of `u64`.
pub open spec fn natural_of(s: Seq<char>) -> Option<u64> {
    let first: int = if s.len() > 0 && s[0] == '+' {
        1
    } else {
        0
    };
    if first >= s.len() {
        None
    } else {
        match digits_from(s, first, 0) {
            None => None,
            Some(v) => if v <= u64::MAX {
                Some(v as u64)
            } else {
                None
            },
        }
    }
}

/// The place of the first `-` from `i` on; the length where there is none.
pub open spec fn dash_at(s: Seq<char>, i: int) -> int
    decreases s.len() - i,
{
    if i >= s.len() {
        s.len() as int
    } else if s[i] == '-' {
        i
    } else {
        dash_at(s, i + 1)
    }
}

/// The range that a line writes: two numbers with a `-` between them,
/// white space around each; the smaller number is the start.
pub open spec fn range_of(t: Seq<char>) -> Result<(u64, u64), DatabaseError> {
    let d = dash_at(t, 0);
    if d >= t.len() {
        Err(DatabaseError::MissingDash)
    } else {
        match natural_of(trimmed(t.subrange(0, d))) {
            None => Err(DatabaseError::InvalidStart),
            Some(a) => match natural_of(trimmed(t.subrange(d + 1, t.len() as int))) {
                None => Err(DatabaseError::InvalidEnd),
                Some(b) => if a <= b {
                    Ok((a, b))
                } else {
                    Ok((b, a))
                },
            },
        }
    }
}

/// What the first `n` lines hold: the ranges, the ids, and whether ranges
/// are still being read; or the first line that cannot be read, with the
/// reason. Ranges are read until a blank line follows at least one of
/// them; blank lines hold nothing.
pub open spec fn database_of(lines: Seq<Seq<char>>, n: int) -> Result<
    (Seq<(u64, u64)>, Seq<u64>, bool),
    (int, DatabaseError),
>
    decreases n,
{
    if n <= 0 {
        Ok((Seq::empty(), Seq::empty(), true))
    } else {
        match database_of(lines, n - 1) {
            Err(e) => Err(e),
            Ok((ranges, ids, reading)) => {
                let t = trimmed(lines[n - 1]);
                if t.len() == 0 {
                    Ok((ranges, ids, reading && ranges.len() == 0))
                } else if reading {
                    match range_of(t) {
                        Ok(r) => Ok((ranges.push(r), ids, true)),
                        Err(e) => Err((n - 1, e)),
                    }
                } else {
                    match natural_of(t) {
                        Some(id) => Ok((ranges, ids.push(id), false)),
                        None => Err((n - 1, DatabaseError::InvalidId)),
                    }
                }
            },
        }
    }
}

/// Once a line has failed, every longer run of lines fails the same way.
pub proof fn lemma_failure_sticks(lines: Seq<Seq<char>>, n: int, m: int)
    requires
        n <= m,
        database_of(lines, n) is Err,
    ensures
        database_of(lines, m) == database_of(lines, n),
    decreases m - n,
{
    if n < m {
        lemma_failure_sticks(lines, n, m - 1);
    }
}

/// Reads the number that `token` writes.
pub fn parse_u64(token: &Vec<char>) -> (value: Option<u64>)
    ensures
        value == natural_of(token@),
{
    let n = token.len();
    let first: usize = if n > 0 && token[0] == '+' {
        1
    } else {
        0
    };
    if first >= n {
        return None;
    }
    let mut acc: u128 = 0;
    let mut i = first;
    while i < n
        invariant
            first <= i <= n,
            n == token@.len(),
            first < n,
            first == (if token@.len() > 0 && token@[0] == '+' {
                1int
            } else {
                0int
            }),
            acc <= u64::MAX,
            digits_from(token@, i as int, acc as int) == digits_from(token@, first as int, 0),
        decreases n - i,
    {
        let c = token[i];
        if !('0' <= c && c <= '9') {
            assert(digits_from(token@, i as int, acc as int) is None);
            return None;
        }
        let digit = (c as u32 - '0' as u32) as u128;
        let next = acc * 10 + digit;
        if next > u64::MAX as u128 {
            proof {
                lemma_digits_grow(token@, i + 1, next as int);
                assert(digits_from(token@, i as int, acc as int) == digits_from(
                    token@,
                    i + 1,
                    next as int,
                ));
            }
            return None;
        }
        acc = next;
        i += 1;
    }
    Some(acc as u64)
}

/// The characters from `a` up to `b`.
pub fn piece(line: &Vec<char>, a: usize, b: usize) -> (out: Vec<char>)
    requires
        a <= b <= line@.len(),
    ensures
        out@ == line@.subrange(a as int, b as int),
{
    let mut out: Vec<char> = Vec::new();
    let mut k = a;
    while k < b
        invariant
            a <= k <= b <= line@.len(),
            out@ == line@.subrange(a as int, k as int),
        decreases b - k,
    {
        out.push(line[k]);
        assert(line@.subrange(a as int, k + 1) =~= line@.subrange(a as int, k as int).push(
            line@[k as int],
        ));
        k += 1;
    }
    out
}

/// Reads the range that a line writes.
pub fn parse_range(t: &Vec<char>) -> (result: Result<(u64, u64), DatabaseError>)
    ensures
        result == range_of(t@),
        result matches Ok(r) ==> r.0 <= r.1,
{
    let n = t.len();
    let mut d: usize = 0;
    while d < n && t[d] != '-'
        invariant
            d <= n,
            n == t@.len(),
            dash_at(t@, d as int) == dash_at(t@, 0),
        decreases n - d,
    {
        d += 1;
    }
    if d >= n {
        return Err(DatabaseError::MissingDash);
    }
    let left = trim(&piece(t, 0, d));
    let a = match parse_u64(&left) {
        Some(a) => a,
        None => {
            return Err(DatabaseError::InvalidStart);
        },
    };
    let right = trim(&piece(t, d + 1, n));
    let b = match parse_u64(&right) {
        Some(b) => b,
        None => {
            return Err(DatabaseError::InvalidEnd);
        },
    };
    if a <= b {
        Ok((a, b))
    } else {
        Ok((b, a))
    }
}

/// Reads the database: its ranges and its ids, or the first line that
/// cannot be read.
pub fn parse_database(input: &str) -> (result: Result<
    (Vec<(u64, u64)>, Vec<u64>),
    DatabaseLineError,
>)
    ensures
        match result {
            Ok((ranges, ids)) => {
                &&& database_of(lines_of(input@), lines_of(input@).len() as int) matches Ok(found)
                &&& found.0 == ranges@
                &&& found.1 == ids@
                &&& ordered(ranges@)
            },
            Err(e) => database_of(lines_of(input@), lines_of(input@).len() as int) == Err::<
                (Seq<(u64, u64)>, Seq<u64>, bool),
                (int, DatabaseError),
            >((e.line_index as int, e.error)),
        },
{
    let lines = split_lines(input);
    let ghost all = lines_of(input@);
    let mut ranges: Vec<(u64, u64)> = Vec::new();
    let mut ids: Vec<u64> = Vec::new();
    let mut reading = true;
    let mut k: usize = 0;
    while k < lines.len()
        invariant
            k <= lines@.len(),
            all == lines_of(input@),
            lines@.len() == all.len(),
            forall|q: int| 0 <= q < lines@.len() ==> (#[trigger] lines@[q])@ == all[q],
            database_of(all, k as int) == Ok::<
                (Seq<(u64, u64)>, Seq<u64>, bool),
                (int, DatabaseError),
            >((ranges@, ids@, reading)),
            ordered(ranges@),
        decreases lines@.len() - k,
    {
        assert(lines@[k as int]@ == all[k as int]);
        let t = trim(&lines[k]);
        if t.len() == 0 {
            if reading && ranges.len() > 0 {
                reading = false;
            }
        } else if reading {
            match parse_range(&t) {
                Ok(r) => {
                    ranges.push(r);
                },
                Err(error) => {
                    proof {
                        lemma_failure_sticks(all, k + 1, all.len() as int);
                    }
                    return Err(DatabaseLineError { line_index: k, error });
                },
            }
        } else {
            match parse_u64(&t) {
                Some(id) => {
                    ids.push(id);
                },
                None => {
                    proof {
                        lemma_failure_sticks(all, k + 1, all.len() as int);
                    }
                    return Err(DatabaseLineError { line_index: k, error: DatabaseError::InvalidId });
                },
            }
        }
        k += 1;
    }
    Ok((ranges, ids))
}

} // verus!
