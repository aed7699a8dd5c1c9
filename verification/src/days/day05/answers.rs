//! The two answers of the ingredient puzzle.

use vstd::prelude::*;
use crate::days::day05::database::{database_of, parse_database, DatabaseError, DatabaseLineError};
use crate::days::day05::ranges::{
    count_covered, count_fresh, covered, covered_set, fresh_count, merge_ranges,
};
use crate::days::day10::answers::{decimal_chars, decimal_string};
use crate::ds::parsing::lines_of;

verus! {

/// Why the puzzle has no answer.
#[derive(Debug, Clone, Copy, PartialEq, Eq, Structural)]
pub enum Day05Error {
    /// A line of the database cannot be read.
    Parse(DatabaseLineError),
    /// The count does not fit a `u64`.
    Overflow,
}

/// What the text holds as a database.
pub open spec fn database(input: Seq<char>) -> Result<
    (Seq<(u64, u64)>, Seq<u64>, bool),
    (int, DatabaseError),
> {
    database_of(lines_of(input), lines_of(input).len() as int)
}

/// The error of a text that cannot be read.
pub open spec fn failure(input: Seq<char>, e: Day05Error) -> bool {
    &&& database(input) matches Err(at)
    &&& e matches Day05Error::Parse(found)
    &&& found.line_index == at.0
    &&& found.error == at.1
}

/// The count of fresh ids depends only on which ids the ranges cover.
pub proof fn lemma_fresh_same(ids: Seq<u64>, a: Seq<(u64, u64)>, b: Seq<(u64, u64)>, n: int)
    requires
        forall|x: int| #[trigger] covered(a, x) <==> covered(b, x),
    ensures
        fresh_count(ids, a, n) == fresh_count(ids, b, n),
    decreases n,
{
    if n > 0 {
        lemma_fresh_same(ids, a, b, n - 1);
    }
}

/// How many of the listed ids lie in one of the ranges, in decimal.
pub fn part1(input: &str) -> (result: Result<String, Day05Error>)
    ensures
        match result {
            Ok(s) => {
                &&& database(input@) matches Ok(found)
                &&& s@ == decimal_chars(fresh_count(found.1, found.0, found.1.len() as int) as nat)
            },
            Err(e) => failure(input@, e),
        },
{
    let (ranges, ids) = match parse_database(input) {
        Ok(found) => found,
        Err(e) => {
            return Err(Day05Error::Parse(e));
        },
    };
    let ghost given = ranges@;
    let merged = merge_ranges(ranges);
    let fresh = count_fresh(&merged, &ids);
    proof {
        lemma_fresh_same(ids@, merged@, given, ids@.len() as int);
        lemma_fresh_nonneg(ids@, given, ids@.len() as int);
    }
    Ok(decimal_string(fresh as u64))
}

/// A count is not negative.
pub proof fn lemma_fresh_nonneg(ids: Seq<u64>, ranges: Seq<(u64, u64)>, n: int)
    ensures
        fresh_count(ids, ranges, n) >= 0,
    decreases n,
{
    if n > 0 {
        lemma_fresh_nonneg(ids, ranges, n - 1);
    }
}

/// How many ids lie in one of the ranges, in decimal; `Overflow` where
/// they are more than a `u64` can count.
pub fn part2(input: &str) -> (result: Result<String, Day05Error>)
    ensures
        match result {
            Ok(s) => {
                &&& database(input@) matches Ok(found)
                &&& covered_set(found.0, found.0.len() as int).finite()
                &&& covered_set(found.0, found.0.len() as int).len() <= u64::MAX
                &&& s@ == decimal_chars(covered_set(found.0, found.0.len() as int).len())
            },
            Err(Day05Error::Overflow) => {
                &&& database(input@) matches Ok(found)
                &&& covered_set(found.0, found.0.len() as int).len() > u64::MAX
            },
            Err(e) => failure(input@, e),
        },
{
    let (ranges, _ids) = match parse_database(input) {
        Ok(found) => found,
        Err(e) => {
            return Err(Day05Error::Parse(e));
        },
    };
    let ghost given = ranges@;
    let merged = merge_ranges(ranges);
    let count = count_covered(&merged);
    proof {
        assert forall|x: int|
            covered_set(merged@, merged@.len() as int).contains(x) <==> covered_set(
                given,
                given.len() as int,
            ).contains(x) by {
            assert(covered(merged@, x) <==> covered(given, x));
        }
        assert(covered_set(merged@, merged@.len() as int) =~= covered_set(
            given,
            given.len() as int,
        ));
    }
    if count > u64::MAX as u128 {
        return Err(Day05Error::Overflow);
    }
    Ok(decimal_string(count as u64))
}

} // verus!
