//! The greatest pair of digits of a bank.

use vstd::prelude::*;
use crate::days::day10::answers::{decimal_chars, decimal_string};
use crate::ds::parsing::{digit_value, digits_of, is_digit, lines_of, split_lines, trim, trimmed};

verus! {

/// Why the puzzle has no answer.
#[derive(Debug, Clone, Copy, PartialEq, Eq, Structural)]
pub enum Day03Error {
    /// The sum does not fit a `u64`.
    Overflow,
    /// A pattern was turned down by the regular-expression engine.
    Pattern,
}

/// The digits of a line, in order.
pub open spec fn bank_digits(line: Seq<char>) -> Seq<i64> {
    digits_of(line, line.len() as int)
}

/// `best` is the greatest number `10 a + b` for a digit `a` of the bank and
/// a digit `b` after it; zero for a bank of fewer than two digits.
pub open spec fn is_best_pair(digits: Seq<i64>, best: int) -> bool {
    if digits.len() < 2 {
        best == 0
    } else {
        &&& exists|i: int, j: int|
            0 <= i < j < digits.len() && #[trigger] pair_value(digits, i, j) == best
        &&& forall|i: int, j: int|
            0 <= i < j < digits.len() ==> #[trigger] pair_value(digits, i, j) <= best
    }
}

/// The number that the digits at `i` and `j` write.
pub open spec fn pair_value(digits: Seq<i64>, i: int, j: int) -> int {
    10 * digits[i] + digits[j]
}

/// Every digit is between zero and nine.
pub proof fn lemma_digits_small(line: Seq<char>, n: int)
    requires
        n <= line.len(),
    ensures
        forall|i: int| 0 <= i < digits_of(line, n).len() ==> 0 <= #[trigger] digits_of(line, n)[i] <= 9,
    decreases n,
{
    if n > 0 {
        lemma_digits_small(line, n - 1);
        let before = digits_of(line, n - 1);
        assert forall|i: int| 0 <= i < digits_of(line, n).len() implies 0 <= #[trigger] digits_of(
            line,
            n,
        )[i] <= 9 by {
            if is_digit(line[n - 1]) {
                assert(0 <= digit_value(line[n - 1]) <= 9);
                assert(digits_of(line, n) == before.push(digit_value(line[n - 1]) as i64));
                if i < before.len() {
                    assert(digits_of(line, n)[i] == before[i]);
                }
            } else {
                assert(digits_of(line, n)[i] == before[i]);
            }
        }
    }
}

/// The digits of a line.
pub fn digits(line: &Vec<char>) -> (out: Vec<i64>)
    ensures
        out@ == bank_digits(line@),
        forall|i: int| 0 <= i < out@.len() ==> 0 <= #[trigger] out@[i] <= 9,
{
    let mut out: Vec<i64> = Vec::new();
    for k in 0..line.len()
        invariant
            out@ == digits_of(line@, k as int),
    {
        let c = line[k];
        if '0' <= c && c <= '9' {
            out.push((c as u32 - '0' as u32) as i64);
        }
    }
    proof {
        lemma_digits_small(line@, line@.len() as int);
    }
    out
}

/// The greatest number that two digits of the bank write, the first before
/// the second.
pub fn best_pair(digits: &Vec<i64>) -> (best: u64)
    requires
        forall|i: int| 0 <= i < digits@.len() ==> 0 <= #[trigger] digits@[i] <= 9,
    ensures
        is_best_pair(digits@, best as int),
        best <= 99,
{
    let n = digits.len();
    let mut best: u64 = 0;
    if n < 2 {
        return 0;
    }
    let ghost mut wi: int = 0;
    let ghost mut wj: int = 1;
    proof {
        assert(pair_value(digits@, 0, 1) >= 0);
    }
    let mut started = false;
    for i in 0..n
        invariant
            n == digits@.len(),
            n >= 2,
            forall|k: int| 0 <= k < digits@.len() ==> 0 <= #[trigger] digits@[k] <= 9,
            best <= 99,
            forall|a: int, b: int|
                0 <= a < b < n && a < i ==> #[trigger] pair_value(digits@, a, b) <= best,
            started ==> 0 <= wi < wj < n && pair_value(digits@, wi, wj) == best,
            !started ==> best == 0 && i <= 1 && (i == 1 ==> n < 2),
            i >= 1 ==> started,
    {
        for j in (i + 1)..n
            invariant
                n == digits@.len(),
                n >= 2,
                i < n,
                forall|k: int| 0 <= k < digits@.len() ==> 0 <= #[trigger] digits@[k] <= 9,
                best <= 99,
                forall|a: int, b: int|
                    0 <= a < b < n && a < i ==> #[trigger] pair_value(digits@, a, b) <= best,
                forall|b: int| i < b < j ==> #[trigger] pair_value(digits@, i as int, b) <= best,
                started ==> 0 <= wi < wj < n && pair_value(digits@, wi, wj) == best,
                !started ==> best == 0 && i == 0 && j == 1,
        {
            let val = (digits[i] as u64) * 10 + digits[j] as u64;
            if val > best || !started {
                best = val;
                started = true;
                proof {
                    wi = i as int;
                    wj = j as int;
                }
            }
        }
    }
    best
}

/// The greatest number that two digits of the line write, the first before
/// the second.
pub fn max_pair_value(line: &str) -> (best: u64)
    ensures
        is_best_pair(bank_digits(line@), best as int),
{
    broadcast use vstd::string::axiom_spec_iter;

    let mut chars: Vec<char> = Vec::new();
    for c in it: line.chars()
        invariant
            it.seq() == line@,
            chars@ == line@.subrange(0, it.index() as int),
    {
        chars.push(c);
        assert(line@.subrange(0, it.index() + 1) =~= line@.subrange(0, it.index() as int).push(c));
    }
    assert(chars@ =~= line@);
    let d = digits(&chars);
    best_pair(&d)
}

/// `sum` is the sum of the greatest pairs of the first `n` lines; blank
/// lines count nothing.
pub open spec fn is_bank_total(lines: Seq<Seq<char>>, n: int, sum: int) -> bool
    decreases n,
{
    if n <= 0 {
        sum == 0
    } else if trimmed(lines[n - 1]).len() == 0 {
        is_bank_total(lines, n - 1, sum)
    } else {
        exists|best: int|
            #[trigger] is_best_pair(bank_digits(lines[n - 1]), best) && is_bank_total(
                lines,
                n - 1,
                sum - best,
            )
    }
}

/// The answer: the sum of the greatest pairs of all banks, in decimal;
/// `Overflow` where the sum does not fit a `u64`.
pub fn part1(input: &str) -> (result: Result<String, Day03Error>)
    ensures
        match result {
            Ok(s) => exists|sum: int|
                #[trigger] is_bank_total(lines_of(input@), lines_of(input@).len() as int, sum) && 0
                    <= sum <= u64::MAX && s@ == decimal_chars(sum as nat),
            Err(e) => e == Day03Error::Overflow && exists|sum: int|
                #[trigger] is_bank_total(lines_of(input@), lines_of(input@).len() as int, sum)
                    && sum > u64::MAX,
        },
{
    let lines = split_lines(input);
    let ghost all = lines_of(input@);
    let mut sum: u128 = 0;
    for k in 0..lines.len()
        invariant
            all == lines_of(input@),
            lines@.len() == all.len(),
            forall|q: int| 0 <= q < lines@.len() ==> (#[trigger] lines@[q])@ == all[q],
            is_bank_total(all, k as int, sum as int),
            sum <= 99 * k,
    {
        assert(lines@[k as int]@ == all[k as int]);
        let t = trim(&lines[k]);
        if t.len() > 0 {
            let d = digits(&lines[k]);
            let best = best_pair(&d);
            proof {
                assert(is_best_pair(bank_digits(all[k + 1 - 1]), best as int) && is_bank_total(
                    all,
                    k + 1 - 1,
                    sum + best - best,
                ));
            }
            sum = sum + best as u128;
        }
    }
    if sum > u64::MAX as u128 {
        return Err(Day03Error::Overflow);
    }
    Ok(decimal_string(sum as u64))
}

} // verus!
