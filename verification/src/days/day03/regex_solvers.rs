//! The greatest pair of a bank, found by asking a regular-expression engine
//! for each pair of digits in turn, from 99 down.

use vstd::prelude::*;
use crate::days::day03::bank::Day03Error;
use crate::days::day10::answers::{append_digit, digit_char};
use crate::ds::parsing::{is_digit, lines_of, split_lines, trim, trimmed};

verus! {

/// What the engine says of a pattern and a text: `None` where it turns the
/// pattern down, else whether the pattern matches somewhere in the text.
pub uninterp spec fn pattern_match(pattern: Seq<char>, text: Seq<char>) -> Option<bool>;

/// Compiles `pattern` with `regex::Regex::new` and asks `Regex::is_match`
/// for `text`. The contract claims only that the outcome is the same for
/// the same pattern and text; nothing of the engine's matching is stated.
#[verifier::external_body]
fn find_pattern(pattern: &str, text: &str) -> (found: Option<bool>)
    ensures
        found == pattern_match(pattern@, text@),
{
    match regex::Regex::new(pattern) {
        Ok(re) => Some(re.is_match(text)),
        Err(_) => None,
    }
}

/// The characters of a line that are digits, in order.
pub open spec fn digit_chars(line: Seq<char>, n: int) -> Seq<char>
    decreases n,
{
    if n <= 0 {
        Seq::empty()
    } else if is_digit(line[n - 1]) {
        digit_chars(line, n - 1).push(line[n - 1])
    } else {
        digit_chars(line, n - 1)
    }
}

/// The pattern that asks for the digit `a` and, somewhere after it, the
/// digit `b`: `(?s).*a.*b.*`.
pub open spec fn pair_pattern(a: int, b: int) -> Seq<char> {
    seq!['(', '?', 's', ')', '.', '*', digit_char(a), '.', '*', digit_char(b), '.', '*']
}

/// What the engine says of the pair that writes the number `k`.
pub open spec fn pair_found(text: Seq<char>, k: int) -> Option<bool> {
    pattern_match(pair_pattern(k / 10, k % 10), text)
}

/// The value that a run of outcomes decides, the first outcome being that
/// of 99, the next that of 98, and so on: the number of the first outcome
/// that is not a plain "no", if it is a "yes"; `Pattern` if it is a refusal;
/// zero where every outcome is a "no".
pub open spec fn decided(outcomes: Seq<Option<bool>>, i: int) -> Result<u64, Day03Error>
    decreases outcomes.len() - i,
{
    if i < 0 || i >= outcomes.len() || i > 99 {
        Ok(0)
    } else {
        match outcomes[i] {
            Some(true) => Ok((99 - i) as u64),
            Some(false) => decided(outcomes, i + 1),
            None => Err(Day03Error::Pattern),
        }
    }
}

/// The outcomes for the numbers from 99 down to `100 - n`.
pub open spec fn outcomes_of(text: Seq<char>, n: int) -> Seq<Option<bool>> {
    Seq::new(n as nat, |i: int| pair_found(text, 99 - i))
}

/// The greatest pair of a line as the engine finds it; zero for a line of
/// fewer than two digits, of which the engine is not asked.
pub open spec fn regex_pair(line: Seq<char>) -> Result<u64, Day03Error> {
    let text = digit_chars(line, line.len() as int);
    if text.len() < 2 {
        Ok(0)
    } else {
        decided(outcomes_of(text, 100), 0)
    }
}

/// The digits of a line as a string.
pub fn sanitize(line: &Vec<char>) -> (text: String)
    ensures
        text@ == digit_chars(line@, line@.len() as int),
{
    let mut text = String::new();
    for k in 0..line.len()
        invariant
            text@ == digit_chars(line@, k as int),
    {
        let c = line[k];
        if '0' <= c && c <= '9' {
            let d = (c as u32 - '0' as u32) as u8;
            append_digit(&mut text, d);
            assert(digit_char(d as int) == c);
        }
    }
    text
}

/// The pattern for the digits `a` and `b`.
pub fn pattern_for(a: u8, b: u8) -> (pattern: String)
    requires
        a < 10,
        b < 10,
    ensures
        pattern@ == pair_pattern(a as int, b as int),
{
    proof {
        reveal_strlit("(?s).*");
        reveal_strlit(".*");
    }
    let mut pattern = String::from_str("(?s).*");
    append_digit(&mut pattern, a);
    pattern.append(".*");
    append_digit(&mut pattern, b);
    pattern.append(".*");
    assert(pattern@ =~= pair_pattern(a as int, b as int));
    pattern
}

/// What a run of outcomes decides.
pub fn pair_from_outcomes(outcomes: &Vec<Option<bool>>) -> (result: Result<u64, Day03Error>)
    ensures
        result == decided(outcomes@, 0),
{
    let mut i: usize = 0;
    while i < outcomes.len() && i <= 99
        invariant
            decided(outcomes@, i as int) == decided(outcomes@, 0),
        decreases outcomes@.len() - i,
    {
        match outcomes[i] {
            Some(true) => {
                return Ok((99 - i) as u64);
            },
            Some(false) => {},
            None => {
                return Err(Day03Error::Pattern);
            },
        }
        i += 1;
    }
    Ok(0)
}

/// `decided` reads no outcome after the first that is not a plain "no".
pub proof fn lemma_decided_prefix(outcomes: Seq<Option<bool>>, longer: Seq<Option<bool>>, i: int)
    requires
        0 <= i,
        outcomes.len() <= longer.len(),
        forall|k: int| 0 <= k < outcomes.len() ==> outcomes[k] == longer[k],
        outcomes.len() == longer.len() || (i < outcomes.len() && outcomes.last() != Some(false)),
    ensures
        decided(outcomes, i) == decided(longer, i),
    decreases outcomes.len() - i,
{
    if i < outcomes.len() && i <= 99 && outcomes[i] == Some(false) {
        lemma_decided_prefix(outcomes, longer, i + 1);
    }
}

/// The greatest pair of a line as the engine finds it.
pub fn best_pair_regex(line: &Vec<char>) -> (result: Result<u64, Day03Error>)
    ensures
        result == regex_pair(line@),
{
    let text = sanitize(line);
    if text.as_str().unicode_len() < 2 {
        return Ok(0);
    }
    let mut outcomes: Vec<Option<bool>> = Vec::new();
    let mut k: u8 = 100;
    let mut open = true;
    while k > 0 && open
        invariant
            k <= 100,
            outcomes@ == outcomes_of(text@, 100 - k),
            open ==> forall|i: int| 0 <= i < outcomes@.len() ==> outcomes@[i] == Some(false),
            !open ==> outcomes@.len() > 0 && outcomes@.last() != Some(false),
        decreases k,
    {
        k -= 1;
        let pattern = pattern_for(k / 10, k % 10);
        let found = find_pattern(pattern.as_str(), text.as_str());
        outcomes.push(found);
        assert(outcomes@ =~= outcomes_of(text@, 100 - k));
        if found != Some(false) {
            open = false;
        }
    }
    proof {
        lemma_decided_prefix(outcomes@, outcomes_of(text@, 100), 0);
    }
    pair_from_outcomes(&outcomes)
}

/// `sum` is the sum of the engine's greatest pairs of the first `n` lines;
/// blank lines count nothing.
pub open spec fn regex_total(lines: Seq<Seq<char>>, n: int) -> Result<int, Day03Error>
    decreases n,
{
    if n <= 0 {
        Ok(0)
    } else {
        match regex_total(lines, n - 1) {
            Err(e) => Err(e),
            Ok(sum) => if trimmed(lines[n - 1]).len() == 0 {
                Ok(sum)
            } else {
                match regex_pair(lines[n - 1]) {
                    Ok(best) => Ok(sum + best),
                    Err(e) => Err(e),
                }
            },
        }
    }
}

/// The sum over the banks of the greatest pair that the engine finds.
pub fn sum_with_regex_part1(input: &str) -> (result: Result<u64, Day03Error>)
    ensures
        match regex_total(lines_of(input@), lines_of(input@).len() as int) {
            Ok(sum) => if sum <= u64::MAX {
                result == Ok::<u64, Day03Error>(sum as u64)
            } else {
                result == Err::<u64, Day03Error>(Day03Error::Overflow)
            },
            Err(e) => result == Err::<u64, Day03Error>(e),
        },
{
    let lines = split_lines(input);
    let ghost all = lines_of(input@);
    let mut sum: u128 = 0;
    for k in 0..lines.len()
        invariant
            all == lines_of(input@),
            lines@.len() == all.len(),
            forall|q: int| 0 <= q < lines@.len() ==> (#[trigger] lines@[q])@ == all[q],
            regex_total(all, k as int) == Ok::<int, Day03Error>(sum as int),
            sum <= 99 * k,
    {
        assert(lines@[k as int]@ == all[k as int]);
        let t = trim(&lines[k]);
        if t.len() > 0 {
            match best_pair_regex(&lines[k]) {
                Ok(best) => {
                    assert(best <= 99) by {
                        lemma_decided_small(outcomes_of(digit_chars(all[k as int], all[k as int].len() as int), 100), 0);
                    }
                    sum = sum + best as u128;
                },
                Err(e) => {
                    proof {
                        lemma_error_sticks(all, k + 1, all.len() as int);
                    }
                    return Err(e);
                },
            }
        }
    }
    if sum > u64::MAX as u128 {
        return Err(Day03Error::Overflow);
    }
    Ok(sum as u64)
}

/// A decided value is at most 99.
pub proof fn lemma_decided_small(outcomes: Seq<Option<bool>>, i: int)
    requires
        0 <= i,
    ensures
        decided(outcomes, i) matches Ok(v) ==> v <= 99,
    decreases outcomes.len() - i,
{
    if i < outcomes.len() && i <= 99 && outcomes[i] == Some(false) {
        lemma_decided_small(outcomes, i + 1);
    }
}

/// Once a line has failed, the sum of every longer run of lines fails the
/// same way.
pub proof fn lemma_error_sticks(lines: Seq<Seq<char>>, n: int, m: int)
    requires
        n <= m,
        regex_total(lines, n) is Err,
    ensures
        regex_total(lines, m) == regex_total(lines, n),
    decreases m - n,
{
    if n < m {
        lemma_error_sticks(lines, n, m - 1);
    }
}

} // verus!
