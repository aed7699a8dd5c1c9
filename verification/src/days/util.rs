//! Naming the days.

use vstd::prelude::*;
use crate::days::day10::answers::{decimal_chars, decimal_string};
use crate::ds::parsing::{is_digit, digit_value, trimmed, trim};

verus! {

/// The value of the decimal digits from `i` on, continuing from `acc`;
/// `None` where a character is no digit.
pub open spec fn number_from(s: Seq<char>, i: int, acc: int) -> Option<int>
    decreases s.len() - i,
{
    if i >= s.len() {
        Some(acc)
    } else if is_digit(s[i]) {
        number_from(s, i + 1, acc * 10 + digit_value(s[i]))
    } else {
        None
    }
}

/// The number that the characters from `start` on write: one or more
/// digits after an optional plus sign, with a value in the range of `u32`;
/// zero where they write no such number.
pub open spec fn day_number(s: Seq<char>, start: int) -> int {
    let first = if start < s.len() && s[start] == '+' {
        start + 1
    } else {
        start
    };
    if first >= s.len() {
        0
    } else {
        match number_from(s, first, 0) {
            Some(v) => if v <= u32::MAX {
                v
            } else {
                0
            },
            None => 0,
        }
    }
}

/// Whether the text starts with `day`, in capital or small letters.
pub open spec fn has_day_prefix(s: Seq<char>) -> bool {
    s.len() >= 3 && (s[0] == 'd' || s[0] == 'D') && (s[1] == 'a' || s[1] == 'A') && (s[2] == 'y'
        || s[2] == 'Y')
}

/// The number of the day that an id such as `1`, `01` or `day1` names.
pub open spec fn day_of(id: Seq<char>) -> int {
    let t = trimmed(id);
    if has_day_prefix(t) {
        day_number(t, 3)
    } else {
        day_number(t, 0)
    }
}

/// The canonical name of day `n`: `day` and the number in at least two
/// digits.
pub open spec fn day_name(n: nat) -> Seq<char> {
    if n < 10 {
        seq!['d', 'a', 'y', '0'] + decimal_chars(n)
    } else {
        seq!['d', 'a', 'y'] + decimal_chars(n)
    }
}

/// Digits can only raise the value.
proof fn lemma_number_grows(s: Seq<char>, i: int, acc: int)
    requires
        0 <= acc,
    ensures
        match number_from(s, i, acc) {
            Some(v) => v >= acc,
            None => true,
        },
    decreases s.len() - i,
{
    if i < s.len() && is_digit(s[i]) {
        lemma_number_grows(s, i + 1, acc * 10 + digit_value(s[i]));
    }
}

/// Reads the number that the characters from `start` on write.
fn read_day_number(t: &Vec<char>, start: usize) -> (n: u32)
    requires
        start <= t@.len(),
    ensures
        n == day_number(t@, start as int),
{
    let len = t.len();
    let first = if start < len && t[start] == '+' {
        start + 1
    } else {
        start
    };
    if first >= len {
        return 0;
    }
    let mut acc: u64 = 0;
    let mut i = first;
    while i < len
        invariant
            first <= i <= len,
            len == t@.len(),
            first < len,
            first == (if start < t@.len() && t@[start as int] == '+' {
                start + 1
            } else {
                start as int
            }),
            acc <= u32::MAX,
            number_from(t@, i as int, acc as int) == number_from(t@, first as int, 0),
        decreases len - i,
    {
        let c = t[i];
        if !('0' <= c && c <= '9') {
            assert(number_from(t@, i as int, acc as int) is None);
            return 0;
        }
        let next = acc * 10 + (c as u32 - '0' as u32) as u64;
        if next > u32::MAX as u64 {
            proof {
                lemma_number_grows(t@, i + 1, next as int);
                assert(number_from(t@, i as int, acc as int) == number_from(
                    t@,
                    i + 1,
                    next as int,
                ));
            }
            return 0;
        }
        acc = next;
        i += 1;
    }
    acc as u32
}

/// Turns an id such as `1`, `01` or `day1` into the canonical `day01`. An
/// id that names no number gives `day00`.
pub fn normalize_day(id: &str) -> (name: String)
    ensures
        name@ == day_name(day_of(id@) as nat),
{
    broadcast use vstd::string::axiom_spec_iter;

    let mut chars: Vec<char> = Vec::new();
    for c in it: id.chars()
        invariant
            it.seq() == id@,
            chars@ == id@.subrange(0, it.index() as int),
    {
        chars.push(c);
        assert(id@.subrange(0, it.index() + 1) =~= id@.subrange(0, it.index() as int).push(c));
    }
    assert(chars@ =~= id@);
    let t = trim(&chars);
    let prefixed = t.len() >= 3 && (t[0] == 'd' || t[0] == 'D') && (t[1] == 'a' || t[1] == 'A') && (
    t[2] == 'y' || t[2] == 'Y');
    let n = if prefixed {
        read_day_number(&t, 3)
    } else {
        read_day_number(&t, 0)
    };
    let digits = decimal_string(n as u64);
    let mut name = String::from_str("day");
    proof {
        reveal_strlit("day");
        reveal_strlit("0");
        assert("day"@ =~= seq!['d', 'a', 'y']);
    }
    if n < 10 {
        name.append("0");
    }
    name.append(digits.as_str());
    proof {
        if n < 10 {
            assert(name@ =~= seq!['d', 'a', 'y', '0'] + decimal_chars(n as nat));
        } else {
            assert(name@ =~= seq!['d', 'a', 'y'] + decimal_chars(n as nat));
        }
    }
    name
}

} // verus!
