//! Scanning bytes: blanks, separators and decimal numbers.

use vstd::prelude::*;

verus! {

/// Whether `b` is an ASCII blank: space, tab, line feed, vertical tab, form
/// feed or carriage return.
pub open spec fn is_blank(b: u8) -> bool {
    b == 32 || (9 <= b <= 13)
}

/// The first position from `i` on, below `end`, that holds no blank; `end`
/// when there is none.
pub open spec fn skip_blanks(s: Seq<u8>, i: int, end: int) -> int
    decreases end - i,
{
    if i < end && is_blank(s[i]) {
        skip_blanks(s, i + 1, end)
    } else {
        i
    }
}

/// The position after the last byte below `end`, at or after `start`, that
/// is no blank; `start` when there is none.
pub open spec fn drop_blanks(s: Seq<u8>, start: int, end: int) -> int
    decreases end - start,
{
    if start < end && is_blank(s[end - 1]) {
        drop_blanks(s, start, end - 1)
    } else {
        end
    }
}

/// The first position from `i` on, below `end`, that holds `b`; `end` when
/// there is none.
pub open spec fn find_byte(s: Seq<u8>, i: int, end: int, b: u8) -> int
    decreases end - i,
{
    if i < end && s[i] != b {
        find_byte(s, i + 1, end, b)
    } else {
        i
    }
}

/// The value of the decimal digits from `i` up to `end`, continuing from the
/// value `acc` of the digits before them; `None` where a byte is no digit.
pub open spec fn digits_from(s: Seq<u8>, i: int, end: int, acc: int) -> Option<int>
    decreases end - i,
{
    if i >= end {
        Some(acc)
    } else if 48 <= s[i] <= 57 {
        digits_from(s, i + 1, end, acc * 10 + (s[i] - 48))
    } else {
        None
    }
}

/// The number written from `start` up to `end`: one or more decimal digits,
/// after an optional plus sign, whose value is at most `limit`.
pub open spec fn number_at(s: Seq<u8>, start: int, end: int, limit: int) -> Option<int> {
    let first = if start < end && s[start] == 43 {
        start + 1
    } else {
        start
    };
    if first >= end {
        None
    } else {
        match digits_from(s, first, end, 0) {
            Some(v) => if v <= limit {
                Some(v)
            } else {
                None
            },
            None => None,
        }
    }
}

/// Digits can only raise the value.
pub proof fn lemma_digits_grow(s: Seq<u8>, i: int, end: int, acc: int)
    requires
        0 <= acc,
    ensures
        match digits_from(s, i, end, acc) {
            Some(v) => v >= acc,
            None => true,
        },
    decreases end - i,
{
    if i < end && 48 <= s[i] <= 57 {
        lemma_digits_grow(s, i + 1, end, acc * 10 + (s[i] - 48));
    }
}

/// Whether `b` is an ASCII blank.
pub fn blank(b: u8) -> (r: bool)
    ensures
        r == is_blank(b),
{
    b == 32 || (9 <= b && b <= 13)
}

/// Skips the blanks from `start` on.
pub fn trim_start(bytes: &[u8], start: usize, end: usize) -> (pos: usize)
    requires
        start <= end <= bytes@.len(),
    ensures
        pos == skip_blanks(bytes@, start as int, end as int),
        start <= pos <= end,
{
    let mut i = start;
    while i < end && blank(bytes[i])
        invariant
            start <= i <= end <= bytes@.len(),
            skip_blanks(bytes@, i as int, end as int) == skip_blanks(
                bytes@,
                start as int,
                end as int,
            ),
        decreases end - i,
    {
        i += 1;
    }
    i
}

/// Drops the blanks before `end`.
pub fn trim_end(bytes: &[u8], start: usize, end: usize) -> (pos: usize)
    requires
        start <= end <= bytes@.len(),
    ensures
        pos == drop_blanks(bytes@, start as int, end as int),
        start <= pos <= end,
{
    let mut e = end;
    while start < e && blank(bytes[e - 1])
        invariant
            start <= e <= end <= bytes@.len(),
            drop_blanks(bytes@, start as int, e as int) == drop_blanks(
                bytes@,
                start as int,
                end as int,
            ),
        decreases e - start,
    {
        e -= 1;
    }
    e
}

/// Finds the first `b` from `start` on.
pub fn find(bytes: &[u8], start: usize, end: usize, b: u8) -> (pos: usize)
    requires
        start <= end <= bytes@.len(),
    ensures
        pos == find_byte(bytes@, start as int, end as int, b),
        start <= pos <= end,
        pos < end ==> bytes@[pos as int] == b,
{
    let mut i = start;
    while i < end && bytes[i] != b
        invariant
            start <= i <= end <= bytes@.len(),
            find_byte(bytes@, i as int, end as int, b) == find_byte(
                bytes@,
                start as int,
                end as int,
                b,
            ),
        decreases end - i,
    {
        i += 1;
    }
    i
}

/// Reads the number written from `start` up to `end`.
pub fn parse_number(bytes: &[u8], start: usize, end: usize) -> (value: Option<u64>)
    requires
        start <= end <= bytes@.len(),
    ensures
        match value {
            Some(v) => number_at(bytes@, start as int, end as int, u64::MAX as int) == Some(
                v as int,
            ),
            None => number_at(bytes@, start as int, end as int, u64::MAX as int) is None,
        },
{
    let first = if start < end && bytes[start] == 43 {
        start + 1
    } else {
        start
    };
    if first >= end {
        return None;
    }
    let mut acc: u64 = 0;
    let mut i = first;
    while i < end
        invariant
            first <= i <= end <= bytes@.len(),
            first < end,
            first == (if start < end && bytes@[start as int] == 43 {
                start + 1
            } else {
                start as int
            }),
            digits_from(bytes@, i as int, end as int, acc as int) == digits_from(
                bytes@,
                first as int,
                end as int,
                0,
            ),
        decreases end - i,
    {
        let b = bytes[i];
        if b < 48 || b > 57 {
            assert(digits_from(bytes@, i as int, end as int, acc as int) is None);
            return None;
        }
        let digit = (b - 48) as u64;
        if acc > (u64::MAX - digit) / 10 {
            proof {
                lemma_digits_grow(bytes@, i + 1, end as int, acc * 10 + digit);
                assert(digits_from(bytes@, i as int, end as int, acc as int) == digits_from(
                    bytes@,
                    i + 1,
                    end as int,
                    acc * 10 + digit,
                ));
            }
            return None;
        }
        acc = acc * 10 + digit;
        i += 1;
    }
    Some(acc)
}

} // verus!
