//! The greatest number that twelve digits of a bank write, in the order in
//! which they stand.

use vstd::prelude::*;
use crate::days::day03::bank::{bank_digits, digits, Day03Error};
use crate::days::day10::answers::{decimal_chars, decimal_string};
use crate::ds::parsing::{lines_of, split_lines, trim, trimmed};

verus! {

/// Ten to the power `k`.
pub open spec fn pow10(k: int) -> int
    decreases k,
{
    if k <= 0 {
        1
    } else {
        10 * pow10(k - 1)
    }
}

/// The greatest number that `k` of the digits from `from` on write, in
/// their order: the digit at `from` is either the first of them or left
/// out. Where fewer than `k` digits are left, there is none: -1.
pub open spec fn best_tail(d: Seq<i64>, from: int, k: int) -> int
    decreases d.len() - from,
{
    if k <= 0 {
        0
    } else if from < 0 || d.len() - from < k {
        -1
    } else {
        let take = d[from] * pow10(k - 1) + best_tail(d, from + 1, k - 1);
        let skip = best_tail(d, from + 1, k);
        if take >= skip {
            take
        } else {
            skip
        }
    }
}

/// How many digits are picked: twelve, or all where there are fewer.
pub open spec fn picked(d: Seq<i64>) -> int {
    if d.len() <= 12 {
        d.len() as int
    } else {
        12
    }
}

/// Every digit is between zero and nine.
pub open spec fn small_digits(d: Seq<i64>) -> bool {
    forall|i: int| 0 <= i < d.len() ==> 0 <= #[trigger] d[i] <= 9
}

/// Powers of ten are positive.
pub proof fn lemma_pow10_positive(k: int)
    ensures
        pow10(k) >= 1,
    decreases k,
{
    if k > 0 {
        lemma_pow10_positive(k - 1);
    }
}

/// The powers of ten up to the twelfth.
pub proof fn lemma_pow10_small()
    ensures
        pow10(12) == 1_000_000_000_000,
        forall|k: int| k <= 12 ==> #[trigger] pow10(k) <= 1_000_000_000_000,
{
    assert(pow10(0) == 1);
    assert(pow10(1) == 10);
    assert(pow10(2) == 100);
    assert(pow10(3) == 1_000);
    assert(pow10(4) == 10_000);
    assert(pow10(5) == 100_000);
    assert(pow10(6) == 1_000_000);
    assert(pow10(7) == 10_000_000);
    assert(pow10(8) == 100_000_000);
    assert(pow10(9) == 1_000_000_000);
    assert(pow10(10) == 10_000_000_000);
    assert(pow10(11) == 100_000_000_000);
    assert(pow10(12) == 1_000_000_000_000);
    assert forall|k: int| k <= 12 implies #[trigger] pow10(k) <= 1_000_000_000_000 by {
        if k <= 0 {
        } else if k == 1 {
        } else if k == 2 {
        } else if k == 3 {
        } else if k == 4 {
        } else if k == 5 {
        } else if k == 6 {
        } else if k == 7 {
        } else if k == 8 {
        } else if k == 9 {
        } else if k == 10 {
        } else if k == 11 {
        } else {
        }
    }
}

/// A number of `k` digits is below ten to the `k`; it is not negative
/// where enough digits are left.
pub proof fn lemma_best_bound(d: Seq<i64>, from: int, k: int)
    requires
        small_digits(d),
        0 <= k,
    ensures
        -1 <= best_tail(d, from, k) < pow10(k),
        0 <= from && d.len() - from >= k ==> best_tail(d, from, k) >= 0,
    decreases d.len() - from,
{
    lemma_pow10_positive(k);
    if k > 0 && from >= 0 && d.len() - from >= k {
        lemma_best_bound(d, from + 1, k - 1);
        lemma_best_bound(d, from + 1, k);
        let p = pow10(k - 1);
        let rest = best_tail(d, from + 1, k - 1);
        let first = d[from] as int;
        assert(first * p <= 9 * p) by (nonlinear_arith)
            requires
                first <= 9,
                p >= 1,
        ;
        assert(first * p + rest < 10 * p);
        assert(d[from] * p >= 0) by (nonlinear_arith)
            requires
                0 <= d[from],
                p >= 1,
        ;
    }
}

/// Starting later never gives more.
pub proof fn lemma_best_later(d: Seq<i64>, a: int, b: int, k: int)
    requires
        small_digits(d),
        0 <= k,
        0 <= a <= b,
    ensures
        best_tail(d, b, k) <= best_tail(d, a, k),
    decreases b - a,
{
    if a < b {
        lemma_best_later(d, a + 1, b, k);
        lemma_best_bound(d, a + 1, k);
        lemma_best_bound(d, a, k);
    }
}

/// From `start` on, where no digit that can still be the first exceeds
/// `m`, nothing beats `m` followed by the best of what comes after `p`.
pub proof fn lemma_best_capped(d: Seq<i64>, start: int, k: int, p: int, m: int)
    requires
        small_digits(d),
        1 <= k,
        0 <= p < start,
        forall|q: int| start <= q <= d.len() - k ==> #[trigger] d[q] <= m,
        p + k <= d.len(),
        0 <= m,
    ensures
        best_tail(d, start, k) <= m * pow10(k - 1) + best_tail(d, p + 1, k - 1),
    decreases d.len() - start,
{
    lemma_best_bound(d, p + 1, k - 1);
    lemma_pow10_positive(k - 1);
    let w = pow10(k - 1);
    assert(m * w >= 0) by (nonlinear_arith)
        requires
            m >= 0,
            w >= 1,
    ;
    if d.len() - start >= k {
        lemma_best_capped(d, start + 1, k, p, m);
        lemma_best_later(d, p + 1, start + 1, k - 1);
        let first = d[start];
        assert(first * w <= m * w) by (nonlinear_arith)
            requires
                first <= m,
                w >= 1,
        ;
    }
}

/// The first digit of the greatest number is the greatest digit that can
/// still be first, at its leftmost place.
pub proof fn lemma_window_choice(d: Seq<i64>, from: int, k: int, p: int)
    requires
        small_digits(d),
        1 <= k,
        0 <= from <= p,
        p + k <= d.len(),
        forall|q: int| from <= q < p ==> #[trigger] d[q] < d[p],
        forall|q: int| p <= q <= d.len() - k ==> #[trigger] d[q] <= d[p],
    ensures
        best_tail(d, from, k) == d[p] * pow10(k - 1) + best_tail(d, p + 1, k - 1),
    decreases p - from,
{
    let w = pow10(k - 1);
    lemma_pow10_positive(k - 1);
    lemma_best_bound(d, p + 1, k - 1);
    if from == p {
        lemma_best_capped(d, p + 1, k, p, d[p] as int);
    } else {
        lemma_window_choice(d, from + 1, k, p);
        lemma_best_bound(d, from + 1, k - 1);
        let first = d[from];
        let top = d[p];
        let rest = best_tail(d, from + 1, k - 1);
        assert(first * w + rest < top * w) by (nonlinear_arith)
            requires
                first < top,
                rest < w,
                w >= 1,
        ;
    }
}

/// The greatest number that twelve digits of the bank write, in their
/// order; that of all its digits where it has no more than twelve.
pub fn best_pick(d: &Vec<i64>) -> (best: u64)
    requires
        small_digits(d@),
    ensures
        best == best_tail(d@, 0, picked(d@)),
{
    let n = d.len();
    let count: usize = if n <= 12 { n } else { 12 };
    let mut k: usize = count;
    let mut from: usize = 0;
    let mut acc: u64 = 0;
    proof {
        lemma_best_bound(d@, 0, count as int);
        lemma_pow10_small();
    }
    while k > 0
        invariant
            n == d@.len(),
            small_digits(d@),
            k <= count <= 12,
            from + k <= n,
            acc * pow10(k as int) + best_tail(d@, from as int, k as int) == best_tail(
                d@,
                0,
                count as int,
            ),
            best_tail(d@, 0, count as int) < 1_000_000_000_000,
            acc >= 0,
        decreases k,
    {
        let last = n - k;
        let mut p = from;
        let mut q = from + 1;
        while q <= last
            invariant
                n == d@.len(),
                from <= p < q <= last + 1,
                last == n - k,
                last < n,
                forall|x: int| from <= x < p ==> #[trigger] d@[x] < d@[p as int],
                forall|x: int| p <= x < q ==> #[trigger] d@[x] <= d@[p as int],
            decreases last + 1 - q,
        {
            if d[q] > d[p] {
                p = q;
            }
            q += 1;
        }
        proof {
            lemma_window_choice(d@, from as int, k as int, p as int);
            lemma_best_bound(d@, p + 1, k - 1);
            lemma_pow10_positive(k - 1);
            let w = pow10(k - 1);
            let digit = d@[p as int];
            assert((acc * 10 + digit) * w == acc * (10 * w) + digit * w) by (nonlinear_arith);
            assert((acc * 10 + digit) * w <= best_tail(d@, 0, count as int));
            assert(acc * 10 + digit < 1_000_000_000_000) by (nonlinear_arith)
                requires
                    (acc * 10 + digit) * w < 1_000_000_000_000,
                    w >= 1,
                    acc * 10 + digit >= 0,
            ;
        }
        acc = acc * 10 + d[p] as u64;
        from = p + 1;
        k -= 1;
    }
    acc
}

/// The greatest number that twelve digits of the line write, in their
/// order.
pub fn max_subsequence_value(line: &str) -> (best: u64)
    ensures
        best == best_tail(bank_digits(line@), 0, picked(bank_digits(line@))),
{
    broadcast use vstd::string::axiom_spec_iter;

    let mut chars: Vec<char> = Vec::new();
    for c in it: line.chars()
        invariant
            it.seq() == line@,
            chars@ == line@.subrange(0, it.index() as int),
    {
        chars.push(c);
        assert(line@.subrange(0, it.index() + 1) =~= line@.subrange(0, it.index() as int).push(c));
    }
    assert(chars@ =~= line@);
    let d = digits(&chars);
    best_pick(&d)
}

/// The sum of the greatest picks of the first `n` lines; blank lines count
/// nothing.
pub open spec fn pick_total(lines: Seq<Seq<char>>, n: int) -> int
    decreases n,
{
    if n <= 0 {
        0
    } else if trimmed(lines[n - 1]).len() == 0 {
        pick_total(lines, n - 1)
    } else {
        pick_total(lines, n - 1) + best_tail(
            bank_digits(lines[n - 1]),
            0,
            picked(bank_digits(lines[n - 1])),
        )
    }
}

/// The answer: the sum of the greatest picks of all banks, in decimal;
/// `Overflow` where the sum does not fit a `u64`.
pub fn part2(input: &str) -> (result: Result<String, Day03Error>)
    ensures
        match result {
            Ok(s) => {
                let sum = pick_total(lines_of(input@), lines_of(input@).len() as int);
                0 <= sum <= u64::MAX && s@ == decimal_chars(sum as nat)
            },
            Err(e) => e == Day03Error::Overflow && pick_total(
                lines_of(input@),
                lines_of(input@).len() as int,
            ) > u64::MAX,
        },
{
    let lines = split_lines(input);
    let ghost all = lines_of(input@);
    let mut sum: u128 = 0;
    for k in 0..lines.len()
        invariant
            all == lines_of(input@),
            lines@.len() == all.len(),
            forall|q: int| 0 <= q < lines@.len() ==> (#[trigger] lines@[q])@ == all[q],
            pick_total(all, k as int) == sum,
            sum <= 0xffff_ffff_ffff_ffff * k,
    {
        assert(lines@[k as int]@ == all[k as int]);
        let t = trim(&lines[k]);
        if t.len() > 0 {
            let d = digits(&lines[k]);
            let best = best_pick(&d);
            sum = sum + best as u128;
        }
    }
    if sum > u64::MAX as u128 {
        return Err(Day03Error::Overflow);
    }
    Ok(decimal_string(sum as u64))
}

} // verus!
