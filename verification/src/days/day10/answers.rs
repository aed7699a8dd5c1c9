//! The two answers of the factory puzzle: the presses summed over all
//! machines, for the toggle puzzle and for the increment puzzle.

use vstd::prelude::*;
use vstd::string::StringSliceAdditionalSpecFns;
use crate::days::day10::joltage::min_joltage_button_presses;
use crate::days::day10::linear::{satisfies, total};
use crate::days::day10::machine::machine_matrix;
use crate::days::day10::parse::{
    machine_view, machines_from, machines_view, parse_machines, LineError,
};
use crate::days::day10::solver::{is_least_total, SolveError};
use crate::days::day10::toggle::{min_button_presses, reachable_in, reachable_within};

verus! {

/// Why the puzzle has no answer.
#[derive(Debug, Clone, Copy, PartialEq, Eq, Structural)]
pub enum Day10Error {
    /// A line of the input is malformed.
    Parse(LineError),
    /// No sequence of presses gives the machine at this place its pattern.
    Unreachable { machine: usize },
    /// No press vector brings the counters of the machine at this place to
    /// their targets.
    Unsatisfiable { machine: usize },
    /// A sum of presses does not fit a `u64`.
    Overflow,
}

/// The character of a decimal digit.
pub open spec fn digit_char(d: int) -> char {
    if d == 0 {
        '0'
    } else if d == 1 {
        '1'
    } else if d == 2 {
        '2'
    } else if d == 3 {
        '3'
    } else if d == 4 {
        '4'
    } else if d == 5 {
        '5'
    } else if d == 6 {
        '6'
    } else if d == 7 {
        '7'
    } else if d == 8 {
        '8'
    } else {
        '9'
    }
}

/// The decimal digits of `n`, without leading zeros.
pub open spec fn decimal_chars(n: nat) -> Seq<char>
    decreases n,
{
    if n < 10 {
        seq![digit_char(n as int)]
    } else {
        decimal_chars(n / 10).push(digit_char((n % 10) as int))
    }
}

/// `d` is the least number of presses that gives the pattern `target`.
pub open spec fn is_least_presses(buttons: Seq<u128>, target: u128, d: int) -> bool {
    reachable_in(buttons, target, d) && !reachable_within(buttons, target, d - 1)
}

/// The sum of the least toggle presses of the first `n` machines.
pub open spec fn is_toggle_total(ms: Seq<(u128, Seq<u128>, Seq<u64>)>, n: int, sum: int) -> bool
    decreases n,
{
    if n <= 0 {
        sum == 0
    } else {
        exists|d: int|
            #[trigger] is_least_presses(ms[n - 1].1, ms[n - 1].0, d) && is_toggle_total(
                ms,
                n - 1,
                sum - d,
            )
    }
}

/// `t` is the least total of presses that brings the counters of the machine
/// to their joltage targets.
pub open spec fn is_least_joltage(m: (u128, Seq<u128>, Seq<u64>), t: int) -> bool {
    is_least_total(machine_matrix(m.1, m.2.len() as int), m.2, m.1.len() as int, t)
}

/// The sum of the least joltage presses of the first `n` machines.
pub open spec fn is_joltage_total(ms: Seq<(u128, Seq<u128>, Seq<u64>)>, n: int, sum: int) -> bool
    decreases n,
{
    if n <= 0 {
        sum == 0
    } else {
        exists|t: int|
            #[trigger] is_least_joltage(ms[n - 1], t) && is_joltage_total(ms, n - 1, sum - t)
    }
}

/// Appends the character of the digit `d`.
pub fn append_digit(s: &mut String, d: u8)
    requires
        d < 10,
    ensures
        final(s)@ == old(s)@.push(digit_char(d as int)),
{
    proof {
        reveal_strlit("0");
        reveal_strlit("1");
        reveal_strlit("2");
        reveal_strlit("3");
        reveal_strlit("4");
        reveal_strlit("5");
        reveal_strlit("6");
        reveal_strlit("7");
        reveal_strlit("8");
        reveal_strlit("9");
    }
    let ghost before = s@;
    if d == 0 {
        s.append("0");
    } else if d == 1 {
        s.append("1");
    } else if d == 2 {
        s.append("2");
    } else if d == 3 {
        s.append("3");
    } else if d == 4 {
        s.append("4");
    } else if d == 5 {
        s.append("5");
    } else if d == 6 {
        s.append("6");
    } else if d == 7 {
        s.append("7");
    } else if d == 8 {
        s.append("8");
    } else {
        s.append("9");
    }
    assert(s@ =~= before.push(digit_char(d as int)));
}

/// The decimal digits of `n` as a string.
pub fn decimal_string(n: u64) -> (s: String)
    ensures
        s@ == decimal_chars(n as nat),
{
    let mut digits: Vec<u8> = Vec::new();
    let mut rest = n;
    while rest >= 10
        invariant
            forall|k: int| 0 <= k < digits@.len() ==> digits@[k] < 10,
            decimal_chars(n as nat) == decimal_chars(rest as nat) + Seq::new(
                digits@.len(),
                |k: int| digit_char(digits@[digits@.len() - 1 - k] as int),
            ),
        decreases rest,
    {
        let ghost before = digits@;
        let d = (rest % 10) as u8;
        digits.push(d);
        proof {
            let tail_before = Seq::new(
                before.len(),
                |k: int| digit_char(before[before.len() - 1 - k] as int),
            );
            let tail_after = Seq::new(
                digits@.len(),
                |k: int| digit_char(digits@[digits@.len() - 1 - k] as int),
            );
            assert(tail_after =~= seq![digit_char(d as int)] + tail_before);
            assert(decimal_chars(rest as nat) == decimal_chars((rest / 10) as nat).push(
                digit_char(d as int),
            ));
            assert(decimal_chars((rest / 10) as nat).push(digit_char(d as int)) + tail_before
                =~= decimal_chars((rest / 10) as nat) + tail_after);
        }
        rest = rest / 10;
    }
    digits.push(rest as u8);
    let mut s = String::new();
    let mut k = digits.len();
    let ghost all = Seq::new(digits@.len(), |j: int| digit_char(digits@[digits@.len() - 1 - j] as int));
    proof {
        let shorter = digits@.drop_last();
        let tail = Seq::new(shorter.len(), |j: int| digit_char(shorter[shorter.len() - 1 - j] as int));
        assert(all =~= seq![digit_char(rest as int)] + tail);
        assert(decimal_chars(rest as nat) =~= seq![digit_char(rest as int)]);
        assert(decimal_chars(n as nat) == all);
    }
    while k > 0
        invariant
            k <= digits@.len(),
            forall|j: int| 0 <= j < digits@.len() ==> digits@[j] < 10,
            all == Seq::new(
                digits@.len(),
                |j: int| digit_char(digits@[digits@.len() - 1 - j] as int),
            ),
            s@ == all.subrange(0, digits@.len() - k),
        decreases k,
    {
        k -= 1;
        let d = digits[k];
        let ghost before = s@;
        append_digit(&mut s, d);
        assert(s@ =~= before.push(digit_char(d as int)));
        assert(all.subrange(0, digits@.len() - k) =~= all.subrange(
            0,
            digits@.len() - k - 1,
        ).push(all[digits@.len() - k - 1]));
    }
    assert(all.subrange(0, digits@.len() as int) =~= all);
    s
}

/// The machines that the input describes.
pub open spec fn parsed(input: &str) -> Result<Seq<(u128, Seq<u128>, Seq<u64>)>, LineError> {
    machines_from(input.spec_bytes(), 0, 0, Seq::empty())
}

/// The answer of the toggle puzzle: the least presses that give each machine
/// its indicator pattern, summed over all machines, in decimal.
pub fn part1(input: &str) -> (result: Result<String, Day10Error>)
    ensures
        match result {
            Ok(s) => exists|sum: int|
                parsed(input) is Ok && #[trigger] is_toggle_total(
                    parsed(input).unwrap(),
                    parsed(input).unwrap().len() as int,
                    sum,
                ) && 0 <= sum <= u64::MAX && s@ == decimal_chars(sum as nat),
            Err(Day10Error::Parse(e)) => parsed(input) == Err::<
                Seq<(u128, Seq<u128>, Seq<u64>)>,
                LineError,
            >(e),
            Err(Day10Error::Unreachable { machine }) => {
                &&& parsed(input) is Ok
                &&& machine < parsed(input).unwrap().len()
                &&& forall|d: int|
                    0 <= d ==> !reachable_in(
                        parsed(input).unwrap()[machine as int].1,
                        parsed(input).unwrap()[machine as int].0,
                        d,
                    )
            },
            Err(Day10Error::Overflow) => exists|n: int, sum: int|
                parsed(input) is Ok && 0 <= n <= parsed(input).unwrap().len()
                    && #[trigger] is_toggle_total(parsed(input).unwrap(), n, sum) && sum > u64::MAX,
            Err(Day10Error::Unsatisfiable { machine }) => false,
        },
{
    let machines = match parse_machines(input) {
        Ok(machines) => machines,
        Err(e) => {
            return Err(Day10Error::Parse(e));
        },
    };
    let ghost ms = machines_view(machines@);
    let mut sum: u64 = 0;
    for i in 0..machines.len()
        invariant
            parsed(input) == Ok::<Seq<(u128, Seq<u128>, Seq<u64>)>, LineError>(ms),
            ms == machines_view(machines@),
            is_toggle_total(ms, i as int, sum as int),
    {
        let presses = match min_button_presses(&machines[i]) {
            Some(presses) => presses,
            None => {
                return Err(Day10Error::Unreachable { machine: i });
            },
        };
        proof {
            assert(ms[i as int] == machine_view(machines@[i as int]));
            assert(is_least_presses(ms[i + 1 - 1].1, ms[i + 1 - 1].0, presses as int)
                && is_toggle_total(ms, i + 1 - 1, sum + presses - presses));
            assert(is_toggle_total(ms, i + 1, sum + presses));
        }
        sum = match sum.checked_add(presses) {
            Some(sum) => sum,
            None => {
                proof {
                    assert(parsed(input).unwrap() == ms);
                    assert(0 <= i + 1 <= ms.len() && is_toggle_total(ms, i + 1, sum + presses)
                        && sum + presses > u64::MAX);
                }
                return Err(Day10Error::Overflow);
            },
        };
    }
    proof {
        assert(parsed(input).unwrap() == ms);
        assert(is_toggle_total(ms, ms.len() as int, sum as int));
    }
    Ok(decimal_string(sum))
}

/// The answer of the increment puzzle: the least presses that bring the
/// counters of each machine to their joltage targets, summed over all
/// machines, in decimal.
pub fn part2(input: &str) -> (result: Result<String, Day10Error>)
    ensures
        match result {
            Ok(s) => exists|sum: int|
                parsed(input) is Ok && #[trigger] is_joltage_total(
                    parsed(input).unwrap(),
                    parsed(input).unwrap().len() as int,
                    sum,
                ) && 0 <= sum <= u64::MAX && s@ == decimal_chars(sum as nat),
            Err(Day10Error::Parse(e)) => parsed(input) == Err::<
                Seq<(u128, Seq<u128>, Seq<u64>)>,
                LineError,
            >(e),
            Err(Day10Error::Unsatisfiable { machine }) => {
                &&& parsed(input) is Ok
                &&& machine < parsed(input).unwrap().len()
                &&& forall|x: Seq<u64>|
                    x.len() == parsed(input).unwrap()[machine as int].1.len() ==> !#[trigger] satisfies(
                        machine_matrix(
                            parsed(input).unwrap()[machine as int].1,
                            parsed(input).unwrap()[machine as int].2.len() as int,
                        ),
                        parsed(input).unwrap()[machine as int].2,
                        x,
                    )
            },
            Err(Day10Error::Overflow) => exists|n: int, sum: int|
                parsed(input) is Ok && 0 <= n <= parsed(input).unwrap().len()
                    && #[trigger] is_joltage_total(parsed(input).unwrap(), n, sum) && sum > u64::MAX,
            Err(Day10Error::Unreachable { machine }) => false,
        },
{
    let machines = match parse_machines(input) {
        Ok(machines) => machines,
        Err(e) => {
            return Err(Day10Error::Parse(e));
        },
    };
    let ghost ms = machines_view(machines@);
    let mut sum: u64 = 0;
    for i in 0..machines.len()
        invariant
            parsed(input) == Ok::<Seq<(u128, Seq<u128>, Seq<u64>)>, LineError>(ms),
            ms == machines_view(machines@),
            is_joltage_total(ms, i as int, sum as int),
    {
        let presses = match min_joltage_button_presses(&machines[i]) {
            Ok(presses) => presses,
            Err(SolveError::Unsatisfiable) => {
                proof {
                    assert(ms[i as int] == machine_view(machines@[i as int]));
                }
                return Err(Day10Error::Unsatisfiable { machine: i });
            },
            Err(SolveError::Overflow) => {
                proof {
                    assert(ms[i as int] == machine_view(machines@[i as int]));
                    let m = machines@[i as int];
                    let t = choose|t: int|
                        t > u64::MAX && #[trigger] is_least_total(
                            machine_matrix(m.buttons@, m.joltage@.len() as int),
                            m.joltage@,
                            m.buttons@.len() as int,
                            t,
                        );
                    assert(is_least_joltage(ms[i + 1 - 1], t) && is_joltage_total(
                        ms,
                        i + 1 - 1,
                        sum + t - t,
                    ));
                    assert(is_joltage_total(ms, i + 1, sum + t));
                    assert(parsed(input).unwrap() == ms);
                    assert(0 <= i + 1 <= ms.len() && is_joltage_total(ms, i + 1, sum + t) && sum + t
                        > u64::MAX);
                }
                return Err(Day10Error::Overflow);
            },
        };
        proof {
            assert(ms[i as int] == machine_view(machines@[i as int]));
            assert(is_least_joltage(ms[i + 1 - 1], presses as int) && is_joltage_total(
                ms,
                i + 1 - 1,
                sum + presses - presses,
            ));
            assert(is_joltage_total(ms, i + 1, sum + presses));
        }
        sum = match sum.checked_add(presses) {
            Some(sum) => sum,
            None => {
                proof {
                    assert(parsed(input).unwrap() == ms);
                    assert(0 <= i + 1 <= ms.len() && is_joltage_total(ms, i + 1, sum + presses)
                        && sum + presses > u64::MAX);
                }
                return Err(Day10Error::Overflow);
            },
        };
    }
    proof {
        assert(parsed(input).unwrap() == ms);
        assert(is_joltage_total(ms, ms.len() as int, sum as int));
    }
    Ok(decimal_string(sum))
}

} // verus!
