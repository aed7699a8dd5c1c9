//! Reading machine descriptions.

use vstd::prelude::*;
use vstd::string::StringSliceAdditionalSpecFns;
use crate::days::day10::grammar::{
    button_from, buttons_from, increasing, insert_pos, insert_sorted, joltage_from, machine_at,
    pattern_from, ParseError,
};
use crate::days::day10::machine::Machine;
use crate::days::day10::scan::{find, find_byte, parse_number, trim_end, trim_start};

verus! {

/// A parse error and the line it was found on.
#[derive(Debug, Clone, Copy, PartialEq, Eq, Structural)]
pub struct LineError {
    /// The number of lines before the malformed one.
    pub line_index: usize,
    /// What is wrong with the line.
    pub error: ParseError,
}

/// A machine as the grammar describes it: target pattern, buttons, joltage.
pub open spec fn machine_view(m: Machine) -> (u128, Seq<u128>, Seq<u64>) {
    (m.target, m.buttons@, m.joltage@)
}

/// The machines as the grammar describes them.
pub open spec fn machines_view(ms: Seq<Machine>) -> Seq<(u128, Seq<u128>, Seq<u64>)> {
    Seq::new(ms.len(), |i: int| machine_view(ms[i]))
}

/// The machines that the lines from position `i` on describe, after those of
/// `acc`; `line` is the number of lines before position `i`.
pub open spec fn machines_from(
    s: Seq<u8>,
    i: int,
    line: int,
    acc: Seq<(u128, Seq<u128>, Seq<u64>)>,
) -> Result<Seq<(u128, Seq<u128>, Seq<u64>)>, LineError>
    decreases s.len() - i,
{
    if i >= s.len() {
        Ok(acc)
    } else {
        let stop = find_byte(s, i, s.len() as int, 10);
        match machine_at(s, i, stop) {
            Err(error) => Err(LineError { line_index: line as usize, error }),
            Ok(found) => {
                let more = match found {
                    Some(m) => acc.push(m),
                    None => acc,
                };
                if i <= stop < s.len() {
                    machines_from(s, stop + 1, line + 1, more)
                } else {
                    Ok(more)
                }
            },
        }
    }
}

/// Reads an indicator pattern of at most 128 lights.
pub fn parse_pattern(bytes: &[u8], start: usize, end: usize) -> (result: Result<u128, ParseError>)
    requires
        start <= end <= bytes@.len(),
        end - start <= 128,
    ensures
        result == pattern_from(bytes@, start as int, end as int, 0, 0),
{
    let mut target: u128 = 0;
    let mut i = start;
    while i < end
        invariant
            start <= i <= end <= bytes@.len(),
            end - start <= 128,
            pattern_from(bytes@, i as int, end as int, i - start, target) == pattern_from(
                bytes@,
                start as int,
                end as int,
                0,
                0,
            ),
        decreases end - i,
    {
        let b = bytes[i];
        if b == 35 {
            target = target | (1u128 << ((i - start) as u128));
        } else if b != 46 {
            return Err(ParseError::InvalidLight);
        }
        i += 1;
    }
    Ok(target)
}

/// Reads a button: the comma-separated indices of the lights it affects,
/// each below `lights`.
pub fn parse_button(bytes: &[u8], start: usize, end: usize, lights: usize) -> (result: Result<
    u128,
    ParseError,
>)
    requires
        start <= end <= bytes@.len(),
        lights <= 128,
    ensures
        result == button_from(bytes@, start as int, end as int, lights as int, 0),
{
    let mut mask: u128 = 0;
    let mut i = start;
    loop
        invariant
            start <= i <= end <= bytes@.len(),
            lights <= 128,
            button_from(bytes@, i as int, end as int, lights as int, mask) == button_from(
                bytes@,
                start as int,
                end as int,
                lights as int,
                0,
            ),
        decreases end - i,
    {
        let stop = find(bytes, i, end, 44);
        let a = trim_start(bytes, i, stop);
        let b = trim_end(bytes, a, stop);
        if a != b {
            match parse_number(bytes, a, b) {
                None => {
                    return Err(ParseError::InvalidIndex);
                },
                Some(v) => {
                    if v >= lights as u64 {
                        return Err(ParseError::IndexOutOfRange);
                    }
                    mask = mask | (1u128 << (v as u128));
                },
            }
        }
        if stop >= end {
            return Ok(mask);
        }
        i = stop + 1;
    }
}

/// Reads the comma-separated joltage targets.
pub fn parse_joltage(bytes: &[u8], start: usize, end: usize) -> (result: Result<
    Vec<u64>,
    ParseError,
>)
    requires
        start <= end <= bytes@.len(),
    ensures
        match result {
            Ok(v) => joltage_from(bytes@, start as int, end as int, Seq::empty()) == Ok::<
                Seq<u64>,
                ParseError,
            >(v@),
            Err(e) => joltage_from(bytes@, start as int, end as int, Seq::empty()) == Err::<
                Seq<u64>,
                ParseError,
            >(e),
        },
{
    let mut out: Vec<u64> = Vec::new();
    let mut i = start;
    loop
        invariant
            start <= i <= end <= bytes@.len(),
            joltage_from(bytes@, i as int, end as int, out@) == joltage_from(
                bytes@,
                start as int,
                end as int,
                Seq::empty(),
            ),
        decreases end - i,
    {
        let stop = find(bytes, i, end, 44);
        let a = trim_start(bytes, i, stop);
        let b = trim_end(bytes, a, stop);
        if a != b {
            match parse_number(bytes, a, b) {
                None => {
                    return Err(ParseError::InvalidJoltage);
                },
                Some(v) => {
                    out.push(v);
                },
            }
        }
        if stop >= end {
            return Ok(out);
        }
        i = stop + 1;
    }
}

/// Puts `x` in its place in an increasing list, unless it is there.
pub fn insert_button(buttons: &mut Vec<u128>, x: u128)
    ensures
        final(buttons)@ == insert_sorted(old(buttons)@, x),
        increasing(old(buttons)@) ==> increasing(final(buttons)@),
{
    let mut p: usize = 0;
    while p < buttons.len() && buttons[p] < x
        invariant
            p <= buttons@.len(),
            buttons@ == old(buttons)@,
            insert_pos(buttons@, x, p as int) == insert_pos(buttons@, x, 0),
            forall|k: int| 0 <= k < p ==> buttons@[k] < x,
        decreases buttons@.len() - p,
    {
        p += 1;
    }
    if p < buttons.len() && buttons[p] == x {
        return ;
    }
    buttons.insert(p, x);
    proof {
        if increasing(old(buttons)@) {
            assert forall|i: int, j: int| 0 <= i < j < buttons@.len() implies buttons@[i]
                < buttons@[j] by {
                let before = old(buttons)@;
                if j < p {
                    assert(before[i] < before[j]);
                } else if j == p {
                } else if i < p {
                    assert(before[i] < before[j - 1]);
                } else if i == p {
                    assert(before[p as int] <= before[j - 1]) by {
                        if p < j - 1 {
                            assert(before[p as int] < before[j - 1]);
                        }
                    }
                } else {
                    assert(before[i - 1] < before[j - 1]);
                }
            }
        }
    }
}

/// Reads the buttons from `start` on, up to the end of the line or the `{`
/// of the joltage group, and says where they end.
pub fn parse_buttons(bytes: &[u8], start: usize, end: usize, lights: usize) -> (result: Result<
    (Vec<u128>, usize),
    ParseError,
>)
    requires
        start <= end <= bytes@.len(),
        lights <= 128,
    ensures
        match result {
            Ok((buttons, rest)) => {
                &&& buttons_from(bytes@, start as int, end as int, lights as int, Seq::empty())
                    == Ok::<(Seq<u128>, int), ParseError>((buttons@, rest as int))
                &&& increasing(buttons@)
                &&& start <= rest <= end
                &&& rest < end ==> bytes@[rest as int] == 123
            },
            Err(e) => buttons_from(bytes@, start as int, end as int, lights as int, Seq::empty())
                == Err::<(Seq<u128>, int), ParseError>(e),
        },
{
    let mut buttons: Vec<u128> = Vec::new();
    let mut i = start;
    while i < end && bytes[i] != 123
        invariant
            start <= i <= end <= bytes@.len(),
            lights <= 128,
            increasing(buttons@),
            buttons_from(bytes@, i as int, end as int, lights as int, buttons@) == buttons_from(
                bytes@,
                start as int,
                end as int,
                lights as int,
                Seq::empty(),
            ),
        decreases end - i,
    {
        if bytes[i] != 40 {
            return Err(ParseError::ExpectedButton);
        }
        let close = find(bytes, i + 1, end, 41);
        if close >= end {
            return Err(ParseError::MissingCloseParen);
        }
        let mask = match parse_button(bytes, i + 1, close, lights) {
            Ok(mask) => mask,
            Err(e) => {
                return Err(e);
            },
        };
        if mask != 0 {
            insert_button(&mut buttons, mask);
        }
        let next = trim_start(bytes, close + 1, end);
        i = next;
    }
    Ok((buttons, i))
}

/// Reads the machine that the bytes from `start` up to `end` describe.
/// `Ok(None)` for a line that is blank or starts with `#`.
pub fn parse_machine_bytes(bytes: &[u8], start: usize, end: usize) -> (result: Result<
    Option<Machine>,
    ParseError,
>)
    requires
        start <= end <= bytes@.len(),
    ensures
        match result {
            Ok(Some(m)) => machine_at(bytes@, start as int, end as int) == Ok::<
                Option<(u128, Seq<u128>, Seq<u64>)>,
                ParseError,
            >(Some(machine_view(m))) && increasing(m.buttons@),
            Ok(None) => machine_at(bytes@, start as int, end as int) == Ok::<
                Option<(u128, Seq<u128>, Seq<u64>)>,
                ParseError,
            >(None),
            Err(e) => machine_at(bytes@, start as int, end as int) == Err::<
                Option<(u128, Seq<u128>, Seq<u64>)>,
                ParseError,
            >(e),
        },
{
    let a = trim_start(bytes, start, end);
    let b = trim_end(bytes, a, end);
    if a >= b || bytes[a] == 35 {
        return Ok(None);
    }
    let open = find(bytes, a, b, 91);
    if open >= b {
        return Err(ParseError::MissingOpenBracket);
    }
    let close = find(bytes, open + 1, b, 93);
    if close >= b {
        return Err(ParseError::MissingCloseBracket);
    }
    let lights = close - (open + 1);
    if lights == 0 {
        return Err(ParseError::EmptyDiagram);
    }
    if lights > 128 {
        return Err(ParseError::DiagramTooLarge);
    }
    let target = match parse_pattern(bytes, open + 1, close) {
        Ok(target) => target,
        Err(e) => {
            return Err(e);
        },
    };
    let first = trim_start(bytes, close + 1, b);
    let (buttons, rest) = match parse_buttons(bytes, first, b, lights) {
        Ok(found) => found,
        Err(e) => {
            return Err(e);
        },
    };
    let joltage = if rest >= b {
        Vec::new()
    } else {
        let brace = find(bytes, rest + 1, b, 125);
        if brace >= b {
            return Err(ParseError::MissingCloseBrace);
        }
        match parse_joltage(bytes, rest + 1, brace) {
            Ok(joltage) => joltage,
            Err(e) => {
                return Err(e);
            },
        }
    };
    if joltage.len() != 0 && joltage.len() != lights {
        return Err(ParseError::JoltageCountMismatch);
    }
    Ok(Some(Machine { target, buttons, joltage }))
}

/// Reads the machine that a line describes. `Ok(None)` for a line that is
/// blank or starts with `#`.
pub fn parse_machine(line: &str) -> (result: Result<Option<Machine>, ParseError>)
    ensures
        match result {
            Ok(Some(m)) => machine_at(line.spec_bytes(), 0, line.spec_bytes().len() as int)
                == Ok::<Option<(u128, Seq<u128>, Seq<u64>)>, ParseError>(Some(machine_view(m)))
                && increasing(m.buttons@),
            Ok(None) => machine_at(line.spec_bytes(), 0, line.spec_bytes().len() as int) == Ok::<
                Option<(u128, Seq<u128>, Seq<u64>)>,
                ParseError,
            >(None),
            Err(e) => machine_at(line.spec_bytes(), 0, line.spec_bytes().len() as int) == Err::<
                Option<(u128, Seq<u128>, Seq<u64>)>,
                ParseError,
            >(e),
        },
{
    let bytes = line.as_bytes();
    parse_machine_bytes(bytes, 0, bytes.len())
}

/// Reads every machine of the input, one per line. The first line that is
/// malformed ends the reading with its number and what is wrong with it.
pub fn parse_machines(input: &str) -> (result: Result<Vec<Machine>, LineError>)
    ensures
        match result {
            Ok(machines) => machines_from(input.spec_bytes(), 0, 0, Seq::empty()) == Ok::<
                Seq<(u128, Seq<u128>, Seq<u64>)>,
                LineError,
            >(machines_view(machines@)),
            Err(e) => machines_from(input.spec_bytes(), 0, 0, Seq::empty()) == Err::<
                Seq<(u128, Seq<u128>, Seq<u64>)>,
                LineError,
            >(e),
        },
{
    let bytes = input.as_bytes();
    let len = bytes.len();
    let mut machines: Vec<Machine> = Vec::new();
    let mut i: usize = 0;
    let mut line: usize = 0;
    assert(machines_view(machines@) =~= Seq::empty());
    while i < len
        invariant
            len == bytes@.len(),
            bytes@ == input.spec_bytes(),
            i <= len,
            line <= i,
            machines_from(bytes@, i as int, line as int, machines_view(machines@)) == machines_from(
                bytes@,
                0,
                0,
                Seq::empty(),
            ),
        decreases len - i,
    {
        let stop = find(bytes, i, len, 10);
        let ghost before = machines_view(machines@);
        match parse_machine_bytes(bytes, i, stop) {
            Err(error) => {
                return Err(LineError { line_index: line, error });
            },
            Ok(found) => {
                if let Some(m) = found {
                    machines.push(m);
                    assert(machines_view(machines@) =~= before.push(machine_view(m)));
                }
            },
        }
        if stop >= len {
            return Ok(machines);
        }
        i = stop + 1;
        line = line + 1;
    }
    proof {
        assert(machines_view(machines@) =~= machines_view(machines@));
    }
    Ok(machines)
}

} // verus!
