//! Reading grids and lists of integers from text.

use vstd::prelude::*;

verus! {

/// Whether `c` is white space: a character with the Unicode property
/// `White_Space`.
pub open spec fn is_space(c: char) -> bool {
    let u = c as u32;
    (0x09 <= u <= 0x0D) || u == 0x20 || u == 0x85 || u == 0xA0 || u == 0x1680 || (0x2000 <= u
        <= 0x200A) || u == 0x2028 || u == 0x2029 || u == 0x202F || u == 0x205F || u == 0x3000
}

/// Whether `c` is one of the digits `0` to `9`.
pub open spec fn is_digit(c: char) -> bool {
    '0' <= c <= '9'
}

/// The value of the digit `c`.
pub open spec fn digit_value(c: char) -> int {
    c as u32 - '0' as u32
}

/// The lines that are complete after the first `n` characters, and the
/// characters of the line that is still open. A line ends at a line feed;
/// a carriage return just before the line feed is not part of the line.
pub open spec fn scan_lines(s: Seq<char>, n: int) -> (Seq<Seq<char>>, Seq<char>)
    decreases n,
{
    if n <= 0 {
        (Seq::empty(), Seq::empty())
    } else {
        let (lines, open) = scan_lines(s, n - 1);
        if s[n - 1] == '\n' {
            if open.len() > 0 && open.last() == '\r' {
                (lines.push(open.drop_last()), Seq::empty())
            } else {
                (lines.push(open), Seq::empty())
            }
        } else {
            (lines, open.push(s[n - 1]))
        }
    }
}

/// The lines of a text. A last line without a line feed counts when it is
/// not empty.
pub open spec fn lines_of(s: Seq<char>) -> Seq<Seq<char>> {
    let (lines, open) = scan_lines(s, s.len() as int);
    if open.len() > 0 {
        lines.push(open)
    } else {
        lines
    }
}

/// The values of the digits among the first `n` characters.
pub open spec fn digits_of(s: Seq<char>, n: int) -> Seq<i64>
    decreases n,
{
    if n <= 0 {
        Seq::empty()
    } else if is_digit(s[n - 1]) {
        digits_of(s, n - 1).push(digit_value(s[n - 1]) as i64)
    } else {
        digits_of(s, n - 1)
    }
}

/// The value of the decimal digits from `i` on, continuing from `acc`;
/// `None` where a character is no digit.
pub open spec fn digits_from(s: Seq<char>, i: int, acc: int) -> Option<int>
    decreases s.len() - i,
{
    if i >= s.len() {
        Some(acc)
    } else if is_digit(s[i]) {
        digits_from(s, i + 1, acc * 10 + digit_value(s[i]))
    } else {
        None
    }
}

/// The integer that `s` writes: an optional sign and one or more digits,
/// with a value in the range of `i64`.
pub open spec fn integer_of(s: Seq<char>) -> Option<i64> {
    let signed = s.len() > 0 && (s[0] == '-' || s[0] == '+');
    let first: int = if signed {
        1
    } else {
        0
    };
    if first >= s.len() {
        None
    } else {
        match digits_from(s, first, 0) {
            None => None,
            Some(v) => {
                let value = if s[0] == '-' {
                    -v
                } else {
                    v
                };
                if i64::MIN <= value <= i64::MAX {
                    Some(value as i64)
                } else {
                    None
                }
            },
        }
    }
}

/// The tokens that are complete after the first `n` characters, and the
/// characters of the token that is still open. White space ends a token.
pub open spec fn scan_tokens(s: Seq<char>, n: int) -> (Seq<Seq<char>>, Seq<char>)
    decreases n,
{
    if n <= 0 {
        (Seq::empty(), Seq::empty())
    } else {
        let (tokens, open) = scan_tokens(s, n - 1);
        if is_space(s[n - 1]) {
            if open.len() > 0 {
                (tokens.push(open), Seq::empty())
            } else {
                (tokens, open)
            }
        } else {
            (tokens, open.push(s[n - 1]))
        }
    }
}

/// The maximal runs of characters that are not white space.
pub open spec fn tokens_of(s: Seq<char>) -> Seq<Seq<char>> {
    let (tokens, open) = scan_tokens(s, s.len() as int);
    if open.len() > 0 {
        tokens.push(open)
    } else {
        tokens
    }
}

/// The integers that the first `n` pieces write; pieces that write no
/// integer are passed over.
pub open spec fn integers_in(pieces: Seq<Seq<char>>, n: int) -> Seq<i64>
    decreases n,
{
    if n <= 0 {
        Seq::empty()
    } else {
        match integer_of(pieces[n - 1]) {
            Some(v) => integers_in(pieces, n - 1).push(v),
            None => integers_in(pieces, n - 1),
        }
    }
}

/// The first position from `i` on that holds no white space.
pub open spec fn skip_spaces(s: Seq<char>, i: int) -> int
    decreases s.len() - i,
{
    if 0 <= i < s.len() && is_space(s[i]) {
        skip_spaces(s, i + 1)
    } else {
        i
    }
}

/// The position after the last character before `end`, at or after `start`,
/// that is no white space.
pub open spec fn drop_spaces(s: Seq<char>, start: int, end: int) -> int
    decreases end - start,
{
    if start < end <= s.len() && is_space(s[end - 1]) {
        drop_spaces(s, start, end - 1)
    } else {
        end
    }
}

/// The line without the white space at its ends.
pub open spec fn trimmed(s: Seq<char>) -> Seq<char> {
    let a = skip_spaces(s, 0);
    let b = drop_spaces(s, a, s.len() as int);
    if 0 <= a <= b <= s.len() {
        s.subrange(a, b)
    } else {
        Seq::empty()
    }
}

/// The lines without the white space at their ends.
pub open spec fn trimmed_lines(lines: Seq<Seq<char>>) -> Seq<Seq<char>> {
    Seq::new(lines.len(), |r: int| trimmed(lines[r]))
}

/// Digits can only raise the value.
pub proof fn lemma_digits_grow(s: Seq<char>, i: int, acc: int)
    requires
        0 <= acc,
    ensures
        match digits_from(s, i, acc) {
            Some(v) => v >= acc,
            None => true,
        },
    decreases s.len() - i,
{
    if i < s.len() && is_digit(s[i]) {
        lemma_digits_grow(s, i + 1, acc * 10 + digit_value(s[i]));
    }
}

/// Whether `c` is white space.
pub fn space(c: char) -> (r: bool)
    ensures
        r == is_space(c),
{
    let u = c as u32;
    (0x09 <= u && u <= 0x0D) || u == 0x20 || u == 0x85 || u == 0xA0 || u == 0x1680 || (0x2000 <= u
        && u <= 0x200A) || u == 0x2028 || u == 0x2029 || u == 0x202F || u == 0x205F || u == 0x3000
}

/// Reads the integer that `token` writes.
pub fn parse_i64(token: &Vec<char>) -> (value: Option<i64>)
    ensures
        value == integer_of(token@),
{
    let n = token.len();
    let negative = n > 0 && token[0] == '-';
    let signed = n > 0 && (token[0] == '-' || token[0] == '+');
    let first: usize = if signed {
        1
    } else {
        0
    };
    if first >= n {
        return None;
    }
    let mut acc: i128 = 0;
    let mut i = first;
    while i < n
        invariant
            first <= i <= n,
            n == token@.len(),
            first < n,
            first == (if token@.len() > 0 && (token@[0] == '-' || token@[0] == '+') {
                1int
            } else {
                0int
            }),
            negative == (token@.len() > 0 && token@[0] == '-'),
            0 <= acc <= i64::MAX + 1,
            digits_from(token@, i as int, acc as int) == digits_from(token@, first as int, 0),
        decreases n - i,
    {
        let c = token[i];
        if !('0' <= c && c <= '9') {
            assert(digits_from(token@, i as int, acc as int) is None);
            return None;
        }
        let digit = (c as u32 - '0' as u32) as i128;
        let next = acc * 10 + digit;
        if next > i64::MAX as i128 + 1 {
            proof {
                lemma_digits_grow(token@, i + 1, next as int);
                assert(digits_from(token@, i as int, acc as int) == digits_from(
                    token@,
                    i + 1,
                    next as int,
                ));
            }
            return None;
        }
        acc = next;
        i += 1;
    }
    if negative {
        Some((-acc) as i64)
    } else if acc > i64::MAX as i128 {
        None
    } else {
        Some(acc as i64)
    }
}

/// The text as a grid of characters, one row per line.
pub fn parse_grid_chars(input: &str) -> (grid: Vec<Vec<char>>)
    ensures
        grid@.len() == lines_of(input@).len(),
        forall|r: int| 0 <= r < grid@.len() ==> (#[trigger] grid@[r])@ == lines_of(input@)[r],
{
    let lines = split_lines(input);
    lines
}

/// The lines of the text.
pub fn split_lines(input: &str) -> (lines: Vec<Vec<char>>)
    ensures
        lines@.len() == lines_of(input@).len(),
        forall|r: int| 0 <= r < lines@.len() ==> (#[trigger] lines@[r])@ == lines_of(input@)[r],
{
    broadcast use vstd::string::axiom_spec_iter;

    let mut lines: Vec<Vec<char>> = Vec::new();
    let mut open: Vec<char> = Vec::new();
    for c in it: input.chars()
        invariant
            it.seq() == input@,
            lines@.len() == scan_lines(input@, it.index() as int).0.len(),
            forall|r: int|
                0 <= r < lines@.len() ==> (#[trigger] lines@[r])@ == scan_lines(
                    input@,
                    it.index() as int,
                ).0[r],
            open@ == scan_lines(input@, it.index() as int).1,
    {
        if c == '\n' {
            if open.len() > 0 && open[open.len() - 1] == '\r' {
                open.pop();
            }
            lines.push(open);
            open = Vec::new();
        } else {
            open.push(c);
        }
    }
    if open.len() > 0 {
        lines.push(open);
    }
    lines
}

/// The text as a grid of digits, one row per line; characters that are no
/// digits are passed over.
pub fn parse_grid_digits(input: &str) -> (grid: Vec<Vec<i64>>)
    ensures
        grid@.len() == lines_of(input@).len(),
        forall|r: int|
            0 <= r < grid@.len() ==> (#[trigger] grid@[r])@ == digits_of(
                lines_of(input@)[r],
                lines_of(input@)[r].len() as int,
            ),
{
    let lines = split_lines(input);
    let mut grid: Vec<Vec<i64>> = Vec::new();
    for r in 0..lines.len()
        invariant
            lines@.len() == lines_of(input@).len(),
            forall|q: int| 0 <= q < lines@.len() ==> (#[trigger] lines@[q])@ == lines_of(input@)[q],
            grid@.len() == r,
            forall|q: int|
                0 <= q < r ==> (#[trigger] grid@[q])@ == digits_of(
                    lines_of(input@)[q],
                    lines_of(input@)[q].len() as int,
                ),
    {
        let line = &lines[r];
        let mut row: Vec<i64> = Vec::new();
        for k in 0..line.len()
            invariant
                row@ == digits_of(line@, k as int),
        {
            let c = line[k];
            if '0' <= c && c <= '9' {
                row.push((c as u32 - '0' as u32) as i64);
            }
        }
        grid.push(row);
    }
    grid
}

/// The maximal runs of characters that are not white space.
pub fn split_tokens(input: &str) -> (tokens: Vec<Vec<char>>)
    ensures
        tokens@.len() == tokens_of(input@).len(),
        forall|r: int| 0 <= r < tokens@.len() ==> (#[trigger] tokens@[r])@ == tokens_of(input@)[r],
{
    broadcast use vstd::string::axiom_spec_iter;

    let mut tokens: Vec<Vec<char>> = Vec::new();
    let mut open: Vec<char> = Vec::new();
    for c in it: input.chars()
        invariant
            it.seq() == input@,
            tokens@.len() == scan_tokens(input@, it.index() as int).0.len(),
            forall|r: int|
                0 <= r < tokens@.len() ==> (#[trigger] tokens@[r])@ == scan_tokens(
                    input@,
                    it.index() as int,
                ).0[r],
            open@ == scan_tokens(input@, it.index() as int).1,
    {
        if space(c) {
            if open.len() > 0 {
                tokens.push(open);
                open = Vec::new();
            }
        } else {
            open.push(c);
        }
    }
    if open.len() > 0 {
        tokens.push(open);
    }
    tokens
}

/// The piece without the white space at its ends.
pub fn trim(piece: &Vec<char>) -> (out: Vec<char>)
    ensures
        out@ == trimmed(piece@),
{
    let n = piece.len();
    let mut a: usize = 0;
    while a < n && space(piece[a])
        invariant
            a <= n,
            n == piece@.len(),
            skip_spaces(piece@, a as int) == skip_spaces(piece@, 0),
        decreases n - a,
    {
        a += 1;
    }
    let mut b: usize = n;
    while a < b && space(piece[b - 1])
        invariant
            a <= b <= n,
            n == piece@.len(),
            drop_spaces(piece@, a as int, b as int) == drop_spaces(piece@, a as int, n as int),
        decreases b - a,
    {
        b -= 1;
    }
    let mut out: Vec<char> = Vec::new();
    for k in a..b
        invariant
            a <= b <= n,
            n == piece@.len(),
            out@ == piece@.subrange(a as int, k as int),
    {
        out.push(piece[k]);
        assert(piece@.subrange(a as int, k + 1) =~= piece@.subrange(a as int, k as int).push(
            piece@[k as int],
        ));
    }
    out
}

/// The integers that the pieces write, in order; pieces that write no
/// integer are passed over.
fn collect_integers(pieces: &Vec<Vec<char>>) -> (out: Vec<i64>)
    ensures
        out@ == integers_in(Seq::new(pieces@.len(), |r: int| pieces@[r]@), pieces@.len() as int),
{
    let ghost views = Seq::new(pieces@.len(), |r: int| pieces@[r]@);
    let mut out: Vec<i64> = Vec::new();
    for k in 0..pieces.len()
        invariant
            views == Seq::new(pieces@.len(), |r: int| pieces@[r]@),
            out@ == integers_in(views, k as int),
    {
        assert(views[k as int] == pieces@[k as int]@);
        if let Some(v) = parse_i64(&pieces[k]) {
            out.push(v);
        }
    }
    out
}

/// The integers among the tokens of the text, in order. A token is a
/// maximal run of characters that are not white space; tokens that write no
/// integer are passed over.
pub fn parse_ints_whitespace(input: &str) -> (out: Vec<i64>)
    ensures
        out@ == integers_in(tokens_of(input@), tokens_of(input@).len() as int),
{
    let tokens = split_tokens(input);
    let out = collect_integers(&tokens);
    proof {
        assert(Seq::new(tokens@.len(), |r: int| tokens@[r]@) =~= tokens_of(input@));
    }
    out
}

/// The integers written on the lines of the text, one per line, in order.
/// White space at the ends of a line is ignored; lines that write no integer
/// are passed over.
pub fn parse_lines_i64(input: &str) -> (out: Vec<i64>)
    ensures
        out@ == integers_in(
            trimmed_lines(lines_of(input@)),
            trimmed_lines(lines_of(input@)).len() as int,
        ),
{
    let lines = split_lines(input);
    let mut pieces: Vec<Vec<char>> = Vec::new();
    for k in 0..lines.len()
        invariant
            lines@.len() == lines_of(input@).len(),
            forall|q: int| 0 <= q < lines@.len() ==> (#[trigger] lines@[q])@ == lines_of(input@)[q],
            pieces@.len() == k,
            forall|q: int| 0 <= q < k ==> (#[trigger] pieces@[q])@ == trimmed(lines_of(input@)[q]),
    {
        pieces.push(trim(&lines[k]));
    }
    let out = collect_integers(&pieces);
    proof {
        assert(Seq::new(pieces@.len(), |r: int| pieces@[r]@) =~= trimmed_lines(lines_of(input@)));
    }
    out
}

} // verus!
