//! The queue of rolls that can be taken away, and the two answers.

use std::collections::VecDeque;
use vstd::prelude::*;
use crate::days::day04::peel::{
    cell_ok, is_core, lemma_around_without, lemma_rolls_nonneg, lemma_rolls_without,
    lemma_stable_without, levels, pending, queued, rolls_total, row_rolls, set_level, set_roll,
    stable, tables_fit, within, without,
};
use crate::days::day04::rolls::{
    accessible_total, around, count_accessible, count_neighbors, grid_of, parse_grid, roll_at, rows,
};
use crate::days::day10::answers::{decimal_chars, decimal_string};
use crate::ds::parsing::lines_of;

verus! {

/// Why the puzzle has no answer.
#[derive(Debug, Clone, Copy, PartialEq, Eq, Structural)]
pub enum Day04Error {
    /// The count does not fit a `u64`.
    Overflow,
}

/// A place that waits in the queue still waits when another joins.
pub proof fn lemma_queued_push(q: Seq<(usize, usize)>, e: (usize, usize), y: int, x: int)
    requires
        queued(q, y, x),
    ensures
        queued(q.push(e), y, x),
{
    let i = choose|i: int| 0 <= i < q.len() && (#[trigger] q[i]).0 == y && q[i].1 == x;
    assert(q.push(e)[i] == q[i]);
}

/// A place that waits in the queue still waits when the first has left,
/// unless it was the first.
pub proof fn lemma_queued_pop(q: Seq<(usize, usize)>, y: int, x: int)
    requires
        queued(q, y, x),
        q.len() > 0,
        !(q[0].0 == y && q[0].1 == x),
    ensures
        queued(q.subrange(1, q.len() as int), y, x),
{
    let i = choose|i: int| 0 <= i < q.len() && (#[trigger] q[i]).0 == y && q[i].1 == x;
    assert(q.subrange(1, q.len() as int)[i - 1] == q[i]);
}

/// The row of the place with the number `k` among those around `(cy, cx)`.
pub open spec fn nth_row(cy: int, k: int) -> int {
    cy + k / 3 - 1
}

/// The column of the place with the number `k` among those around
/// `(cy, cx)`.
pub open spec fn nth_col(cx: int, k: int) -> int {
    cx + k % 3 - 1
}

/// After the place with the number `k`, the places with greater numbers
/// are pending; the middle is no place around itself.
pub proof fn lemma_pending_next(cy: int, cx: int, k: int, y: int, x: int)
    requires
        0 <= k < 9,
    ensures
        pending(cy, cx, k + 1, y, x) == (pending(cy, cx, k, y, x) && !(y == nth_row(cy, k) && x
            == nth_col(cx, k))),
        k == 4 ==> pending(cy, cx, k + 1, y, x) == pending(cy, cx, k, y, x),
        k != 4 ==> pending(cy, cx, k, nth_row(cy, k), nth_col(cx, k)),
{
}

/// Where no roll stands on the place with the number `k`, nothing is to be
/// brought up to date.
pub proof fn lemma_settle_skip(
    g: Seq<Seq<bool>>,
    cv: Seq<Seq<u8>>,
    q: Seq<(usize, usize)>,
    cy: int,
    cx: int,
    k: int,
)
    requires
        0 <= k < 9,
        forall|y: int, x: int| #[trigger] cell_ok(g, cv, q, cy, cx, k, y, x),
        k == 4 || !roll_at(g, nth_row(cy, k), nth_col(cx, k)),
    ensures
        forall|y: int, x: int| #[trigger] cell_ok(g, cv, q, cy, cx, k + 1, y, x),
{
    assert forall|y: int, x: int| #[trigger] cell_ok(g, cv, q, cy, cx, k + 1, y, x) by {
        assert(cell_ok(g, cv, q, cy, cx, k, y, x));
        lemma_pending_next(cy, cx, k, y, x);
    }
}

/// Where a roll stands on the place with the number `k`, its count goes
/// down by one, and it joins the queue where fewer than four are left.
pub proof fn lemma_settle_lower(
    g: Seq<Seq<bool>>,
    cv: Seq<Seq<u8>>,
    q: Seq<(usize, usize)>,
    cw: Seq<Seq<u8>>,
    qw: Seq<(usize, usize)>,
    cy: int,
    cx: int,
    k: int,
    ny: usize,
    nx: usize,
)
    requires
        0 <= k < 9,
        k != 4,
        ny == nth_row(cy, k),
        nx == nth_col(cx, k),
        roll_at(g, ny as int, nx as int),
        tables_fit(g, cv, q),
        forall|y: int, x: int| #[trigger] cell_ok(g, cv, q, cy, cx, k, y, x),
        cv[ny as int][nx as int] >= 1,
        cw == cv.update(ny as int, cv[ny as int].update(nx as int, (cv[ny as int][nx as int] - 1) as u8)),
        qw == (if cv[ny as int][nx as int] - 1 < 4 {
            q.push((ny, nx))
        } else {
            q
        }),
    ensures
        tables_fit(g, cw, qw),
        forall|y: int, x: int| #[trigger] cell_ok(g, cw, qw, cy, cx, k + 1, y, x),
{
    assert forall|y: int| 0 <= y < g.len() implies (#[trigger] cw[y]).len() == g[y].len() by {
        assert(cv[y].len() == g[y].len());
    }
    assert forall|i: int| 0 <= i < qw.len() implies (#[trigger] qw[i]).0 < g.len() && qw[i].1
        < g[qw[i].0 as int].len() by {
        if i < q.len() {
            assert(qw[i] == q[i]);
        }
    }
    assert forall|y: int, x: int| #[trigger] cell_ok(g, cw, qw, cy, cx, k + 1, y, x) by {
        assert(cell_ok(g, cv, q, cy, cx, k, y, x));
        lemma_pending_next(cy, cx, k, y, x);
        if roll_at(g, y, x) {
            if y == ny && x == nx {
                if cv[ny as int][nx as int] - 1 < 4 {
                    assert(qw[q.len() as int] == (ny, nx));
                }
            } else {
                assert(cw[y][x] == cv[y][x]);
                if queued(q, y, x) && qw.len() > q.len() {
                    lemma_queued_push(q, (ny, nx), y, x);
                }
            }
        }
    }
}

/// Brings the count of one of the places around `(cy, cx)` up to date, the
/// one with the number `k`, after the roll at `(cy, cx)` has gone: a roll
/// there has one roll less around it, and joins the queue where fewer than
/// four are left.
fn settle(
    grid: &Vec<Vec<bool>>,
    counts: &mut Vec<Vec<u8>>,
    queue: &mut VecDeque<(usize, usize)>,
    cy: usize,
    cx: usize,
    k: u8,
)
    requires
        k < 9,
        cy < grid@.len(),
        cx < grid@[cy as int]@.len(),
        tables_fit(rows(grid@), levels(old(counts)@), old(queue)@),
        forall|y: int, x: int| #[trigger]
            cell_ok(rows(grid@), levels(old(counts)@), old(queue)@, cy as int, cx as int, k as int, y, x),
    ensures
        tables_fit(rows(grid@), levels(final(counts)@), final(queue)@),
        forall|y: int, x: int| #[trigger]
            cell_ok(
                rows(grid@),
                levels(final(counts)@),
                final(queue)@,
                cy as int,
                cx as int,
                k + 1,
                y,
                x,
            ),
        final(queue)@.len() <= old(queue)@.len() + 1,
{
    let ghost g = rows(grid@);
    let ghost cv = levels(counts@);
    let ghost q = queue@;
    let dy = k / 3;
    let dx = k % 3;
    let height = grid.len();
    let width = grid[cy].len();
    if k == 4 || (dy == 0 && cy == 0) || (dx == 0 && cx == 0) {
        proof {
            lemma_settle_skip(g, cv, q, cy as int, cx as int, k as int);
        }
        return;
    }
    let ny: usize = if dy == 0 {
        cy - 1
    } else if dy == 1 {
        cy
    } else {
        cy + 1
    };
    let nx: usize = if dx == 0 {
        cx - 1
    } else if dx == 1 {
        cx
    } else {
        cx + 1
    };
    assert(ny == nth_row(cy as int, k as int) && nx == nth_col(cx as int, k as int));
    if ny >= grid.len() {
        proof {
            lemma_settle_skip(g, cv, q, cy as int, cx as int, k as int);
        }
        return;
    }
    assert(g[ny as int] == grid@[ny as int]@);
    if nx >= grid[ny].len() || !grid[ny][nx] {
        proof {
            lemma_settle_skip(g, cv, q, cy as int, cx as int, k as int);
        }
        return;
    }
    proof {
        assert(roll_at(g, ny as int, nx as int));
        assert(cell_ok(g, cv, q, cy as int, cx as int, k as int, ny as int, nx as int));
        lemma_pending_next(cy as int, cx as int, k as int, ny as int, nx as int);
        assert(cv[ny as int] == counts@[ny as int]@);
        assert(cv[ny as int].len() == g[ny as int].len());
    }
    let held = counts[ny][nx];
    let left = held - 1;
    set_level(counts, ny, nx, left);
    if left < 4 {
        queue.push_back((ny, nx));
    }
    proof {
        lemma_settle_lower(
            g,
            cv,
            q,
            levels(counts@),
            queue@,
            cy as int,
            cx as int,
            k as int,
            ny,
            nx,
        );
    }
}

/// What the row of counts in the making and the queue hold for the place
/// `(y, c)`: for a roll, the count of the rolls around it; and it waits in
/// the queue where they are fewer than four.
pub open spec fn row_ok(
    g: Seq<Seq<bool>>,
    row: Seq<u8>,
    q: Seq<(usize, usize)>,
    y: int,
    c: int,
) -> bool {
    g[y][c] ==> row[c] == around(g, y, c) && (around(g, y, c) < 4 ==> queued(q, y, c))
}

/// The count of the rolls around every roll, the queue of the rolls with
/// fewer than four around them, row by row, and the number of rolls.
fn prepare(grid: &Vec<Vec<bool>>) -> (out: (Vec<Vec<u8>>, VecDeque<(usize, usize)>, u128))
    ensures
        tables_fit(rows(grid@), levels(out.0@), out.1@),
        forall|y: int, x: int| #[trigger] cell_ok(rows(grid@), levels(out.0@), out.1@, 0, 0, 9, y, x),
        out.2 == rolls_total(rows(grid@), grid@.len() as int),
{
    let ghost g = rows(grid@);
    let mut counts: Vec<Vec<u8>> = Vec::new();
    let mut queue: VecDeque<(usize, usize)> = VecDeque::new();
    let mut rolls: u128 = 0;
    let mut y: usize = 0;
    while y < grid.len()
        invariant
            g == rows(grid@),
            y <= grid@.len(),
            counts@.len() == y,
            forall|r: int| 0 <= r < y ==> (#[trigger] levels(counts@)[r]).len() == g[r].len(),
            forall|i: int|
                0 <= i < queue@.len() ==> (#[trigger] queue@[i]).0 < y && queue@[i].1 < g[queue@[i].0 as int].len(),
            forall|r: int, x: int|
                0 <= r < y ==> #[trigger] cell_ok(g, levels(counts@), queue@, 0, 0, 9, r, x),
            rolls == rolls_total(g, y as int),
            rolls <= 0xffff_ffff_ffff_ffff * y,
        decreases grid@.len() - y,
    {
        assert(g[y as int] == grid@[y as int]@);
        let mut row: Vec<u8> = Vec::new();
        let mut in_row: u64 = 0;
        let mut x: usize = 0;
        let ghost before = levels(counts@);
        while x < grid[y].len()
            invariant
                g == rows(grid@),
                y < grid@.len(),
                g[y as int] == grid@[y as int]@,
                x <= g[y as int].len(),
                row@.len() == x,
                counts@.len() == y,
                levels(counts@) == before,
                forall|i: int|
                    0 <= i < queue@.len() ==> (#[trigger] queue@[i]).0 <= y && queue@[i].0 < g.len() && queue@[i].1
                        < g[queue@[i].0 as int].len(),
                forall|r: int, c: int|
                    0 <= r < y ==> #[trigger] cell_ok(g, before, queue@, 0, 0, 9, r, c),
                forall|c: int| 0 <= c < x ==> #[trigger] row_ok(g, row@, queue@, y as int, c),
                in_row == row_rolls(g[y as int], x as int),
                in_row <= x,
            decreases g[y as int].len() - x,
        {
            let ghost q = queue@;
            let ghost held = row@;
            if grid[y][x] {
                let n = count_neighbors(grid, y, x);
                row.push(n);
                if n < 4 {
                    queue.push_back((y, x));
                }
                in_row += 1;
            } else {
                row.push(0);
            }
            proof {
                assert forall|r: int, c: int| 0 <= r < y implies #[trigger] cell_ok(
                    g,
                    before,
                    queue@,
                    0,
                    0,
                    9,
                    r,
                    c,
                ) by {
                    assert(cell_ok(g, before, q, 0, 0, 9, r, c));
                    if queued(q, r, c) && queue@.len() > q.len() {
                        lemma_queued_push(q, (y, x), r, c);
                    }
                }
                assert forall|c: int| 0 <= c < x + 1 implies #[trigger] row_ok(
                    g,
                    row@,
                    queue@,
                    y as int,
                    c,
                ) by {
                    if !g[y as int][c] {
                    } else if c < x {
                        assert(row_ok(g, held, q, y as int, c));
                        assert(row@[c] == held[c]);
                        if around(g, y as int, c) < 4 {
                            assert(queued(q, y as int, c));
                            if queue@.len() > q.len() {
                                lemma_queued_push(q, (y, x), y as int, c);
                            }
                        }
                    } else {
                        assert(c == x);
                        assert(grid@[y as int]@[x as int]);
                        assert(row@[c] == around(g, y as int, c));
                        if around(g, y as int, c) < 4 {
                            assert(queue@ == q.push((y, x)));
                            assert(queue@[q.len() as int] == (y, x));
                            assert(queued(queue@, y as int, c));
                        }
                    }
                }
                assert forall|i: int| 0 <= i < queue@.len() implies (#[trigger] queue@[i]).0 <= y
                    && queue@[i].0 < g.len() && queue@[i].1 < g[queue@[i].0 as int].len() by {
                    if i < q.len() {
                        assert(queue@[i] == q[i]);
                    }
                }
            }
            x += 1;
        }
        counts.push(row);
        rolls = rolls + in_row as u128;
        proof {
            let cw = levels(counts@);
            assert(cw =~= before.push(row@));
            assert forall|r: int, c: int| 0 <= r < y + 1 implies #[trigger] cell_ok(
                g,
                cw,
                queue@,
                0,
                0,
                9,
                r,
                c,
            ) by {
                if r < y {
                    assert(cell_ok(g, before, queue@, 0, 0, 9, r, c));
                    assert(cw[r] == before[r]);
                } else if roll_at(g, r, c) {
                    assert(cw[r] == row@);
                    assert(row_ok(g, row@, queue@, y as int, c));
                }
            }
            assert forall|r: int| 0 <= r < y + 1 implies (#[trigger] cw[r]).len() == g[r].len() by {
                if r < y {
                    assert(cw[r] == before[r]);
                }
            }
        }
        y += 1;
    }
    proof {
        assert forall|r: int, c: int| #[trigger]
            cell_ok(g, levels(counts@), queue@, 0, 0, 9, r, c) by {
            if roll_at(g, r, c) {
                assert(cell_ok(g, levels(counts@), queue@, 0, 0, 9, r, c));
            }
        }
    }
    (counts, queue, rolls)
}

/// Takes rolls away, one after another, as long as one stands that fewer
/// than four others stand around; what is left is the greatest stable part
/// of the grid. Returns how many were taken.
pub fn peel(grid: &mut Vec<Vec<bool>>) -> (removed: u128)
    ensures
        is_core(rows(final(grid)@), rows(old(grid)@)),
        removed == rolls_total(rows(old(grid)@), old(grid)@.len() as int) - rolls_total(
            rows(final(grid)@),
            final(grid)@.len() as int,
        ),
{
    let ghost g0 = rows(grid@);
    let (mut counts, mut queue, rolls) = prepare(grid);
    let mut removed: u128 = 0;
    proof {
        lemma_rolls_nonneg(g0, g0.len() as int);
    }
    while queue.len() > 0
        invariant
            rows(grid@).len() == g0.len(),
            tables_fit(rows(grid@), levels(counts@), queue@),
            forall|y: int, x: int| #[trigger]
                cell_ok(rows(grid@), levels(counts@), queue@, 0, 0, 9, y, x),
            within(rows(grid@), g0),
            forall|s: Seq<Seq<bool>>| within(s, g0) && #[trigger] stable(s) ==> within(s, rows(grid@)),
            rolls == rolls_total(g0, g0.len() as int),
            removed + rolls_total(rows(grid@), g0.len() as int) == rolls,
            rolls_total(rows(grid@), g0.len() as int) >= 0,
        decreases 9 * rolls_total(rows(grid@), g0.len() as int) + queue@.len(),
    {
        let ghost g = rows(grid@);
        let ghost cv = levels(counts@);
        let ghost q = queue@;
        let (y, x) = match queue.pop_front() {
            Some(place) => place,
            None => (0, 0),
        };
        let ghost q1 = queue@;
        assert(q1 == q.subrange(1, q.len() as int));
        assert(q[0] == (y, x));
        assert(g[y as int] == grid@[y as int]@);
        assert(cv[y as int] == counts@[y as int]@);
        assert(cell_ok(g, cv, q, 0, 0, 9, y as int, x as int));
        if !grid[y][x] || counts[y][x] >= 4 {
            proof {
                assert forall|a: int, b: int| #[trigger] cell_ok(g, cv, q1, 0, 0, 9, a, b) by {
                    assert(cell_ok(g, cv, q, 0, 0, 9, a, b));
                    if roll_at(g, a, b) && around(g, a, b) < 4 {
                        lemma_queued_pop(q, a, b);
                    }
                }
                assert forall|i: int| 0 <= i < q1.len() implies (#[trigger] q1[i]).0 < g.len()
                    && q1[i].1 < g[q1[i].0 as int].len() by {
                    assert(q1[i] == q[i + 1]);
                }
            }
            continue;
        }
        set_roll(grid, y, x, false);
        proof {
            let w = rows(grid@);
            assert(w == without(g, y as int, x as int));
            lemma_rolls_without(g, y as int, x as int, g0.len() as int);
            lemma_rolls_nonneg(w, g0.len() as int);
            lemma_around_without(g, y as int, x as int, 0, 0);
            assert forall|a: int, b: int| #[trigger] roll_at(w, a, b) implies roll_at(g0, a, b) by {
                lemma_around_without(g, y as int, x as int, a, b);
                assert(roll_at(g, a, b));
            }
            assert forall|a: int| 0 <= a < w.len() implies (#[trigger] w[a]).len() == g0[a].len() by {
                assert(w[a].len() == g[a].len());
                assert(g[a].len() == g0[a].len());
            }
            assert forall|s: Seq<Seq<bool>>| within(s, g0) && #[trigger] stable(s) implies within(
                s,
                w,
            ) by {
                lemma_stable_without(s, g, y as int, x as int);
            }
            assert forall|a: int| 0 <= a < w.len() implies (#[trigger] cv[a]).len() == w[a].len() by {
                assert(w[a].len() == g[a].len());
            }
            assert forall|i: int| 0 <= i < q1.len() implies (#[trigger] q1[i]).0 < w.len() && q1[i].1
                < w[q1[i].0 as int].len() by {
                assert(q1[i] == q[i + 1]);
                assert(w[q1[i].0 as int].len() == g[q1[i].0 as int].len());
            }
            assert forall|a: int, b: int| #[trigger]
                cell_ok(w, cv, q1, y as int, x as int, 0, a, b) by {
                lemma_around_without(g, y as int, x as int, a, b);
                assert(cell_ok(g, cv, q, 0, 0, 9, a, b));
                if roll_at(w, a, b) && around(g, a, b) < 4 {
                    lemma_queued_pop(q, a, b);
                }
            }
        }
        removed += 1;
        let mut k: u8 = 0;
        while k < 9
            invariant
                k <= 9,
                y < grid@.len(),
                x < grid@[y as int]@.len(),
                rows(grid@) == without(g, y as int, x as int),
                tables_fit(rows(grid@), levels(counts@), queue@),
                forall|a: int, b: int| #[trigger]
                    cell_ok(rows(grid@), levels(counts@), queue@, y as int, x as int, k as int, a, b),
                queue@.len() <= q1.len() + k,
            decreases 9 - k,
        {
            settle(grid, &mut counts, &mut queue, y, x, k);
            k += 1;
        }
        proof {
            let w = rows(grid@);
            assert forall|a: int, b: int| #[trigger]
                cell_ok(w, levels(counts@), queue@, 0, 0, 9, a, b) by {
                assert(cell_ok(w, levels(counts@), queue@, y as int, x as int, 9, a, b));
            }
        }
    }
    proof {
        let c = rows(grid@);
        assert forall|y: int, x: int| roll_at(c, y, x) implies #[trigger] around(c, y, x) >= 4 by {
            assert(cell_ok(c, levels(counts@), queue@, 0, 0, 9, y, x));
        }
    }
    removed
}

/// The grid that the text writes.
pub open spec fn puzzle_grid(input: Seq<char>) -> Seq<Seq<bool>> {
    grid_of(lines_of(input), lines_of(input).len() as int)
}

/// The result gives `n` in decimal, or `Overflow` where `n` does not fit a
/// `u64`.
pub open spec fn answers(result: Result<String, Day04Error>, n: int) -> bool {
    match result {
        Ok(s) => 0 <= n <= u64::MAX && s@ == decimal_chars(n as nat),
        Err(_) => n > u64::MAX,
    }
}

/// How many rolls fewer than four others stand around, in decimal.
pub fn part1(input: &str) -> (result: Result<String, Day04Error>)
    ensures
        answers(
            result,
            accessible_total(puzzle_grid(input@), puzzle_grid(input@).len() as int),
        ),
{
    let grid = parse_grid(input);
    assert(rows(grid@).len() == grid@.len());
    let count = count_accessible(&grid);
    if count > u64::MAX as u128 {
        return Err(Day04Error::Overflow);
    }
    Ok(decimal_string(count as u64))
}

/// How many rolls can be taken away in all, one after another, in decimal:
/// all but the greatest stable part of the grid.
pub fn part2(input: &str) -> (result: Result<String, Day04Error>)
    ensures
        exists|core: Seq<Seq<bool>>| #[trigger]
            is_core(core, puzzle_grid(input@)) && answers(
                result,
                rolls_total(puzzle_grid(input@), puzzle_grid(input@).len() as int) - rolls_total(
                    core,
                    puzzle_grid(input@).len() as int,
                ),
            ),
{
    let mut grid = parse_grid(input);
    let ghost g = rows(grid@);
    assert(g.len() == grid@.len());
    let removed = peel(&mut grid);
    assert(is_core(rows(grid@), g));
    assert(rows(grid@).len() == grid@.len());
    assert(rows(grid@).len() == g.len());
    let result = if removed > u64::MAX as u128 {
        Err(Day04Error::Overflow)
    } else {
        Ok(decimal_string(removed as u64))
    };
    proof {
        let core = rows(grid@);
        let puzzle = puzzle_grid(input@);
        assert(g == puzzle);
        assert(is_core(core, puzzle) && answers(
            result,
            rolls_total(puzzle, puzzle.len() as int) - rolls_total(core, puzzle.len() as int),
        ));
    }
    result
}

} // verus!
