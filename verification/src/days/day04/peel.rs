//! Taking rolls away one after another, as long as one stands that fewer
//! than four others stand around. What is left in the end is the greatest
//! part of the grid in which every roll has four others around it.

use std::collections::VecDeque;
use vstd::prelude::*;
use crate::days::day04::rolls::{around, count_neighbors, one_if, roll_at, rows};

verus! {

/// The rows of a table of counts as sequences.
pub open spec fn levels(counts: Seq<Vec<u8>>) -> Seq<Seq<u8>> {
    counts.map_values(|row: Vec<u8>| row@)
}

/// The two grids have the same rows of the same lengths.
pub open spec fn same_shape(a: Seq<Seq<bool>>, b: Seq<Seq<bool>>) -> bool {
    a.len() == b.len() && forall|y: int| 0 <= y < a.len() ==> (#[trigger] a[y]).len() == b[y].len()
}

/// Every roll of `a` is a roll of `b`, and the grids have one shape.
pub open spec fn within(a: Seq<Seq<bool>>, b: Seq<Seq<bool>>) -> bool {
    same_shape(a, b) && forall|y: int, x: int| #[trigger] roll_at(a, y, x) ==> roll_at(b, y, x)
}

/// Around every roll stand at least four others.
pub open spec fn stable(s: Seq<Seq<bool>>) -> bool {
    forall|y: int, x: int| roll_at(s, y, x) ==> #[trigger] around(s, y, x) >= 4
}

/// `c` is the greatest stable part of `g`.
pub open spec fn is_core(c: Seq<Seq<bool>>, g: Seq<Seq<bool>>) -> bool {
    &&& within(c, g)
    &&& stable(c)
    &&& forall|s: Seq<Seq<bool>>| within(s, g) && #[trigger] stable(s) ==> within(s, c)
}

/// How many rolls the first `n` places of a row hold.
pub open spec fn row_rolls(row: Seq<bool>, n: int) -> int
    decreases n,
{
    if n <= 0 {
        0
    } else {
        row_rolls(row, n - 1) + one_if(row[n - 1])
    }
}

/// How many rolls the first `n` rows hold.
pub open spec fn rolls_total(g: Seq<Seq<bool>>, n: int) -> int
    decreases n,
{
    if n <= 0 {
        0
    } else {
        rolls_total(g, n - 1) + row_rolls(g[n - 1], g[n - 1].len() as int)
    }
}

/// The place `(y, x)` waits in the queue.
pub open spec fn queued(q: Seq<(usize, usize)>, y: int, x: int) -> bool {
    exists|i: int| 0 <= i < q.len() && (#[trigger] q[i]).0 == y && q[i].1 == x
}

/// `(y, x)` is one of the eight places around `(cy, cx)`, and its number
/// among them, counted row by row, is at least `k`.
pub open spec fn pending(cy: int, cx: int, k: int, y: int, x: int) -> bool {
    &&& cy - 1 <= y <= cy + 1
    &&& cx - 1 <= x <= cx + 1
    &&& !(y == cy && x == cx)
    &&& (y - cy + 1) * 3 + (x - cx + 1) >= k
}

/// What the table of counts and the queue hold for the place `(y, x)`
/// while the places around `(cy, cx)` are being brought up to date: the
/// count is that of the rolls around the place, one more where the place
/// is still pending; a roll with fewer than four around it waits in the
/// queue, unless it is pending.
pub open spec fn cell_ok(
    g: Seq<Seq<bool>>,
    cv: Seq<Seq<u8>>,
    q: Seq<(usize, usize)>,
    cy: int,
    cx: int,
    k: int,
    y: int,
    x: int,
) -> bool {
    roll_at(g, y, x) ==> {
        &&& cv[y][x] == around(g, y, x) + one_if(pending(cy, cx, k, y, x))
        &&& (around(g, y, x) < 4 && !pending(cy, cx, k, y, x) ==> queued(q, y, x))
    }
}

/// The table of counts has the shape of the grid, and the places in the
/// queue lie in the grid.
pub open spec fn tables_fit(g: Seq<Seq<bool>>, cv: Seq<Seq<u8>>, q: Seq<(usize, usize)>) -> bool {
    &&& cv.len() == g.len()
    &&& forall|y: int| 0 <= y < g.len() ==> (#[trigger] cv[y]).len() == g[y].len()
    &&& forall|i: int| 0 <= i < q.len() ==> (#[trigger] q[i]).0 < g.len() && q[i].1 < g[q[i].0 as int].len()
}

/// The grid without the roll at `(y, x)`.
pub open spec fn without(g: Seq<Seq<bool>>, y: int, x: int) -> Seq<Seq<bool>> {
    g.update(y, g[y].update(x, false))
}

/// Taking a roll from a row lowers its count by one.
pub proof fn lemma_row_rolls_without(row: Seq<bool>, x: int, n: int)
    requires
        0 <= x < row.len(),
        row[x],
        n <= row.len(),
    ensures
        row_rolls(row.update(x, false), n) == row_rolls(row, n) - one_if(x < n),
        row_rolls(row, n) >= 0,
    decreases n,
{
    if n > 0 {
        lemma_row_rolls_without(row, x, n - 1);
    }
}

/// A count of rolls is not negative.
pub proof fn lemma_rolls_nonneg(g: Seq<Seq<bool>>, n: int)
    requires
        n <= g.len(),
    ensures
        rolls_total(g, n) >= 0,
    decreases n,
{
    if n > 0 {
        lemma_rolls_nonneg(g, n - 1);
        lemma_row_nonneg(g[n - 1], g[n - 1].len() as int);
    }
}

/// A count of rolls in a row is not negative.
pub proof fn lemma_row_nonneg(row: Seq<bool>, n: int)
    ensures
        row_rolls(row, n) >= 0,
    decreases n,
{
    if n > 0 {
        lemma_row_nonneg(row, n - 1);
    }
}

/// Taking a roll from the grid lowers its count by one.
pub proof fn lemma_rolls_without(g: Seq<Seq<bool>>, y: int, x: int, n: int)
    requires
        roll_at(g, y, x),
        n <= g.len(),
    ensures
        rolls_total(without(g, y, x), n) == rolls_total(g, n) - one_if(y < n),
    decreases n,
{
    if n > 0 {
        lemma_rolls_without(g, y, x, n - 1);
        if y == n - 1 {
            lemma_row_rolls_without(g[y], x, g[y].len() as int);
        }
    }
}

/// Without the roll at `(cy, cx)`, one roll less stands around each of the
/// eight places around it, and as many as before around every other.
pub proof fn lemma_around_without(g: Seq<Seq<bool>>, cy: int, cx: int, y: int, x: int)
    requires
        roll_at(g, cy, cx),
    ensures
        around(without(g, cy, cx), y, x) == around(g, y, x) - one_if(pending(cy, cx, 0, y, x)),
        roll_at(without(g, cy, cx), y, x) == (roll_at(g, y, x) && !(y == cy && x == cx)),
        same_shape(without(g, cy, cx), g),
{
    let w = without(g, cy, cx);
    assert forall|a: int, b: int| roll_at(w, a, b) == (roll_at(g, a, b) && !(a == cy && b == cx)) by {
        if 0 <= a < g.len() {
            if a == cy {
                assert(w[a] == g[cy].update(cx, false));
            } else {
                assert(w[a] == g[a]);
            }
        }
    }
    assert(roll_at(w, y - 1, x - 1) == (roll_at(g, y - 1, x - 1) && !(y - 1 == cy && x - 1 == cx)));
    assert(roll_at(w, y - 1, x) == (roll_at(g, y - 1, x) && !(y - 1 == cy && x == cx)));
    assert(roll_at(w, y - 1, x + 1) == (roll_at(g, y - 1, x + 1) && !(y - 1 == cy && x + 1 == cx)));
    assert(roll_at(w, y, x - 1) == (roll_at(g, y, x - 1) && !(y == cy && x - 1 == cx)));
    assert(roll_at(w, y, x + 1) == (roll_at(g, y, x + 1) && !(y == cy && x + 1 == cx)));
    assert(roll_at(w, y + 1, x - 1) == (roll_at(g, y + 1, x - 1) && !(y + 1 == cy && x - 1 == cx)));
    assert(roll_at(w, y + 1, x) == (roll_at(g, y + 1, x) && !(y + 1 == cy && x == cx)));
    assert(roll_at(w, y + 1, x + 1) == (roll_at(g, y + 1, x + 1) && !(y + 1 == cy && x + 1 == cx)));
    assert forall|a: int| 0 <= a < w.len() implies (#[trigger] w[a]).len() == g[a].len() by {
        if a == cy {
            assert(w[a] == g[cy].update(cx, false));
        }
    }
}

/// Around a place stand no more rolls of a part than of the whole.
pub proof fn lemma_around_within(s: Seq<Seq<bool>>, g: Seq<Seq<bool>>, y: int, x: int)
    requires
        within(s, g),
    ensures
        around(s, y, x) <= around(g, y, x),
{
    assert(roll_at(s, y - 1, x - 1) ==> roll_at(g, y - 1, x - 1));
    assert(roll_at(s, y - 1, x) ==> roll_at(g, y - 1, x));
    assert(roll_at(s, y - 1, x + 1) ==> roll_at(g, y - 1, x + 1));
    assert(roll_at(s, y, x - 1) ==> roll_at(g, y, x - 1));
    assert(roll_at(s, y, x + 1) ==> roll_at(g, y, x + 1));
    assert(roll_at(s, y + 1, x - 1) ==> roll_at(g, y + 1, x - 1));
    assert(roll_at(s, y + 1, x) ==> roll_at(g, y + 1, x));
    assert(roll_at(s, y + 1, x + 1) ==> roll_at(g, y + 1, x + 1));
}

/// A stable part of the grid holds no roll with fewer than four around it
/// in the grid: it is a part of the grid without that roll.
pub proof fn lemma_stable_without(s: Seq<Seq<bool>>, g: Seq<Seq<bool>>, cy: int, cx: int)
    requires
        within(s, g),
        stable(s),
        roll_at(g, cy, cx),
        around(g, cy, cx) < 4,
    ensures
        within(s, without(g, cy, cx)),
{
    lemma_around_within(s, g, cy, cx);
    assert(around(s, cy, cx) < 4);
    assert(!roll_at(s, cy, cx));
    let w = without(g, cy, cx);
    assert forall|y: int, x: int| #[trigger] roll_at(s, y, x) implies roll_at(w, y, x) by {
        lemma_around_without(g, cy, cx, y, x);
        assert(roll_at(g, y, x));
    }
    lemma_around_without(g, cy, cx, 0, 0);
    assert forall|y: int| 0 <= y < s.len() implies (#[trigger] s[y]).len() == w[y].len() by {
        assert(s[y].len() == g[y].len());
        assert(w[y].len() == g[y].len());
    }
}

/// Puts `value` at `(y, x)`.
pub fn set_roll(grid: &mut Vec<Vec<bool>>, y: usize, x: usize, value: bool)
    requires
        y < old(grid)@.len(),
        x < old(grid)@[y as int]@.len(),
    ensures
        rows(final(grid)@) == rows(old(grid)@).update(
            y as int,
            rows(old(grid)@)[y as int].update(x as int, value),
        ),
{
    let mut held: Vec<bool> = Vec::new();
    core::mem::swap(&mut grid[y], &mut held);
    held[x] = value;
    core::mem::swap(&mut grid[y], &mut held);
    assert(rows(grid@) =~= rows(old(grid)@).update(
        y as int,
        rows(old(grid)@)[y as int].update(x as int, value),
    ));
}

/// Puts `value` at `(y, x)` of the table of counts.
pub fn set_level(counts: &mut Vec<Vec<u8>>, y: usize, x: usize, value: u8)
    requires
        y < old(counts)@.len(),
        x < old(counts)@[y as int]@.len(),
    ensures
        levels(final(counts)@) == levels(old(counts)@).update(
            y as int,
            levels(old(counts)@)[y as int].update(x as int, value),
        ),
{
    let mut held: Vec<u8> = Vec::new();
    core::mem::swap(&mut counts[y], &mut held);
    held[x] = value;
    core::mem::swap(&mut counts[y], &mut held);
    assert(levels(counts@) =~= levels(old(counts)@).update(
        y as int,
        levels(old(counts)@)[y as int].update(x as int, value),
    ));
}

} // verus!
