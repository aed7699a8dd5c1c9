//! A grid of paper rolls: reading it, counting the rolls around a place,
//! and counting the rolls that fewer than four others stand around.

use vstd::prelude::*;
use crate::ds::parsing::{lines_of, split_lines, trim, trimmed};

verus! {

/// The rows of a grid as sequences.
pub open spec fn rows(grid: Seq<Vec<bool>>) -> Seq<Seq<bool>> {
    grid.map_values(|row: Vec<bool>| row@)
}

/// A roll stands at row `y`, column `x`; outside the grid stands none.
pub open spec fn roll_at(g: Seq<Seq<bool>>, y: int, x: int) -> bool {
    0 <= y < g.len() && 0 <= x < g[y].len() && g[y][x]
}

/// One for a roll, zero for none.
pub open spec fn one_if(b: bool) -> int {
    if b {
        1
    } else {
        0
    }
}

/// How many rolls stand on the eight places around `(y, x)`.
pub open spec fn around(g: Seq<Seq<bool>>, y: int, x: int) -> int {
    one_if(roll_at(g, y - 1, x - 1)) + one_if(roll_at(g, y - 1, x)) + one_if(roll_at(g, y - 1, x + 1)) + one_if(
        roll_at(g, y, x - 1),
    ) + one_if(roll_at(g, y, x + 1)) + one_if(roll_at(g, y + 1, x - 1)) + one_if(roll_at(g, y + 1, x)) + one_if(
        roll_at(g, y + 1, x + 1),
    )
}

/// The row of a line: a roll for each `@`.
pub open spec fn row_of(line: Seq<char>) -> Seq<bool> {
    line.map_values(|c: char| c == '@')
}

/// The grid that the first `n` lines write; blank lines are passed over.
pub open spec fn grid_of(lines: Seq<Seq<char>>, n: int) -> Seq<Seq<bool>>
    decreases n,
{
    if n <= 0 {
        Seq::empty()
    } else if trimmed(lines[n - 1]).len() == 0 {
        grid_of(lines, n - 1)
    } else {
        grid_of(lines, n - 1).push(row_of(lines[n - 1]))
    }
}

/// Reads the grid.
pub fn parse_grid(input: &str) -> (grid: Vec<Vec<bool>>)
    ensures
        rows(grid@) == grid_of(lines_of(input@), lines_of(input@).len() as int),
{
    let lines = split_lines(input);
    let ghost all = lines_of(input@);
    let mut grid: Vec<Vec<bool>> = Vec::new();
    let mut k: usize = 0;
    while k < lines.len()
        invariant
            k <= lines@.len(),
            all == lines_of(input@),
            lines@.len() == all.len(),
            forall|q: int| 0 <= q < lines@.len() ==> (#[trigger] lines@[q])@ == all[q],
            rows(grid@) == grid_of(all, k as int),
        decreases lines@.len() - k,
    {
        assert(lines@[k as int]@ == all[k as int]);
        let t = trim(&lines[k]);
        if t.len() > 0 {
            let line = &lines[k];
            let mut row: Vec<bool> = Vec::new();
            let mut j: usize = 0;
            while j < line.len()
                invariant
                    j <= line@.len(),
                    row@.len() == j,
                    forall|q: int| 0 <= q < j ==> #[trigger] row@[q] == (line@[q] == '@'),
                decreases line@.len() - j,
            {
                row.push(line[j] == '@');
                j += 1;
            }
            assert(row@ =~= row_of(line@));
            let ghost before = rows(grid@);
            grid.push(row);
            assert(rows(grid@) =~= before.push(row_of(line@)));
        }
        k += 1;
    }
    grid
}

/// Whether a roll stands on the place that lies `dy - 1` rows and `dx - 1`
/// columns from `(y, x)`.
pub fn roll_near(grid: &Vec<Vec<bool>>, y: usize, x: usize, dy: u8, dx: u8) -> (found: bool)
    requires
        y < grid@.len(),
        x < grid@[y as int]@.len(),
        dy <= 2,
        dx <= 2,
    ensures
        found == roll_at(rows(grid@), y + dy - 1, x + dx - 1),
{
    if (dy == 0 && y == 0) || (dx == 0 && x == 0) {
        return false;
    }
    let height = grid.len();
    let width = grid[y].len();
    assert(y < height && x < width);
    let ny: usize = if dy == 0 {
        y - 1
    } else if dy == 1 {
        y
    } else {
        y + 1
    };
    let nx: usize = if dx == 0 {
        x - 1
    } else if dx == 1 {
        x
    } else {
        x + 1
    };
    if ny >= grid.len() {
        return false;
    }
    assert(rows(grid@)[ny as int] == grid@[ny as int]@);
    if nx >= grid[ny].len() {
        return false;
    }
    grid[ny][nx]
}

/// How many rolls stand on the eight places around `(y, x)`.
pub fn count_neighbors(grid: &Vec<Vec<bool>>, y: usize, x: usize) -> (n: u8)
    requires
        y < grid@.len(),
        x < grid@[y as int]@.len(),
    ensures
        n == around(rows(grid@), y as int, x as int),
        n <= 8,
{
    let mut n: u8 = 0;
    if roll_near(grid, y, x, 0, 0) {
        n += 1;
    }
    if roll_near(grid, y, x, 0, 1) {
        n += 1;
    }
    if roll_near(grid, y, x, 0, 2) {
        n += 1;
    }
    if roll_near(grid, y, x, 1, 0) {
        n += 1;
    }
    if roll_near(grid, y, x, 1, 2) {
        n += 1;
    }
    if roll_near(grid, y, x, 2, 0) {
        n += 1;
    }
    if roll_near(grid, y, x, 2, 1) {
        n += 1;
    }
    if roll_near(grid, y, x, 2, 2) {
        n += 1;
    }
    n
}

/// A roll that fewer than four others stand around.
pub open spec fn accessible(g: Seq<Seq<bool>>, y: int, x: int) -> bool {
    roll_at(g, y, x) && around(g, y, x) < 4
}

/// How many of the first `n` places of row `y` hold an accessible roll.
pub open spec fn accessible_in_row(g: Seq<Seq<bool>>, y: int, n: int) -> int
    decreases n,
{
    if n <= 0 {
        0
    } else {
        accessible_in_row(g, y, n - 1) + one_if(accessible(g, y, n - 1))
    }
}

/// How many accessible rolls the first `n` rows hold.
pub open spec fn accessible_total(g: Seq<Seq<bool>>, n: int) -> int
    decreases n,
{
    if n <= 0 {
        0
    } else {
        accessible_total(g, n - 1) + accessible_in_row(g, n - 1, g[n - 1].len() as int)
    }
}

/// How many rolls of the grid fewer than four others stand around.
pub fn count_accessible(grid: &Vec<Vec<bool>>) -> (count: u128)
    ensures
        count == accessible_total(rows(grid@), grid@.len() as int),
{
    let mut count: u128 = 0;
    let mut y: usize = 0;
    while y < grid.len()
        invariant
            y <= grid@.len(),
            count == accessible_total(rows(grid@), y as int),
            count <= 0xffff_ffff_ffff_ffff * y,
        decreases grid@.len() - y,
    {
        assert(rows(grid@)[y as int] == grid@[y as int]@);
        let mut in_row: u64 = 0;
        let mut x: usize = 0;
        while x < grid[y].len()
            invariant
                y < grid@.len(),
                x <= grid@[y as int]@.len(),
                in_row == accessible_in_row(rows(grid@), y as int, x as int),
                in_row <= x,
            decreases grid@[y as int]@.len() - x,
        {
            if grid[y][x] && count_neighbors(grid, y, x) < 4 {
                in_row += 1;
            }
            x += 1;
        }
        count = count + in_row as u128;
        y += 1;
    }
    count
}

} // verus!
