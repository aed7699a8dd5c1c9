//! A rectangular grid stored row by row.

use vstd::prelude::*;
use crate::ds::coords::Point;

verus! {

/// A grid of `w` columns and `h` rows.
#[derive(Clone, Debug)]
pub struct DenseGrid2D<T> {
    w: usize,
    h: usize,
    data: Vec<T>,
}

impl<T> DenseGrid2D<T> {
    /// The number of columns.
    pub closed spec fn spec_width(&self) -> nat {
        self.w as nat
    }

    /// The number of rows.
    pub closed spec fn spec_height(&self) -> nat {
        self.h as nat
    }

    /// The cells row by row: cell `(x, y)` is at `y * width + x`.
    pub closed spec fn cells(&self) -> Seq<T> {
        self.data@
    }

    /// There is one cell for each column of each row.
    pub closed spec fn wf(&self) -> bool {
        self.data@.len() == self.w * self.h
    }

    /// Whether `(x, y)` names a cell.
    pub open spec fn contains(&self, x: int, y: int) -> bool {
        0 <= x < self.spec_width() && 0 <= y < self.spec_height()
    }

    /// The number of columns.
    pub fn width(&self) -> (w: usize)
        ensures
            w == self.spec_width(),
    {
        self.w
    }

    /// The number of rows.
    pub fn height(&self) -> (h: usize)
        ensures
            h == self.spec_height(),
    {
        self.h
    }

    /// The place of cell `(x, y)` in row-major order.
    pub fn idx(&self, x: usize, y: usize) -> (i: usize)
        requires
            y * self.spec_width() + x <= usize::MAX,
        ensures
            i == y * self.spec_width() + x,
    {
        assert(y * self.w <= y * self.w + x) by (nonlinear_arith);
        y * self.w + x
    }

    /// Whether `(x, y)` names a cell.
    pub fn in_bounds(&self, x: i64, y: i64) -> (inside: bool)
        ensures
            inside == self.contains(x as int, y as int),
    {
        if x < 0 || y < 0 {
            false
        } else {
            (x as u64) < self.w as u64 && (y as u64) < self.h as u64
        }
    }

    /// The cell `(x, y)`.
    pub fn get(&self, x: usize, y: usize) -> (cell: &T)
        requires
            y * self.spec_width() + x < self.cells().len(),
        ensures
            *cell == self.cells()[y * self.spec_width() + x],
    {
        let cells = self.data.len();
        let i = self.idx(x, y);
        &self.data[i]
    }

    /// The cell `(x, y)`, to be changed in place. The other cells stay as
    /// they are.
    pub fn get_mut(&mut self, x: usize, y: usize) -> (cell: &mut T)
        requires
            y * old(self).spec_width() + x < old(self).cells().len(),
        ensures
            *cell == old(self).cells()[y * old(self).spec_width() + x],
            final(self).cells() == old(self).cells().update(
                y * old(self).spec_width() + x,
                *final(cell),
            ),
            final(self).spec_width() == old(self).spec_width(),
            final(self).spec_height() == old(self).spec_height(),
            old(self).wf() ==> final(self).wf(),
    {
        let cells = self.data.len();
        let i = self.idx(x, y);
        &mut self.data[i]
    }

    /// The cells next to `(x, y)` along an axis that lie in the grid, in the
    /// order east, west, south, north.
    pub fn neighbors4(&self, x: usize, y: usize) -> (near: Vec<Point>)
        requires
            x < i64::MAX,
            y < i64::MAX,
        ensures
            near@ == seq![
                Point { x: (x + 1) as i64, y: y as i64 },
                Point { x: (x - 1) as i64, y: y as i64 },
                Point { x: x as i64, y: (y + 1) as i64 },
                Point { x: x as i64, y: (y - 1) as i64 },
            ].filter(|p: Point| self.contains(p.x as int, p.y as int)),
    {
        let xi = x as i64;
        let yi = y as i64;
        let cand = [
            Point::new(xi + 1, yi),
            Point::new(xi - 1, yi),
            Point::new(xi, yi + 1),
            Point::new(xi, yi - 1),
        ];
        assert(cand@ =~= seq![
            Point { x: (x + 1) as i64, y: y as i64 },
            Point { x: (x - 1) as i64, y: y as i64 },
            Point { x: x as i64, y: (y + 1) as i64 },
            Point { x: x as i64, y: (y - 1) as i64 },
        ]);
        self.inside(cand.as_slice())
    }

    /// The cells next to `(x, y)` along an axis or a diagonal that lie in
    /// the grid, column by column from west to east and in each column from
    /// north to south.
    pub fn neighbors8(&self, x: usize, y: usize) -> (near: Vec<Point>)
        requires
            x < i64::MAX,
            y < i64::MAX,
        ensures
            near@ == seq![
                Point { x: (x - 1) as i64, y: (y - 1) as i64 },
                Point { x: (x - 1) as i64, y: y as i64 },
                Point { x: (x - 1) as i64, y: (y + 1) as i64 },
                Point { x: x as i64, y: (y - 1) as i64 },
                Point { x: x as i64, y: (y + 1) as i64 },
                Point { x: (x + 1) as i64, y: (y - 1) as i64 },
                Point { x: (x + 1) as i64, y: y as i64 },
                Point { x: (x + 1) as i64, y: (y + 1) as i64 },
            ].filter(|p: Point| self.contains(p.x as int, p.y as int)),
    {
        let xi = x as i64;
        let yi = y as i64;
        let cand = [
            Point::new(xi - 1, yi - 1),
            Point::new(xi - 1, yi),
            Point::new(xi - 1, yi + 1),
            Point::new(xi, yi - 1),
            Point::new(xi, yi + 1),
            Point::new(xi + 1, yi - 1),
            Point::new(xi + 1, yi),
            Point::new(xi + 1, yi + 1),
        ];
        assert(cand@ =~= seq![
            Point { x: (x - 1) as i64, y: (y - 1) as i64 },
            Point { x: (x - 1) as i64, y: y as i64 },
            Point { x: (x - 1) as i64, y: (y + 1) as i64 },
            Point { x: x as i64, y: (y - 1) as i64 },
            Point { x: x as i64, y: (y + 1) as i64 },
            Point { x: (x + 1) as i64, y: (y - 1) as i64 },
            Point { x: (x + 1) as i64, y: y as i64 },
            Point { x: (x + 1) as i64, y: (y + 1) as i64 },
        ]);
        self.inside(cand.as_slice())
    }

    /// The points of `cand` that name a cell, in order.
    fn inside(&self, cand: &[Point]) -> (near: Vec<Point>)
        ensures
            near@ == cand@.filter(|p: Point| self.contains(p.x as int, p.y as int)),
    {
        let ghost keep = |p: Point| self.contains(p.x as int, p.y as int);
        let mut near: Vec<Point> = Vec::new();
        proof {
            reveal(Seq::filter);
            assert(cand@.subrange(0, 0) =~= Seq::<Point>::empty());
        }
        for k in 0..cand.len()
            invariant
                keep == (|p: Point| self.contains(p.x as int, p.y as int)),
                near@ == cand@.subrange(0, k as int).filter(keep),
        {
            let p = cand[k];
            proof {
                reveal(Seq::filter);
                assert(cand@.subrange(0, k + 1).drop_last() =~= cand@.subrange(0, k as int));
                assert(cand@.subrange(0, k + 1).last() == p);
            }
            if self.in_bounds(p.x, p.y) {
                near.push(p);
            }
        }
        assert(cand@.subrange(0, cand@.len() as int) =~= cand@);
        near
    }
}

impl<T: Clone> DenseGrid2D<T> {
    /// A grid of `w` columns and `h` rows with a copy of `fill` in every
    /// cell.
    pub fn new(w: usize, h: usize, fill: T) -> (grid: Self)
        requires
            w * h <= usize::MAX,
        ensures
            grid.wf(),
            grid.spec_width() == w,
            grid.spec_height() == h,
            grid.cells().len() == w * h,
            forall|i: int| 0 <= i < w * h ==> cloned(fill, #[trigger] grid.cells()[i]),
    {
        DenseGrid2D { w, h, data: vec![fill; w * h] }
    }
}

} // verus!
