//! A grid that stores only the cells that are set.

use vstd::prelude::*;
use std::collections::HashMap;
use crate::ds::coords::Point;
use vstd::std_specs::iter::IteratorSpec;

verus! {

broadcast use vstd::std_specs::hash::group_hash_axioms;

/// The key under which the cell at `p` is kept: the coordinates packed into
/// one integer.
pub open spec fn cell_key(p: Point) -> i128 {
    (p.x * 0x1_0000_0000_0000_0000 + (p.y + 0x8000_0000_0000_0000)) as i128
}

/// Different points have different keys.
pub proof fn lemma_cell_key_injective(p: Point, q: Point)
    requires
        cell_key(p) == cell_key(q),
    ensures
        p == q,
{
    let a = p.y + 0x8000_0000_0000_0000;
    let b = q.y + 0x8000_0000_0000_0000;
    assert(p.x == q.x) by (nonlinear_arith)
        requires
            p.x * 0x1_0000_0000_0000_0000 + a == q.x * 0x1_0000_0000_0000_0000 + b,
            0 <= a < 0x1_0000_0000_0000_0000,
            0 <= b < 0x1_0000_0000_0000_0000,
    ;
}

/// The key under which the cell at `p` is kept.
fn key_of(p: &Point) -> (k: i128)
    ensures
        k == cell_key(*p),
{
    (p.x as i128) * 0x1_0000_0000_0000_0000 + ((p.y as i128) + 0x8000_0000_0000_0000)
}

/// `HashMap::get_mut`: a mutable reference to the value of the key, if it
/// has one; the other entries stay as they are.
#[verifier::external_body]
fn map_get_mut<'a, V>(m: &'a mut HashMap<i128, V>, k: i128) -> (found: Option<&'a mut V>)
    ensures
        match found {
            Some(v) => old(m)@.contains_key(k) && *v == old(m)@[k] && final(m)@ == old(m)@.insert(
                k,
                *final(v),
            ),
            None => !old(m)@.contains_key(k) && final(m)@ == old(m)@,
        },
{
    m.get_mut(&k)
}

/// The grid that the cells kept make up.
pub open spec fn grid_of<T>(cells: Map<i128, (Point, T)>) -> Map<Point, T> {
    Map::new(|p: Point| cells.contains_key(cell_key(p)), |p: Point| cells[cell_key(p)].1)
}

/// Changing the value kept for a point changes the grid at that point.
proof fn lemma_grid_insert<T>(cells: Map<i128, (Point, T)>, p: Point, t: T)
    ensures
        grid_of(cells.insert(cell_key(p), (p, t))) == grid_of(cells).insert(p, t),
{
    let k = cell_key(p);
    let a = grid_of(cells.insert(k, (p, t)));
    let b = grid_of(cells).insert(p, t);
    assert forall|q: Point| a.contains_key(q) <==> b.contains_key(q) by {
        if cell_key(q) == k {
            lemma_cell_key_injective(q, p);
        }
    }
    assert forall|q: Point| a.contains_key(q) implies a[q] == b[q] by {
        if cell_key(q) == k {
            lemma_cell_key_injective(q, p);
        }
    }
    assert(a =~= b);
}

/// A grid with a value at some of its points.
pub struct SparseGrid<T> {
    cells: HashMap<i128, (Point, T)>,
}

impl<T> View for SparseGrid<T> {
    type V = Map<Point, T>;

    /// The value at every point that has one.
    closed spec fn view(&self) -> Map<Point, T> {
        grid_of(self.cells@)
    }
}

impl<T> SparseGrid<T> {
    /// Every cell is kept under the key of its point.
    pub closed spec fn wf(&self) -> bool {
        forall|k: i128| self.cells@.contains_key(k) ==> cell_key(#[trigger] self.cells@[k].0) == k
    }

    /// The empty grid.
    pub fn new() -> (g: Self)
        ensures
            g.wf(),
            g@ == Map::<Point, T>::empty(),
    {
        let g = SparseGrid { cells: HashMap::new() };
        assert(g@ =~= Map::<Point, T>::empty());
        g
    }

    /// Whether no point has a value.
    pub fn is_empty(&self) -> (empty: bool)
        requires
            self.wf(),
        ensures
            empty == (self@ == Map::<Point, T>::empty()),
    {
        let empty = self.cells.len() == 0;
        proof {
            if empty {
                assert(self.cells@.dom().len() == 0);
                assert(self.cells@.dom().finite());
                self.cells@.dom().lemma_len0_is_empty();
                assert(self@ =~= Map::<Point, T>::empty());
            } else {
                if self@ == Map::<Point, T>::empty() {
                    assert(self.cells@.dom().len() > 0);
                    let k = self.cells@.dom().choose();
                    assert(self.cells@.contains_key(k));
                    assert(self@.contains_key(self.cells@[k].0));
                }
            }
        }
        empty
    }

    /// There are as many points with a value as cells kept.
    proof fn lemma_same_len(&self)
        requires
            self.wf(),
        ensures
            self@.dom().finite(),
            self@.len() == self.cells@.len(),
    {
        let keys = self.cells@.dom();
        let cells = self.cells@;
        let f = |k: i128| cells[k].0;
        assert(vstd::relations::injective_on(f, keys)) by {
            assert forall|a: i128, b: i128|
                keys.contains(a) && keys.contains(b) && #[trigger] f(a) == #[trigger] f(
                    b,
                ) implies a == b by {
                assert(cell_key(cells[a].0) == a);
                assert(cell_key(cells[b].0) == b);
            }
        }
        assert(keys.map(f) =~= self@.dom()) by {
            assert forall|p: Point| keys.map(f).contains(p) <==> self@.dom().contains(p) by {
                if keys.map(f).contains(p) {
                    let k = choose|k: i128| keys.contains(k) && f(k) == p;
                    assert(cell_key(cells[k].0) == k);
                }
                if self@.dom().contains(p) {
                    let k = cell_key(p);
                    assert(keys.contains(k));
                    lemma_cell_key_injective(cells[k].0, p);
                    assert(f(k) == p);
                }
            }
        }
        vstd::set_lib::lemma_map_size(keys, self@.dom(), f);
    }

    /// The number of points with a value.
    pub fn len(&self) -> (n: usize)
        requires
            self.wf(),
        ensures
            self@.dom().finite(),
            n == self@.len(),
    {
        proof {
            self.lemma_same_len();
        }
        self.cells.len()
    }

    /// The cells: each point that has a value, with its value.
    pub fn iter(&self) -> (cells: Vec<(Point, &T)>)
        requires
            self.wf(),
        ensures
            forall|i: int|
                0 <= i < cells@.len() ==> self@.contains_key((#[trigger] cells@[i]).0) && *cells@[i].1
                    == self@[cells@[i].0],
            forall|p: Point|
                self@.contains_key(p) ==> exists|i: int|
                    0 <= i < cells@.len() && (#[trigger] cells@[i]).0 == p,
            cells@.len() == self@.len(),
    {
        broadcast use vstd::std_specs::hash::axiom_spec_values_iter;

        proof {
            self.lemma_same_len();
        }
        let mut out: Vec<(Point, &T)> = Vec::new();
        let ghost seq = vstd::std_specs::hash::spec_values_iter(&self.cells).remaining();
        for pair in it: self.cells.values()
            invariant
                self.wf(),
                it.seq() == seq,
                seq.unref().to_set() == self.cells@.values(),
                seq.len() == self.cells@.dom().len(),
                out@.len() == it.index(),
                forall|i: int|
                    0 <= i < out@.len() ==> (#[trigger] out@[i]).0 == it.seq()[i].0 && *out@[i].1
                        == it.seq()[i].1,
        {
            out.push((pair.0, &pair.1));
        }
        proof {
            let cells = self.cells@;
            assert forall|i: int| 0 <= i < out@.len() implies self@.contains_key(
                (#[trigger] out@[i]).0,
            ) && *out@[i].1 == self@[out@[i].0] by {
                let stored = *seq[i];
                assert(seq.unref()[i] == stored);
                assert(seq.unref().to_set().contains(stored));
                assert(cells.values().contains(stored));
                let k = choose|k: i128| cells.contains_key(k) && cells[k] == stored;
                assert(cell_key(cells[k].0) == k);
            }
            assert forall|p: Point| self@.contains_key(p) implies exists|i: int|
                0 <= i < out@.len() && (#[trigger] out@[i]).0 == p by {
                let k = cell_key(p);
                let stored = cells[k];
                lemma_cell_key_injective(stored.0, p);
                assert(cells.values().contains(stored));
                assert(seq.unref().to_set().contains(stored));
                let i = choose|i: int| 0 <= i < seq.unref().len() && seq.unref()[i] == stored;
                assert(out@[i].0 == p);
            }
        }
        out
    }

    /// The smallest and the greatest coordinates of the points with a
    /// value, as `(min x, max x, min y, max y)`; `None` for the empty grid.
    pub fn bounds(&self) -> (b: Option<(i64, i64, i64, i64)>)
        requires
            self.wf(),
        ensures
            match b {
                None => self@ == Map::<Point, T>::empty(),
                Some((min_x, max_x, min_y, max_y)) => {
                    &&& forall|p: Point| #[trigger]
                        self@.contains_key(p) ==> min_x <= p.x <= max_x && min_y <= p.y <= max_y
                    &&& exists|p: Point| #[trigger] self@.contains_key(p) && p.x == min_x
                    &&& exists|p: Point| #[trigger] self@.contains_key(p) && p.x == max_x
                    &&& exists|p: Point| #[trigger] self@.contains_key(p) && p.y == min_y
                    &&& exists|p: Point| #[trigger] self@.contains_key(p) && p.y == max_y
                },
            },
    {
        let cells = self.iter();
        if cells.len() == 0 {
            proof {
                assert forall|p: Point| !self@.contains_key(p) by {
                    if self@.contains_key(p) {
                        let i = choose|i: int| 0 <= i < cells@.len() && (#[trigger] cells@[i]).0 == p;
                    }
                }
                assert(self@ =~= Map::<Point, T>::empty());
            }
            return None;
        }
        let first = cells[0].0;
        let mut min_x = first.x;
        let mut max_x = first.x;
        let mut min_y = first.y;
        let mut max_y = first.y;
        for k in 1..cells.len()
            invariant
                forall|i: int| 0 <= i < cells@.len() ==> self@.contains_key((#[trigger] cells@[i]).0),
                forall|i: int|
                    0 <= i < k ==> min_x <= (#[trigger] cells@[i]).0.x <= max_x && min_y
                        <= cells@[i].0.y <= max_y,
                exists|i: int| 0 <= i < k && (#[trigger] cells@[i]).0.x == min_x,
                exists|i: int| 0 <= i < k && (#[trigger] cells@[i]).0.x == max_x,
                exists|i: int| 0 <= i < k && (#[trigger] cells@[i]).0.y == min_y,
                exists|i: int| 0 <= i < k && (#[trigger] cells@[i]).0.y == max_y,
        {
            let p = cells[k].0;
            proof {
                let a = choose|i: int| 0 <= i < k && (#[trigger] cells@[i]).0.x == min_x;
                let b = choose|i: int| 0 <= i < k && (#[trigger] cells@[i]).0.x == max_x;
                let c = choose|i: int| 0 <= i < k && (#[trigger] cells@[i]).0.y == min_y;
                let d = choose|i: int| 0 <= i < k && (#[trigger] cells@[i]).0.y == max_y;
                assert(0 <= a < k + 1 && cells@[a].0.x == min_x);
                assert(0 <= b < k + 1 && cells@[b].0.x == max_x);
                assert(0 <= c < k + 1 && cells@[c].0.y == min_y);
                assert(0 <= d < k + 1 && cells@[d].0.y == max_y);
                assert(cells@[k as int].0 == p);
            }
            if p.x < min_x {
                min_x = p.x;
            }
            if p.x > max_x {
                max_x = p.x;
            }
            if p.y < min_y {
                min_y = p.y;
            }
            if p.y > max_y {
                max_y = p.y;
            }
        }
        proof {
            let n = cells@.len() as int;
            assert forall|p: Point| #[trigger] self@.contains_key(p) implies min_x <= p.x <= max_x
                && min_y <= p.y <= max_y by {
                let i = choose|i: int| 0 <= i < cells@.len() && (#[trigger] cells@[i]).0 == p;
                assert(min_x <= cells@[i].0.x <= max_x);
            }
            let a = choose|i: int| 0 <= i < n && (#[trigger] cells@[i]).0.x == min_x;
            let b = choose|i: int| 0 <= i < n && (#[trigger] cells@[i]).0.x == max_x;
            let c = choose|i: int| 0 <= i < n && (#[trigger] cells@[i]).0.y == min_y;
            let d = choose|i: int| 0 <= i < n && (#[trigger] cells@[i]).0.y == max_y;
            assert(self@.contains_key(cells@[a].0) && cells@[a].0.x == min_x);
            assert(self@.contains_key(cells@[b].0) && cells@[b].0.x == max_x);
            assert(self@.contains_key(cells@[c].0) && cells@[c].0.y == min_y);
            assert(self@.contains_key(cells@[d].0) && cells@[d].0.y == max_y);
        }
        Some((min_x, max_x, min_y, max_y))
    }

    /// Gives the point `p` the value `v`, and returns the value it had.
    pub fn insert(&mut self, p: Point, v: T) -> (was: Option<T>)
        requires
            old(self).wf(),
        ensures
            final(self).wf(),
            final(self)@ == old(self)@.insert(p, v),
            match was {
                Some(x) => old(self)@.contains_key(p) && x == old(self)@[p],
                None => !old(self)@.contains_key(p),
            },
    {
        let k = key_of(&p);
        let ghost before = self.cells@;
        let was = self.cells.insert(k, (p, v));
        proof {
            lemma_grid_insert(before, p, v);
            if before.contains_key(k) {
                lemma_cell_key_injective(before[k].0, p);
            }
        }
        match was {
            Some(pair) => Some(pair.1),
            None => None,
        }
    }

    /// The value at `p`, if it has one.
    pub fn get(&self, p: &Point) -> (found: Option<&T>)
        ensures
            match found {
                Some(v) => self@.contains_key(*p) && *v == self@[*p],
                None => !self@.contains_key(*p),
            },
    {
        let k = key_of(p);
        match self.cells.get(&k) {
            Some(pair) => Some(&pair.1),
            None => None,
        }
    }

    /// The value at `p`, to be changed in place, if it has one. The other
    /// cells stay as they are.
    pub fn get_mut(&mut self, p: &Point) -> (found: Option<&mut T>)
        requires
            old(self).wf(),
        ensures
            match found {
                Some(v) => old(self)@.contains_key(*p) && *v == old(self)@[*p] && final(self)@
                    == old(self)@.insert(*p, *final(v)) && final(self).wf(),
                None => !old(self)@.contains_key(*p) && final(self)@ == old(self)@
                    && final(self).wf(),
            },
    {
        let k = key_of(p);
        let ghost before = self.cells@;
        match map_get_mut(&mut self.cells, k) {
            Some(pair) => {
                proof {
                    let stored = before[k].0;
                    lemma_cell_key_injective(stored, *p);
                    assert forall|t: T|
                        #[trigger] grid_of(before.insert(k, (stored, t))) == grid_of(before).insert(
                            *p,
                            t,
                        ) by {
                        lemma_grid_insert(before, *p, t);
                    }
                }
                Some(&mut pair.1)
            },
            None => None,
        }
    }

    /// Takes the value at `p` out of the grid, and returns it.
    pub fn remove(&mut self, p: &Point) -> (was: Option<T>)
        requires
            old(self).wf(),
        ensures
            final(self).wf(),
            final(self)@ == old(self)@.remove(*p),
            match was {
                Some(x) => old(self)@.contains_key(*p) && x == old(self)@[*p],
                None => !old(self)@.contains_key(*p),
            },
    {
        let k = key_of(p);
        let was = self.cells.remove(&k);
        proof {
            assert forall|q: Point| #[trigger]
                final(self)@.contains_key(q) <==> old(self)@.remove(*p).contains_key(q) by {
                if cell_key(q) == cell_key(*p) {
                    lemma_cell_key_injective(q, *p);
                }
            }
            assert(final(self)@ =~= old(self)@.remove(*p));
        }
        match was {
            Some(pair) => Some(pair.1),
            None => None,
        }
    }
}

} // verus!
