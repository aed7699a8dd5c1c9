//! Exact row reduction of a linear system.
//!
//! Row operations are carried out on exact rationals, and each of them keeps
//! every real solution of the system.

use vstd::prelude::*;
use crate::days::day10::rational::{rational_from_u64, Rational};
use crate::days::day10::linear::{is_rectangular, matrix_view};
use crate::days::day10::real_rows::{
    coeff, coeff_row, dot, entails, increasing_below, is_complement, lemma_dot_zero_row,
    lemma_entails_reduced, lemma_entails_scaled, lemma_entails_swapped, lemma_pivot_solution,
    lemma_rdiv_unit, lemma_recovers_reduced, lemma_recovers_scaled, lemma_recovers_swapped,
    lemma_recovers_truncated, lemma_rmul_one, lemma_units_reduced, lemma_units_scaled,
    lemma_units_swapped, lemma_zero_reduced, lemma_zero_scaled, lemma_zero_swapped, pivot_solution,
    rational_row, rational_rows, rdiv, real_solves, recovers, reduced_row, rmul, row_wf, rows_hold,
    rows_wf, scaled_row, unit_pivots, zero_before_pivots, zero_below, lemma_before_pushed,
    lemma_before_reduced, lemma_before_scaled, lemma_before_swapped,
};

verus! {

/// A system in reduced row-echelon form: one equation per pivot column.
pub struct EchelonForm {
    /// The coefficients, one row per pivot.
    pub matrix: Vec<Vec<Rational>>,
    /// The right-hand side of each row.
    pub rhs: Vec<Rational>,
    /// The pivot column of each row, in increasing order.
    pub pivot_cols: Vec<usize>,
    /// The columns without a pivot, in increasing order.
    pub free_cols: Vec<usize>,
}

impl EchelonForm {
    /// The shape of a reduced row-echelon form over `cols` columns: one row
    /// per pivot, each pivot column a unit vector, every row zero left of
    /// its pivot, and the free columns the rest.
    pub open spec fn wf(&self, cols: int) -> bool {
        &&& self.matrix@.len() == self.pivot_cols@.len()
        &&& self.rhs@.len() == self.pivot_cols@.len()
        &&& rows_wf(self.matrix@, cols)
        &&& row_wf(self.rhs@)
        &&& increasing_below(self.pivot_cols@, cols)
        &&& is_complement(self.pivot_cols@, self.free_cols@, cols)
        &&& unit_pivots(rational_rows(self.matrix@), self.pivot_cols@)
        &&& zero_before_pivots(rational_rows(self.matrix@), self.pivot_cols@)
    }

    /// Every real solution of the system satisfies the equations of this form.
    pub open spec fn entailed_by(&self, matrix: Seq<Seq<u8>>, target: Seq<u64>) -> bool {
        entails(matrix, target, rational_rows(self.matrix@), rational_row(self.rhs@))
    }

    /// Every vector that satisfies the equations of this form is a real
    /// solution of the system.
    pub open spec fn recovers(&self, matrix: Seq<Seq<u8>>, target: Seq<u64>) -> bool {
        recovers(matrix, target, rational_rows(self.matrix@), rational_row(self.rhs@))
    }
}

/// Exchanges rows `i` and `j` of a matrix.
fn swap_rows(mat: &mut Vec<Vec<Rational>>, i: usize, j: usize)
    requires
        i < old(mat)@.len(),
        j < old(mat)@.len(),
    ensures
        final(mat)@ =~= old(mat)@.update(i as int, old(mat)@[j as int]).update(
            j as int,
            old(mat)@[i as int],
        ),
{
    if i != j {
        let mut held: Vec<Rational> = Vec::new();
        core::mem::swap(&mut mat[i], &mut held);
        core::mem::swap(&mut mat[j], &mut held);
        core::mem::swap(&mut mat[i], &mut held);
    }
}

/// Exchanges entries `i` and `j` of a vector.
fn swap_entries(v: &mut Vec<Rational>, i: usize, j: usize)
    requires
        i < old(v)@.len(),
        j < old(v)@.len(),
    ensures
        final(v)@ =~= old(v)@.update(i as int, old(v)@[j as int]).update(j as int, old(v)@[i as int]),
{
    if i != j {
        let mut held: Rational = rational_from_u64(0);
        core::mem::swap(&mut v[i], &mut held);
        core::mem::swap(&mut v[j], &mut held);
        core::mem::swap(&mut v[i], &mut held);
    }
}

/// The matrix with every non-zero entry read as one, as exact rationals.
fn rational_matrix(matrix: &[Vec<u8>]) -> (mat: Vec<Vec<Rational>>)
    ensures
        mat@.len() == matrix@.len(),
        forall|r: int|
            0 <= r < mat@.len() ==> row_wf((#[trigger] mat@[r])@) && rational_row(mat@[r]@)
                =~= coeff_row(matrix@[r]@),
{
    let mut mat: Vec<Vec<Rational>> = Vec::new();
    for r in 0..matrix.len()
        invariant
            mat@.len() == r,
            forall|k: int|
                0 <= k < r ==> row_wf((#[trigger] mat@[k])@) && rational_row(mat@[k]@)
                    =~= coeff_row(matrix@[k]@),
    {
        let row = &matrix[r];
        let mut out: Vec<Rational> = Vec::new();
        for c in 0..row.len()
            invariant
                out@.len() == c,
                row_wf(out@),
                forall|k: int| 0 <= k < c ==> (#[trigger] out@[k])@ == coeff(row@[k]),
        {
            let q = if row[c] != 0 {
                rational_from_u64(1)
            } else {
                rational_from_u64(0)
            };
            out.push(q);
        }
        mat.push(out);
    }
    mat
}

/// The targets as exact rationals.
fn rational_vector(target: &[u64]) -> (rhs: Vec<Rational>)
    ensures
        rhs@.len() == target@.len(),
        row_wf(rhs@),
        forall|r: int| 0 <= r < rhs@.len() ==> (#[trigger] rhs@[r])@ == target@[r] as real,
{
    let mut rhs: Vec<Rational> = Vec::new();
    for r in 0..target.len()
        invariant
            rhs@.len() == r,
            row_wf(rhs@),
            forall|k: int| 0 <= k < r ==> (#[trigger] rhs@[k])@ == target@[k] as real,
    {
        rhs.push(rational_from_u64(target[r]));
    }
    rhs
}

/// Divides row `row` of the system by its entry in column `col`.
fn scale_row(mat: &mut Vec<Vec<Rational>>, rhs: &mut Vec<Rational>, row: usize, col: usize)
    requires
        old(mat)@.len() == old(rhs)@.len(),
        row < old(mat)@.len(),
        col < old(mat)@[row as int]@.len(),
        rows_wf(old(mat)@, old(mat)@[row as int]@.len() as int),
        row_wf(old(rhs)@),
        old(mat)@[row as int]@[col as int]@ != 0real,
    ensures
        final(mat)@.len() == old(mat)@.len(),
        final(rhs)@.len() == old(rhs)@.len(),
        rows_wf(final(mat)@, old(mat)@[row as int]@.len() as int),
        row_wf(final(rhs)@),
        rational_rows(final(mat)@) =~= rational_rows(old(mat)@).update(
            row as int,
            scaled_row(
                rational_rows(old(mat)@)[row as int],
                old(mat)@[row as int]@[col as int]@,
            ),
        ),
        rational_row(final(rhs)@) =~= rational_row(old(rhs)@).update(
            row as int,
            rdiv(old(rhs)@[row as int]@, old(mat)@[row as int]@[col as int]@),
        ),
{
    let cols = mat[row].len();
    let pivot = mat[row][col].clone();
    let mut out: Vec<Rational> = Vec::new();
    for c in 0..cols
        invariant
            mat@ == old(mat)@,
            row < mat@.len(),
            cols == mat@[row as int]@.len(),
            rows_wf(mat@, cols as int),
            pivot.wf(),
            pivot@ != 0real,
            out@.len() == c,
            row_wf(out@),
            forall|k: int| 0 <= k < c ==> (#[trigger] out@[k])@ == rdiv(mat@[row as int]@[k]@, pivot@),
    {
        out.push(mat[row][c].div(&pivot));
    }
    let scaled_rhs = rhs[row].div(&pivot);
    mat[row] = out;
    rhs[row] = scaled_rhs;
    proof {
        let want = rational_rows(old(mat)@).update(
            row as int,
            scaled_row(rational_rows(old(mat)@)[row as int], pivot@),
        );
        assert forall|r: int| 0 <= r < mat@.len() implies rational_rows(mat@)[r] =~= want[r] by {
            if r != row {
                assert(mat@[r] == old(mat)@[r]);
            }
        }
    }
}

/// Subtracts from row `row` the multiple of row `pivot_row` that clears its
/// entry in column `col`.
fn eliminate_row(
    mat: &mut Vec<Vec<Rational>>,
    rhs: &mut Vec<Rational>,
    row: usize,
    pivot_row: usize,
    col: usize,
)
    requires
        old(mat)@.len() == old(rhs)@.len(),
        row < old(mat)@.len(),
        pivot_row < old(mat)@.len(),
        col < old(mat)@[row as int]@.len(),
        rows_wf(old(mat)@, old(mat)@[row as int]@.len() as int),
        row_wf(old(rhs)@),
    ensures
        final(mat)@.len() == old(mat)@.len(),
        final(rhs)@.len() == old(rhs)@.len(),
        rows_wf(final(mat)@, old(mat)@[row as int]@.len() as int),
        row_wf(final(rhs)@),
        rational_rows(final(mat)@) =~= rational_rows(old(mat)@).update(
            row as int,
            reduced_row(
                rational_rows(old(mat)@)[row as int],
                rational_rows(old(mat)@)[pivot_row as int],
                old(mat)@[row as int]@[col as int]@,
            ),
        ),
        rational_row(final(rhs)@) =~= rational_row(old(rhs)@).update(
            row as int,
            old(rhs)@[row as int]@ - rmul(
                old(rhs)@[pivot_row as int]@,
                old(mat)@[row as int]@[col as int]@,
            ),
        ),
{
    let cols = mat[row].len();
    let factor = mat[row][col].clone();
    let mut out: Vec<Rational> = Vec::new();
    for c in 0..cols
        invariant
            mat@ == old(mat)@,
            row < mat@.len(),
            pivot_row < mat@.len(),
            cols == mat@[row as int]@.len(),
            rows_wf(mat@, cols as int),
            factor.wf(),
            out@.len() == c,
            row_wf(out@),
            forall|k: int|
                0 <= k < c ==> (#[trigger] out@[k])@ == mat@[row as int]@[k]@ - rmul(
                    mat@[pivot_row as int]@[k]@,
                    factor@,
                ),
    {
        let value = mat[pivot_row][c].mul(&factor);
        out.push(mat[row][c].sub(&value));
    }
    let rhs_value = rhs[pivot_row].mul(&factor);
    let reduced_rhs = rhs[row].sub(&rhs_value);
    mat[row] = out;
    rhs[row] = reduced_rhs;
    proof {
        let want = rational_rows(old(mat)@).update(
            row as int,
            reduced_row(
                rational_rows(old(mat)@)[row as int],
                rational_rows(old(mat)@)[pivot_row as int],
                factor@,
            ),
        );
        assert forall|r: int| 0 <= r < mat@.len() implies rational_rows(mat@)[r] =~= want[r] by {
            if r != row {
                assert(mat@[r] == old(mat)@[r]);
            }
        }
    }
}

/// The columns below `cols` that are not pivots, in increasing order.
fn free_columns(pivot_cols: &Vec<usize>, cols: usize) -> (free_cols: Vec<usize>)
    requires
        increasing_below(pivot_cols@, cols as int),
    ensures
        is_complement(pivot_cols@, free_cols@, cols as int),
{
    let mut is_pivot: Vec<bool> = vec![false; cols];
    for k in 0..pivot_cols.len()
        invariant
            increasing_below(pivot_cols@, cols as int),
            is_pivot@.len() == cols,
            forall|c: int|
                0 <= c < cols ==> (#[trigger] is_pivot@[c] <==> exists|i: int|
                    0 <= i < k && pivot_cols@[i] == c),
    {
        let p = pivot_cols[k];
        is_pivot[p] = true;
    }
    let mut free_cols: Vec<usize> = Vec::new();
    for c in 0..cols
        invariant
            is_pivot@.len() == cols,
            forall|d: int|
                0 <= d < cols ==> (#[trigger] is_pivot@[d] <==> pivot_cols@.contains(d as usize)),
            increasing_below(free_cols@, c as int),
            forall|d: usize| d < c ==> (#[trigger] free_cols@.contains(d) <==> !is_pivot@[d as int]),
    {
        if !is_pivot[c] {
            let ghost before = free_cols@;
            free_cols.push(c);
            proof {
                assert(free_cols@[before.len() as int] == c);
                assert forall|d: usize| d < c + 1 implies (#[trigger] free_cols@.contains(d)
                    <==> !is_pivot@[d as int]) by {
                    if d < c {
                        if before.contains(d) {
                            let i = choose|i: int| 0 <= i < before.len() && before[i] == d;
                            assert(free_cols@[i] == d);
                        }
                    }
                }
            }
        }
    }
    free_cols
}

/// Computes the reduced row-echelon form of `matrix * x = target` by
/// Gauss-Jordan elimination on exact rationals, or finds the system
/// inconsistent.
///
/// The form returned has exactly the real solutions of the system, and it
/// has one. `None` is returned when the system has no real solution, and
/// then no press vector satisfies it either.
pub fn compute_rref(matrix: &[Vec<u8>], target: &[u64]) -> (result: Option<EchelonForm>)
    requires
        matrix@.len() == target@.len(),
        matrix@.len() > 0 ==> is_rectangular(matrix_view(matrix@), matrix@[0]@.len() as int),
    ensures
        match result {
            Some(form) => {
                &&& form.wf(
                    if matrix@.len() == 0 {
                        0
                    } else {
                        matrix@[0]@.len() as int
                    },
                )
                &&& form.entailed_by(matrix_view(matrix@), target@)
                &&& form.recovers(matrix_view(matrix@), target@)
                &&& exists|x: Seq<real>| real_solves(matrix_view(matrix@), target@, x)
            },
            None => forall|x: Seq<real>| !real_solves(matrix_view(matrix@), target@, x),
        },
{
    if matrix.len() == 0 {
        proof {
            let x = Seq::<real>::empty();
            assert(real_solves(matrix_view(matrix@), target@, x));
            assert(rational_rows(Seq::<Vec<Rational>>::empty()) =~= Seq::<Seq<real>>::empty());
        }
        return Some(
            EchelonForm {
                matrix: Vec::new(),
                rhs: Vec::new(),
                pivot_cols: Vec::new(),
                free_cols: Vec::new(),
            },
        );
    }
    let rows = matrix.len();
    let cols = matrix[0].len();
    let ghost mv = matrix_view(matrix@);
    let mut mat = rational_matrix(matrix);
    let mut rhs = rational_vector(target);
    proof {
        assert forall|x: Seq<real>| #[trigger] real_solves(mv, target@, x) implies rows_hold(
            rational_rows(mat@),
            rational_row(rhs@),
            x,
        ) by {
            assert forall|r: int| 0 <= r < rows implies dot(
                #[trigger] rational_rows(mat@)[r],
                x,
            ) == rational_row(rhs@)[r] by {
                assert(rational_rows(mat@)[r] == coeff_row(mv[r]));
            }
        }
        assert forall|r: int| 0 <= r < rows implies (#[trigger] mat@[r])@.len() == cols by {
            assert(rational_row(mat@[r]@).len() == coeff_row(mv[r]).len());
        }
        assert forall|x: Seq<real>| #[trigger]
            rows_hold(rational_rows(mat@), rational_row(rhs@), x) implies real_solves(
            mv,
            target@,
            x,
        ) by {
            assert forall|r: int| 0 <= r < mv.len() implies dot(coeff_row(#[trigger] mv[r]), x)
                == target@[r] as real by {
                assert(rational_rows(mat@)[r] == coeff_row(mv[r]));
                assert(dot(rational_rows(mat@)[r], x) == rational_row(rhs@)[r]);
            }
        }
    }
    let mut pivot_cols: Vec<usize> = Vec::new();
    let mut current_row: usize = 0;
    let mut col: usize = 0;
    while col < cols && current_row < rows
        invariant
            rows == matrix@.len(),
            rows == target@.len(),
            cols == matrix@[0]@.len(),
            mv == matrix_view(matrix@),
            mat@.len() == rows,
            rhs@.len() == rows,
            rows_wf(mat@, cols as int),
            row_wf(rhs@),
            entails(mv, target@, rational_rows(mat@), rational_row(rhs@)),
            recovers(mv, target@, rational_rows(mat@), rational_row(rhs@)),
            zero_below(rational_rows(mat@), current_row as int, col as int),
            col <= cols,
            current_row <= rows,
            pivot_cols@.len() == current_row,
            increasing_below(pivot_cols@, col as int),
            unit_pivots(rational_rows(mat@), pivot_cols@),
            zero_before_pivots(rational_rows(mat@), pivot_cols@),
        decreases cols - col,
    {
        let mut pivot_row: Option<usize> = None;
        let mut row = current_row;
        while row < rows
            invariant_except_break
                pivot_row is None,
            invariant
                current_row <= row <= rows,
                col < cols,
                mat@.len() == rows,
                rows_wf(mat@, cols as int),
                forall|q: int| current_row <= q < row ==> (#[trigger] mat@[q])@[col as int]@ == 0real,
            ensures
                match pivot_row {
                    Some(p) => current_row <= p < rows && mat@[p as int]@[col as int]@ != 0real,
                    None => forall|q: int|
                        current_row <= q < rows ==> (#[trigger] mat@[q])@[col as int]@ == 0real,
                },
            decreases rows - row,
        {
            if !mat[row][col].is_zero() {
                pivot_row = Some(row);
                break;
            }
            row += 1;
        }
        if let Some(pivot_idx) = pivot_row {
            let ghost m0 = rational_rows(mat@);
            let ghost r0 = rational_row(rhs@);
            swap_rows(&mut mat, current_row, pivot_idx);
            swap_entries(&mut rhs, current_row, pivot_idx);
            let ghost m1 = rational_rows(mat@);
            let ghost r1 = rational_row(rhs@);
            proof {
                lemma_entails_swapped(mv, target@, m0, r0, current_row as int, pivot_idx as int);
                lemma_recovers_swapped(mv, target@, m0, r0, current_row as int, pivot_idx as int);
                lemma_zero_swapped(
                    m0,
                    current_row as int,
                    col as int,
                    current_row as int,
                    pivot_idx as int,
                );
                lemma_units_swapped(m0, pivot_cols@, current_row as int, pivot_idx as int);
                lemma_before_swapped(m0, pivot_cols@, current_row as int, pivot_idx as int);
                assert(m1 =~= m0.update(current_row as int, m0[pivot_idx as int]).update(
                    pivot_idx as int,
                    m0[current_row as int],
                ));
                assert(r1 =~= r0.update(current_row as int, r0[pivot_idx as int]).update(
                    pivot_idx as int,
                    r0[current_row as int],
                ));
            }
            let ghost p = mat@[current_row as int]@[col as int]@;
            scale_row(&mut mat, &mut rhs, current_row, col);
            let ghost m2 = rational_rows(mat@);
            proof {
                lemma_entails_scaled(mv, target@, m1, r1, current_row as int, p);
                lemma_recovers_scaled(mv, target@, m1, r1, current_row as int, p);
                lemma_zero_scaled(m1, current_row as int, col as int, current_row as int, p);
                lemma_units_scaled(m1, pivot_cols@, p);
                lemma_before_scaled(m1, pivot_cols@, current_row as int, p);
                lemma_rdiv_unit(p);
                assert(m2[current_row as int][col as int] == 1real);
            }
            let mut r: usize = 0;
            while r < rows
                invariant
                    r <= rows,
                    col < cols,
                    current_row < rows,
                    mat@.len() == rows,
                    rhs@.len() == rows,
                    rows_wf(mat@, cols as int),
                    row_wf(rhs@),
                    entails(mv, target@, rational_rows(mat@), rational_row(rhs@)),
                    recovers(mv, target@, rational_rows(mat@), rational_row(rhs@)),
                    zero_below(rational_rows(mat@), current_row as int, col as int),
                    pivot_cols@.len() == current_row,
                    increasing_below(pivot_cols@, col as int),
                    unit_pivots(rational_rows(mat@), pivot_cols@),
                    zero_before_pivots(rational_rows(mat@), pivot_cols@),
                    rational_rows(mat@)[current_row as int][col as int] == 1real,
                    forall|q: int|
                        0 <= q < r && q != current_row ==> (#[trigger] rational_rows(
                            mat@,
                        )[q])[col as int] == 0real,
                decreases rows - r,
            {
                if r != current_row && !mat[r][col].is_zero() {
                    let ghost mb = rational_rows(mat@);
                    let ghost rb = rational_row(rhs@);
                    let ghost f = mat@[r as int]@[col as int]@;
                    eliminate_row(&mut mat, &mut rhs, r, current_row, col);
                    proof {
                        lemma_entails_reduced(mv, target@, mb, rb, r as int, current_row as int, f);
                        lemma_recovers_reduced(mv, target@, mb, rb, r as int, current_row as int, f);
                        lemma_zero_reduced(
                            mb,
                            current_row as int,
                            col as int,
                            r as int,
                            current_row as int,
                            f,
                        );
                        lemma_units_reduced(mb, pivot_cols@, r as int, f);
                        lemma_before_reduced(mb, pivot_cols@, r as int, col as int, f);
                        lemma_rmul_one(f);
                        let ma = rational_rows(mat@);
                        assert(ma[r as int][col as int] == 0real);
                        assert forall|q: int| 0 <= q < r + 1 && q != current_row implies (
                        #[trigger] ma[q])[col as int] == 0real by {
                            if q != r {
                                assert(ma[q] == mb[q]);
                            }
                        }
                    }
                }
                r += 1;
            }
            proof {
                let ma = rational_rows(mat@);
                let old_pivots = pivot_cols@;
                let new_pivots = old_pivots.push(col);
                assert forall|i: int, q: int|
                    0 <= i < new_pivots.len() && 0 <= q < ma.len() implies #[trigger] ma[q][new_pivots[i] as int]
                    == (if q == i {
                    1real
                } else {
                    0real
                }) by {
                    if i < old_pivots.len() {
                        assert(ma[q][old_pivots[i] as int] == (if q == i {
                            1real
                        } else {
                            0real
                        }));
                    }
                }
            }
            proof {
                let ma = rational_rows(mat@);
                assert forall|q: int, c: int|
                    current_row + 1 <= q < ma.len() && 0 <= c < col + 1 implies #[trigger] ma[q][c]
                    == 0real by {
                    if c < col {
                        assert(ma[q][c] == 0real);
                    }
                }
            }
            proof {
                lemma_before_pushed(rational_rows(mat@), pivot_cols@, col);
            }
            pivot_cols.push(col);
            current_row += 1;
        } else {
            proof {
                let ma = rational_rows(mat@);
                assert forall|q: int, c: int|
                    current_row <= q < ma.len() && 0 <= c < col + 1 implies #[trigger] ma[q][c]
                    == 0real by {
                    if c < col {
                        assert(ma[q][c] == 0real);
                    } else {
                        assert(mat@[q]@[col as int]@ == 0real);
                    }
                }
            }
        }
        col += 1;
    }
    let rank = current_row;
    for row in rank..rows
        invariant
            rows == matrix@.len(),
            mv == matrix_view(matrix@),
            mat@.len() == rows,
            rhs@.len() == rows,
            rows_wf(mat@, cols as int),
            row_wf(rhs@),
            entails(mv, target@, rational_rows(mat@), rational_row(rhs@)),
            rank < rows ==> zero_below(rational_rows(mat@), rank as int, cols as int),
            forall|q: int| rank <= q < row ==> (#[trigger] rhs@[q])@ == 0real,
    {
        let mut all_zero = true;
        for c in 0..cols
            invariant
                row < rows,
                mat@.len() == rows,
                rows_wf(mat@, cols as int),
                all_zero <==> forall|k: int| 0 <= k < c ==> (#[trigger] mat@[row as int]@[k])@ == 0real,
        {
            if !mat[row][c].is_zero() {
                all_zero = false;
            }
        }
        proof {
            if !all_zero {
                let k = choose|k: int| 0 <= k < cols && !((#[trigger] mat@[row as int]@[k])@ == 0real);
                assert(rational_rows(mat@)[row as int][k] == 0real);
            }
        }
        if all_zero && !rhs[row].is_zero() {
            proof {
                let m = rational_rows(mat@);
                let rr = rational_row(rhs@);
                assert forall|x: Seq<real>| !real_solves(mv, target@, x) by {
                    if real_solves(mv, target@, x) {
                        assert(rows_hold(m, rr, x));
                        assert(dot(m[row as int], x) == rr[row as int]);
                        assert(m[row as int].len() == cols);
                        assert forall|k: int| 0 <= k < cols implies m[row as int][k] == 0real by {
                            assert(mat@[row as int]@[k]@ == 0real);
                        }
                        lemma_dot_zero_row(m[row as int], x, cols as int);
                        assert(rr[row as int] == rhs@[row as int]@);
                    }
                }
            }
            return None;
        }
    }
    let ghost m_full = rational_rows(mat@);
    let ghost r_full = rational_row(rhs@);
    let ghost rhs_before = rhs@;
    mat.truncate(rank);
    rhs.truncate(rank);
    proof {
        let m = rational_rows(mat@);
        let rr = rational_row(rhs@);
        assert forall|r: int| 0 <= r < rank implies #[trigger] m[r] == m_full[r] by {}
        assert forall|x: Seq<real>| #[trigger] real_solves(mv, target@, x) implies rows_hold(
            m,
            rr,
            x,
        ) by {
            assert(rows_hold(m_full, r_full, x));
            assert forall|r: int| 0 <= r < m.len() implies dot(#[trigger] m[r], x) == rr[r] by {
                assert(dot(m_full[r], x) == r_full[r]);
            }
        }
        assert forall|i: int, q: int|
            0 <= i < pivot_cols@.len() && 0 <= q < m.len() implies #[trigger] m[q][pivot_cols@[i] as int]
            == (if q == i {
            1real
        } else {
            0real
        }) by {
            assert(m_full[q][pivot_cols@[i] as int] == (if q == i {
                1real
            } else {
                0real
            }));
        }
        assert forall|i: int, c: int|
            0 <= i < pivot_cols@.len() && i < m.len() && 0 <= c < pivot_cols@[i] implies #[trigger] m[i][c]
            == 0real by {
            assert(m[i] == m_full[i]);
            assert(m_full[i][c] == 0real);
        }
        assert forall|r: int, c: int|
            rank <= r < m_full.len() && 0 <= c < m_full[r].len() implies m_full[r][c] == 0real by {
            assert(m_full[r].len() == cols);
        }
        assert forall|r: int| rank <= r < m_full.len() implies r_full[r] == 0real by {
            assert(rhs_before[r]@ == 0real);
        }
        lemma_recovers_truncated(mv, target@, m_full, r_full, rank as int);
        assert(m =~= m_full.subrange(0, rank as int));
        assert(rr =~= r_full.subrange(0, rank as int));
        lemma_pivot_solution(m, rr, pivot_cols@, cols as nat);
        assert(real_solves(mv, target@, pivot_solution(pivot_cols@, rr, cols as nat)));
    }
    let free_cols = free_columns(&pivot_cols, cols);
    Some(EchelonForm { matrix: mat, rhs, pivot_cols, free_cols })
}

} // verus!
