//! Linear equations over the real numbers.
//!
//! A system is read over the reals by taking each non-zero entry of its matrix
//! as one. The lemmas here say how a dot product changes under the row
//! operations of Gauss-Jordan elimination, and that each operation keeps
//! every solution.

use vstd::prelude::*;
use crate::days::day10::rational::Rational;

verus! {

/// The product of two reals. Kept opaque so that proofs meet products only
/// where they ask for them.
#[verifier::opaque]
pub open spec fn rmul(a: real, b: real) -> real {
    a * b
}

/// The quotient of two reals, opaque like [`rmul`].
#[verifier::opaque]
pub open spec fn rdiv(a: real, b: real) -> real {
    a / b
}

/// The coefficient that a matrix entry stands for.
pub open spec fn coeff(entry: u8) -> real {
    if entry != 0 {
        1real
    } else {
        0real
    }
}

/// A row of the matrix as real coefficients.
pub open spec fn coeff_row(row: Seq<u8>) -> Seq<real> {
    Seq::new(row.len(), |c: int| coeff(row[c]))
}

/// A press vector as real numbers.
pub open spec fn reals_of(presses: Seq<u64>) -> Seq<real> {
    Seq::new(presses.len(), |c: int| presses[c] as real)
}

/// The numbers that a row of rationals denotes.
pub open spec fn rational_row(row: Seq<Rational>) -> Seq<real> {
    Seq::new(row.len(), |c: int| row[c]@)
}

/// The numbers that a matrix of rationals denotes.
pub open spec fn rational_rows(m: Seq<Vec<Rational>>) -> Seq<Seq<real>> {
    Seq::new(m.len(), |r: int| rational_row(m[r]@))
}

/// Every entry of the row is a well-formed rational.
pub open spec fn row_wf(row: Seq<Rational>) -> bool {
    forall|c: int| 0 <= c < row.len() ==> (#[trigger] row[c]).wf()
}

/// Every row has `cols` well-formed entries.
pub open spec fn rows_wf(m: Seq<Vec<Rational>>, cols: int) -> bool {
    forall|r: int| 0 <= r < m.len() ==> (#[trigger] m[r])@.len() == cols && row_wf(m[r]@)
}

/// The sum of `row[c] * x[c]` over the first `n` columns.
pub open spec fn dot_upto(row: Seq<real>, x: Seq<real>, n: int) -> real
    decreases n,
{
    if n <= 0 {
        0real
    } else {
        dot_upto(row, x, n - 1) + rmul(row[n - 1], x[n - 1])
    }
}

/// The sum of `row[c] * x[c]` over all columns of the row.
pub open spec fn dot(row: Seq<real>, x: Seq<real>) -> real {
    dot_upto(row, x, row.len() as int)
}

/// `x` solves the system when it is read over the reals.
pub open spec fn real_solves(matrix: Seq<Seq<u8>>, target: Seq<u64>, x: Seq<real>) -> bool {
    forall|r: int|
        0 <= r < matrix.len() ==> dot(coeff_row(#[trigger] matrix[r]), x) == target[r] as real
}

/// `x` satisfies every equation `m[r] . x = rhs[r]`.
pub open spec fn rows_hold(m: Seq<Seq<real>>, rhs: Seq<real>, x: Seq<real>) -> bool {
    forall|r: int| 0 <= r < m.len() ==> dot(#[trigger] m[r], x) == rhs[r]
}

/// Every real solution of the system satisfies the equations `m . x = rhs`.
pub open spec fn entails(
    matrix: Seq<Seq<u8>>,
    target: Seq<u64>,
    m: Seq<Seq<real>>,
    rhs: Seq<real>,
) -> bool {
    forall|x: Seq<real>| #[trigger] real_solves(matrix, target, x) ==> rows_hold(m, rhs, x)
}

/// Every vector that satisfies the equations `m . x = rhs` is a real
/// solution of the system.
pub open spec fn recovers(
    matrix: Seq<Seq<u8>>,
    target: Seq<u64>,
    m: Seq<Seq<real>>,
    rhs: Seq<real>,
) -> bool {
    forall|x: Seq<real>| #[trigger] rows_hold(m, rhs, x) ==> real_solves(matrix, target, x)
}

/// From row `from` on, every entry left of column `upto` is zero.
pub open spec fn zero_below(m: Seq<Seq<real>>, from: int, upto: int) -> bool {
    forall|r: int, c: int|
        0 <= r && from <= r < m.len() && 0 <= c < upto ==> #[trigger] m[r][c] == 0real
}

/// The row divided by `p`.
pub open spec fn scaled_row(row: Seq<real>, p: real) -> Seq<real> {
    Seq::new(row.len(), |c: int| rdiv(row[c], p))
}

/// The row less `f` times the pivot row.
pub open spec fn reduced_row(row: Seq<real>, pivot_row: Seq<real>, f: real) -> Seq<real> {
    Seq::new(row.len(), |c: int| row[c] - rmul(pivot_row[c], f))
}

/// Dividing a row by `p` divides its dot product by `p`.
pub proof fn lemma_dot_scaled(row: Seq<real>, x: Seq<real>, p: real, n: int)
    requires
        p != 0real,
        0 <= n <= row.len(),
    ensures
        dot_upto(scaled_row(row, p), x, n) == rdiv(dot_upto(row, x, n), p),
    decreases n,
{
    reveal(rmul);
    reveal(rdiv);
    if n > 0 {
        lemma_dot_scaled(row, x, p, n - 1);
        let a = dot_upto(row, x, n - 1);
        let b = row[n - 1];
        let c = x[n - 1];
        assert(a / p + (b / p) * c == (a + b * c) / p) by (nonlinear_arith)
            requires
                p != 0real,
        ;
    } else {
        assert(0real / p == 0real) by (nonlinear_arith)
            requires
                p != 0real,
        ;
    }
}

/// Subtracting `f` times the pivot row subtracts `f` times its dot product.
pub proof fn lemma_dot_reduced(row: Seq<real>, pivot_row: Seq<real>, f: real, x: Seq<real>, n: int)
    requires
        0 <= n <= row.len(),
    ensures
        dot_upto(reduced_row(row, pivot_row, f), x, n) == dot_upto(row, x, n) - rmul(
            dot_upto(pivot_row, x, n),
            f,
        ),
    decreases n,
{
    reveal(rmul);
    if n > 0 {
        lemma_dot_reduced(row, pivot_row, f, x, n - 1);
        let a = dot_upto(row, x, n - 1);
        let pa = dot_upto(pivot_row, x, n - 1);
        let b = row[n - 1];
        let pb = pivot_row[n - 1];
        let c = x[n - 1];
        assert((a - pa * f) + (b - pb * f) * c == (a + b * c) - (pa + pb * c) * f)
            by (nonlinear_arith);
    } else {
        assert(0real * f == 0real) by (nonlinear_arith);
    }
}

/// A row of zeros has dot product zero.
pub proof fn lemma_dot_zero_row(row: Seq<real>, x: Seq<real>, n: int)
    requires
        0 <= n <= row.len(),
        forall|c: int| 0 <= c < n ==> row[c] == 0real,
    ensures
        dot_upto(row, x, n) == 0real,
    decreases n,
{
    reveal(rmul);
    if n > 0 {
        lemma_dot_zero_row(row, x, n - 1);
        let c = x[n - 1];
        assert(0real * c == 0real) by (nonlinear_arith);
    }
}

/// Dividing one equation by a non-zero number keeps every solution.
pub proof fn lemma_entails_scaled(
    matrix: Seq<Seq<u8>>,
    target: Seq<u64>,
    m: Seq<Seq<real>>,
    rhs: Seq<real>,
    r0: int,
    p: real,
)
    requires
        entails(matrix, target, m, rhs),
        0 <= r0 < m.len(),
        m.len() == rhs.len(),
        p != 0real,
    ensures
        entails(matrix, target, m.update(r0, scaled_row(m[r0], p)), rhs.update(r0, rdiv(rhs[r0], p))),
{
    let m2 = m.update(r0, scaled_row(m[r0], p));
    let rhs2 = rhs.update(r0, rdiv(rhs[r0], p));
    assert forall|x: Seq<real>| #[trigger] real_solves(matrix, target, x) implies rows_hold(
        m2,
        rhs2,
        x,
    ) by {
        assert(rows_hold(m, rhs, x));
        assert forall|r: int| 0 <= r < m2.len() implies dot(#[trigger] m2[r], x) == rhs2[r] by {
            if r == r0 {
                lemma_dot_scaled(m[r0], x, p, m[r0].len() as int);
                assert(dot(m[r0], x) == rhs[r0]);
            } else {
                assert(m2[r] == m[r]);
                assert(dot(m[r], x) == rhs[r]);
            }
        }
    }
}

/// Subtracting a multiple of one equation from another keeps every solution.
pub proof fn lemma_entails_reduced(
    matrix: Seq<Seq<u8>>,
    target: Seq<u64>,
    m: Seq<Seq<real>>,
    rhs: Seq<real>,
    r0: int,
    pr: int,
    f: real,
)
    requires
        entails(matrix, target, m, rhs),
        0 <= r0 < m.len(),
        0 <= pr < m.len(),
        m.len() == rhs.len(),
        m[r0].len() == m[pr].len(),
    ensures
        entails(
            matrix,
            target,
            m.update(r0, reduced_row(m[r0], m[pr], f)),
            rhs.update(r0, rhs[r0] - rmul(rhs[pr], f)),
        ),
{
    let m2 = m.update(r0, reduced_row(m[r0], m[pr], f));
    let rhs2 = rhs.update(r0, rhs[r0] - rmul(rhs[pr], f));
    assert forall|x: Seq<real>| #[trigger] real_solves(matrix, target, x) implies rows_hold(
        m2,
        rhs2,
        x,
    ) by {
        assert(rows_hold(m, rhs, x));
        assert forall|r: int| 0 <= r < m2.len() implies dot(#[trigger] m2[r], x) == rhs2[r] by {
            if r == r0 {
                lemma_dot_reduced(m[r0], m[pr], f, x, m[r0].len() as int);
                assert(dot(m[r0], x) == rhs[r0]);
                assert(dot(m[pr], x) == rhs[pr]);
            } else {
                assert(m2[r] == m[r]);
                assert(dot(m[r], x) == rhs[r]);
            }
        }
    }
}

/// Exchanging two equations keeps every solution.
pub proof fn lemma_entails_swapped(
    matrix: Seq<Seq<u8>>,
    target: Seq<u64>,
    m: Seq<Seq<real>>,
    rhs: Seq<real>,
    i: int,
    j: int,
)
    requires
        entails(matrix, target, m, rhs),
        0 <= i < m.len(),
        0 <= j < m.len(),
        m.len() == rhs.len(),
    ensures
        entails(
            matrix,
            target,
            m.update(i, m[j]).update(j, m[i]),
            rhs.update(i, rhs[j]).update(j, rhs[i]),
        ),
{
    let m2 = m.update(i, m[j]).update(j, m[i]);
    let rhs2 = rhs.update(i, rhs[j]).update(j, rhs[i]);
    assert forall|x: Seq<real>| #[trigger] real_solves(matrix, target, x) implies rows_hold(
        m2,
        rhs2,
        x,
    ) by {
        assert(rows_hold(m, rhs, x));
        assert forall|r: int| 0 <= r < m2.len() implies dot(#[trigger] m2[r], x) == rhs2[r] by {
            if r == j {
                assert(dot(m[i], x) == rhs[i]);
            } else if r == i {
                assert(dot(m[j], x) == rhs[j]);
            } else {
                assert(dot(m[r], x) == rhs[r]);
            }
        }
    }
}

/// Division by a number other than zero can be undone.
pub proof fn lemma_rdiv_cancel(a: real, b: real, p: real)
    requires
        p != 0real,
        rdiv(a, p) == rdiv(b, p),
    ensures
        a == b,
{
    reveal(rdiv);
    assert(a == b) by (nonlinear_arith)
        requires
            p != 0real,
            a / p == b / p,
    ;
}

/// Dividing one equation by a non-zero number adds no solution.
pub proof fn lemma_recovers_scaled(
    matrix: Seq<Seq<u8>>,
    target: Seq<u64>,
    m: Seq<Seq<real>>,
    rhs: Seq<real>,
    r0: int,
    p: real,
)
    requires
        recovers(matrix, target, m, rhs),
        0 <= r0 < m.len(),
        m.len() == rhs.len(),
        p != 0real,
    ensures
        recovers(matrix, target, m.update(r0, scaled_row(m[r0], p)), rhs.update(r0, rdiv(rhs[r0], p))),
{
    let m2 = m.update(r0, scaled_row(m[r0], p));
    let rhs2 = rhs.update(r0, rdiv(rhs[r0], p));
    assert forall|x: Seq<real>| #[trigger] rows_hold(m2, rhs2, x) implies real_solves(
        matrix,
        target,
        x,
    ) by {
        assert forall|r: int| 0 <= r < m.len() implies dot(#[trigger] m[r], x) == rhs[r] by {
            assert(dot(m2[r], x) == rhs2[r]);
            if r == r0 {
                lemma_dot_scaled(m[r0], x, p, m[r0].len() as int);
                lemma_rdiv_cancel(dot(m[r0], x), rhs[r0], p);
            } else {
                assert(m2[r] == m[r]);
            }
        }
        assert(rows_hold(m, rhs, x));
    }
}

/// Subtracting a multiple of one equation from another adds no solution.
pub proof fn lemma_recovers_reduced(
    matrix: Seq<Seq<u8>>,
    target: Seq<u64>,
    m: Seq<Seq<real>>,
    rhs: Seq<real>,
    r0: int,
    pr: int,
    f: real,
)
    requires
        recovers(matrix, target, m, rhs),
        0 <= r0 < m.len(),
        0 <= pr < m.len(),
        r0 != pr,
        m.len() == rhs.len(),
        m[r0].len() == m[pr].len(),
    ensures
        recovers(
            matrix,
            target,
            m.update(r0, reduced_row(m[r0], m[pr], f)),
            rhs.update(r0, rhs[r0] - rmul(rhs[pr], f)),
        ),
{
    let m2 = m.update(r0, reduced_row(m[r0], m[pr], f));
    let rhs2 = rhs.update(r0, rhs[r0] - rmul(rhs[pr], f));
    assert forall|x: Seq<real>| #[trigger] rows_hold(m2, rhs2, x) implies real_solves(
        matrix,
        target,
        x,
    ) by {
        assert(dot(m2[pr], x) == rhs2[pr]);
        assert(m2[pr] == m[pr]);
        assert forall|r: int| 0 <= r < m.len() implies dot(#[trigger] m[r], x) == rhs[r] by {
            assert(dot(m2[r], x) == rhs2[r]);
            if r == r0 {
                lemma_dot_reduced(m[r0], m[pr], f, x, m[r0].len() as int);
            } else {
                assert(m2[r] == m[r]);
            }
        }
        assert(rows_hold(m, rhs, x));
    }
}

/// Exchanging two equations adds no solution.
pub proof fn lemma_recovers_swapped(
    matrix: Seq<Seq<u8>>,
    target: Seq<u64>,
    m: Seq<Seq<real>>,
    rhs: Seq<real>,
    i: int,
    j: int,
)
    requires
        recovers(matrix, target, m, rhs),
        0 <= i < m.len(),
        0 <= j < m.len(),
        m.len() == rhs.len(),
    ensures
        recovers(
            matrix,
            target,
            m.update(i, m[j]).update(j, m[i]),
            rhs.update(i, rhs[j]).update(j, rhs[i]),
        ),
{
    let m2 = m.update(i, m[j]).update(j, m[i]);
    let rhs2 = rhs.update(i, rhs[j]).update(j, rhs[i]);
    assert forall|x: Seq<real>| #[trigger] rows_hold(m2, rhs2, x) implies real_solves(
        matrix,
        target,
        x,
    ) by {
        assert forall|r: int| 0 <= r < m.len() implies dot(#[trigger] m[r], x) == rhs[r] by {
            if r == i {
                assert(dot(m2[j], x) == rhs2[j]);
            } else if r == j {
                assert(dot(m2[i], x) == rhs2[i]);
            } else {
                assert(dot(m2[r], x) == rhs2[r]);
            }
        }
        assert(rows_hold(m, rhs, x));
    }
}

/// Leaving out equations that read `0 = 0` adds no solution.
pub proof fn lemma_recovers_truncated(
    matrix: Seq<Seq<u8>>,
    target: Seq<u64>,
    m: Seq<Seq<real>>,
    rhs: Seq<real>,
    rank: int,
)
    requires
        recovers(matrix, target, m, rhs),
        0 <= rank <= m.len(),
        m.len() == rhs.len(),
        forall|r: int, c: int| rank <= r < m.len() && 0 <= c < m[r].len() ==> m[r][c] == 0real,
        forall|r: int| rank <= r < m.len() ==> rhs[r] == 0real,
    ensures
        recovers(matrix, target, m.subrange(0, rank), rhs.subrange(0, rank)),
{
    let m2 = m.subrange(0, rank);
    let rhs2 = rhs.subrange(0, rank);
    assert forall|x: Seq<real>| #[trigger] rows_hold(m2, rhs2, x) implies real_solves(
        matrix,
        target,
        x,
    ) by {
        assert forall|r: int| 0 <= r < m.len() implies dot(#[trigger] m[r], x) == rhs[r] by {
            if r < rank {
                assert(dot(m2[r], x) == rhs2[r]);
            } else {
                lemma_dot_zero_row(m[r], x, m[r].len() as int);
            }
        }
        assert(rows_hold(m, rhs, x));
    }
}

/// In a row that is zero in every pivot column but its own, where it is
/// one, the dot product with a vector that is zero outside the pivot columns
/// is the vector's entry in the row's own pivot column.
pub proof fn lemma_unit_row_dot(row: Seq<real>, pivots: Seq<usize>, x: Seq<real>, i: int, n: int)
    requires
        0 <= n <= row.len(),
        0 <= i < pivots.len(),
        forall|a: int, b: int| 0 <= a < b < pivots.len() ==> pivots[a] < pivots[b],
        forall|k: int|
            0 <= k < pivots.len() ==> row[#[trigger] pivots[k] as int] == (if k == i {
                1real
            } else {
                0real
            }),
        forall|c: int| 0 <= c < n && !pivots.contains(c as usize) ==> x[c] == 0real,
        row.len() <= usize::MAX,
    ensures
        dot_upto(row, x, n) == (if pivots[i] < n {
            x[pivots[i] as int]
        } else {
            0real
        }),
    decreases n,
{
    if n > 0 {
        lemma_unit_row_dot(row, pivots, x, i, n - 1);
        let c = (n - 1) as usize;
        let v = x[n - 1];
        lemma_rmul_one(v);
        lemma_rmul_zero(v);
        lemma_rmul_zero(row[n - 1]);
        if pivots.contains(c) {
            let k = choose|k: int| 0 <= k < pivots.len() && pivots[k] == c;
            assert(row[pivots[k] as int] == (if k == i {
                1real
            } else {
                0real
            }));
            if k != i {
                if k < i {
                    assert(pivots[k] < pivots[i]);
                } else {
                    assert(pivots[i] < pivots[k]);
                }
            }
        } else {
            assert(pivots[i] != c) by {
                if pivots[i] == c {
                    assert(pivots.contains(c));
                }
            }
        }
    }
}

/// Exchanging two rows from `from` on keeps the zeros left of `upto`.
pub proof fn lemma_zero_swapped(m: Seq<Seq<real>>, from: int, upto: int, i: int, j: int)
    requires
        zero_below(m, from, upto),
        0 <= from <= i < m.len(),
        from <= j < m.len(),
    ensures
        zero_below(m.update(i, m[j]).update(j, m[i]), from, upto),
{
    let m2 = m.update(i, m[j]).update(j, m[i]);
    assert forall|r: int, c: int|
        0 <= r && from <= r < m2.len() && 0 <= c < upto implies #[trigger] m2[r][c] == 0real by {
        if r == j {
            assert(m[i][c] == 0real);
        } else if r == i {
            assert(m[j][c] == 0real);
        } else {
            assert(m[r][c] == 0real);
        }
    }
}

/// Dividing a row keeps the zeros left of `upto`.
pub proof fn lemma_zero_scaled(m: Seq<Seq<real>>, from: int, upto: int, r0: int, p: real)
    requires
        zero_below(m, from, upto),
        0 <= r0 < m.len(),
        upto <= m[r0].len(),
        p != 0real,
    ensures
        zero_below(m.update(r0, scaled_row(m[r0], p)), from, upto),
{
    let m2 = m.update(r0, scaled_row(m[r0], p));
    lemma_rdiv_unit(p);
    assert forall|r: int, c: int|
        0 <= r && from <= r < m2.len() && 0 <= c < upto implies #[trigger] m2[r][c] == 0real by {
        assert(m[r][c] == 0real);
    }
}

/// Subtracting a multiple of a row from `from` on keeps the zeros left of
/// `upto`.
pub proof fn lemma_zero_reduced(
    m: Seq<Seq<real>>,
    from: int,
    upto: int,
    r0: int,
    pr: int,
    f: real,
)
    requires
        zero_below(m, from, upto),
        0 <= r0 < m.len(),
        0 <= from <= pr < m.len(),
        upto <= m[r0].len(),
    ensures
        zero_below(m.update(r0, reduced_row(m[r0], m[pr], f)), from, upto),
{
    let m2 = m.update(r0, reduced_row(m[r0], m[pr], f));
    lemma_rmul_zero(f);
    assert forall|r: int, c: int|
        0 <= r && from <= r < m2.len() && 0 <= c < upto implies #[trigger] m2[r][c] == 0real by {
        assert(m[r][c] == 0real);
        assert(m[pr][c] == 0real);
    }
}

/// The vector that gives each pivot column the right-hand side of its row,
/// and zero to every other column.
pub open spec fn pivot_solution(pivots: Seq<usize>, rhs: Seq<real>, cols: nat) -> Seq<real> {
    Seq::new(
        cols,
        |c: int|
            if pivots.contains(c as usize) {
                rhs[choose|k: int| 0 <= k < pivots.len() && pivots[k] == c as usize]
            } else {
                0real
            },
    )
}

/// A system in reduced row-echelon form has a solution.
pub proof fn lemma_pivot_solution(m: Seq<Seq<real>>, rhs: Seq<real>, pivots: Seq<usize>, cols: nat)
    requires
        m.len() == pivots.len(),
        rhs.len() == pivots.len(),
        forall|r: int| 0 <= r < m.len() ==> (#[trigger] m[r]).len() == cols,
        increasing_below(pivots, cols as int),
        unit_pivots(m, pivots),
        cols <= usize::MAX,
    ensures
        rows_hold(m, rhs, pivot_solution(pivots, rhs, cols)),
{
    let x = pivot_solution(pivots, rhs, cols);
    assert forall|i: int| 0 <= i < m.len() implies dot(#[trigger] m[i], x) == rhs[i] by {
        assert forall|k: int| 0 <= k < pivots.len() implies m[i][#[trigger] pivots[k] as int] == (
        if k == i {
            1real
        } else {
            0real
        }) by {
            assert(m[i][pivots[k] as int] == (if i == k {
                1real
            } else {
                0real
            }));
        }
        lemma_unit_row_dot(m[i], pivots, x, i, cols as int);
        assert(pivots.contains(pivots[i]));
        let k = choose|k: int| 0 <= k < pivots.len() && pivots[k] == pivots[i];
        if k != i {
            if k < i {
                assert(pivots[k] < pivots[i]);
            } else {
                assert(pivots[i] < pivots[k]);
            }
        }
    }
}

/// Strictly increasing, and every entry below `bound`.
pub open spec fn increasing_below(s: Seq<usize>, bound: int) -> bool {
    &&& forall|i: int, j: int| 0 <= i < j < s.len() ==> s[i] < s[j]
    &&& forall|i: int| 0 <= i < s.len() ==> s[i] < bound
}

/// Column `pivots[i]` is the `i`-th unit vector: one in row `i`, zero in
/// every other row.
pub open spec fn unit_pivots(m: Seq<Seq<real>>, pivots: Seq<usize>) -> bool {
    forall|i: int, r: int|
        0 <= i < pivots.len() && 0 <= r < m.len() ==> #[trigger] m[r][pivots[i] as int] == (if r
            == i {
            1real
        } else {
            0real
        })
}

/// `free` lists, in increasing order, the columns below `cols` that are not
/// among `pivots`.
pub open spec fn is_complement(pivots: Seq<usize>, free: Seq<usize>, cols: int) -> bool {
    &&& increasing_below(free, cols)
    &&& forall|c: usize| c < cols ==> (#[trigger] pivots.contains(c) <==> !free.contains(c))
}

pub proof fn lemma_rmul_zero(f: real)
    ensures
        rmul(0real, f) == 0real,
        rmul(f, 0real) == 0real,
{
    reveal(rmul);
    assert(0real * f == 0real && f * 0real == 0real) by (nonlinear_arith);
}

pub proof fn lemma_rmul_one(f: real)
    ensures
        rmul(1real, f) == f,
        rmul(f, 1real) == f,
{
    reveal(rmul);
    assert(1real * f == f && f * 1real == f) by (nonlinear_arith);
}

pub proof fn lemma_rdiv_unit(p: real)
    requires
        p != 0real,
    ensures
        rdiv(0real, p) == 0real,
        rdiv(p, p) == 1real,
{
    reveal(rdiv);
    assert(0real / p == 0real && p / p == 1real) by (nonlinear_arith)
        requires
            p != 0real,
    ;
}

/// Every pivot row is zero left of its pivot column.
pub open spec fn zero_before_pivots(m: Seq<Seq<real>>, pivots: Seq<usize>) -> bool {
    forall|i: int, c: int|
        0 <= i < pivots.len() && i < m.len() && 0 <= c < pivots[i] ==> #[trigger] m[i][c] == 0real
}

/// Exchanging two rows below the pivot rows keeps the zeros left of the
/// pivots.
pub proof fn lemma_before_swapped(m: Seq<Seq<real>>, pivots: Seq<usize>, i: int, j: int)
    requires
        zero_before_pivots(m, pivots),
        pivots.len() <= i < m.len(),
        pivots.len() <= j < m.len(),
    ensures
        zero_before_pivots(m.update(i, m[j]).update(j, m[i]), pivots),
{
    let m2 = m.update(i, m[j]).update(j, m[i]);
    assert forall|k: int, c: int|
        0 <= k < pivots.len() && k < m2.len() && 0 <= c < pivots[k] implies #[trigger] m2[k][c]
        == 0real by {
        assert(m2[k] == m[k]);
        assert(m[k][c] == 0real);
    }
}

/// Dividing a row below the pivot rows keeps the zeros left of the pivots.
pub proof fn lemma_before_scaled(m: Seq<Seq<real>>, pivots: Seq<usize>, r0: int, p: real)
    requires
        zero_before_pivots(m, pivots),
        pivots.len() <= r0 < m.len(),
    ensures
        zero_before_pivots(m.update(r0, scaled_row(m[r0], p)), pivots),
{
    let m2 = m.update(r0, scaled_row(m[r0], p));
    assert forall|k: int, c: int|
        0 <= k < pivots.len() && k < m2.len() && 0 <= c < pivots[k] implies #[trigger] m2[k][c]
        == 0real by {
        assert(m2[k] == m[k]);
        assert(m[k][c] == 0real);
    }
}

/// Subtracting a multiple of the row below the pivot rows, which is zero
/// left of `upto`, keeps the zeros left of the pivots, all of which lie
/// left of `upto`.
pub proof fn lemma_before_reduced(
    m: Seq<Seq<real>>,
    pivots: Seq<usize>,
    r0: int,
    upto: int,
    f: real,
)
    requires
        zero_before_pivots(m, pivots),
        pivots.len() < m.len(),
        0 <= r0 < m.len(),
        zero_below(m, pivots.len() as int, upto),
        increasing_below(pivots, upto),
        upto <= m[r0].len(),
    ensures
        zero_before_pivots(
            m.update(r0, reduced_row(m[r0], m[pivots.len() as int], f)),
            pivots,
        ),
{
    let cr = pivots.len() as int;
    let m2 = m.update(r0, reduced_row(m[r0], m[cr], f));
    lemma_rmul_zero(f);
    assert forall|k: int, c: int|
        0 <= k < pivots.len() && k < m2.len() && 0 <= c < pivots[k] implies #[trigger] m2[k][c]
        == 0real by {
        assert(m[k][c] == 0real);
        assert(pivots[k] < upto);
        assert(m[cr][c] == 0real);
    }
}

/// A new pivot row that is zero left of its pivot column keeps the zeros
/// left of the pivots.
pub proof fn lemma_before_pushed(m: Seq<Seq<real>>, pivots: Seq<usize>, col: usize)
    requires
        zero_before_pivots(m, pivots),
        zero_below(m, pivots.len() as int, col as int),
    ensures
        zero_before_pivots(m, pivots.push(col)),
{
    let longer = pivots.push(col);
    assert forall|k: int, c: int|
        0 <= k < longer.len() && k < m.len() && 0 <= c < longer[k] implies #[trigger] m[k][c]
        == 0real by {
        if k < pivots.len() {
            assert(longer[k] == pivots[k]);
            assert(m[k][c] == 0real);
        } else {
            assert(m[k][c] == 0real);
        }
    }
}

/// Exchanging two rows below the pivot rows keeps the pivot columns.
pub proof fn lemma_units_swapped(m: Seq<Seq<real>>, pivots: Seq<usize>, i: int, j: int)
    requires
        unit_pivots(m, pivots),
        pivots.len() <= i < m.len(),
        pivots.len() <= j < m.len(),
    ensures
        unit_pivots(m.update(i, m[j]).update(j, m[i]), pivots),
{
    let m2 = m.update(i, m[j]).update(j, m[i]);
    assert forall|k: int, r: int| 0 <= k < pivots.len() && 0 <= r < m2.len() implies #[trigger] m2[r][pivots[k] as int]
        == (if r == k {
        1real
    } else {
        0real
    }) by {
        if r == j {
            assert(m[i][pivots[k] as int] == 0real);
        } else if r == i {
            assert(m[j][pivots[k] as int] == 0real);
        } else {
            assert(m[r][pivots[k] as int] == (if r == k {
                1real
            } else {
                0real
            }));
        }
    }
}

/// Dividing the row below the pivot rows keeps the pivot columns.
pub proof fn lemma_units_scaled(m: Seq<Seq<real>>, pivots: Seq<usize>, p: real)
    requires
        unit_pivots(m, pivots),
        pivots.len() < m.len(),
        increasing_below(pivots, m[pivots.len() as int].len() as int),
        p != 0real,
    ensures
        unit_pivots(m.update(pivots.len() as int, scaled_row(m[pivots.len() as int], p)), pivots),
{
    let cr = pivots.len() as int;
    let m2 = m.update(cr, scaled_row(m[cr], p));
    lemma_rdiv_unit(p);
    assert forall|k: int, r: int| 0 <= k < pivots.len() && 0 <= r < m2.len() implies #[trigger] m2[r][pivots[k] as int]
        == (if r == k {
        1real
    } else {
        0real
    }) by {
        if r == cr {
            assert(m[cr][pivots[k] as int] == 0real);
        } else {
            assert(m[r][pivots[k] as int] == (if r == k {
                1real
            } else {
                0real
            }));
        }
    }
}

/// Subtracting a multiple of the row below the pivot rows keeps the pivot
/// columns.
pub proof fn lemma_units_reduced(m: Seq<Seq<real>>, pivots: Seq<usize>, r0: int, f: real)
    requires
        unit_pivots(m, pivots),
        pivots.len() < m.len(),
        0 <= r0 < m.len(),
        increasing_below(pivots, m[r0].len() as int),
    ensures
        unit_pivots(m.update(r0, reduced_row(m[r0], m[pivots.len() as int], f)), pivots),
{
    let cr = pivots.len() as int;
    let m2 = m.update(r0, reduced_row(m[r0], m[cr], f));
    lemma_rmul_zero(f);
    assert forall|k: int, r: int| 0 <= k < pivots.len() && 0 <= r < m2.len() implies #[trigger] m2[r][pivots[k] as int]
        == (if r == k {
        1real
    } else {
        0real
    }) by {
        assert(m[cr][pivots[k] as int] == 0real);
        assert(m[r][pivots[k] as int] == (if r == k {
            1real
        } else {
            0real
        }));
    }
}

} // verus!
