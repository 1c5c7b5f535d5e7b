//! The solve of a chunk by forward substitution, without an inverse.

use vstd::prelude::*;

use crate::algebra;
use crate::equivalence;
use crate::grid::Grid;
use crate::kernel::chunk_cube;
use crate::linalg;
use crate::scalar;
use crate::scalar::{ExactScalar, Scalar};
use crate::tensor::{Matrix, Tensor3};
use crate::wy::Chunk;

verus! {

/// The solution of `(I + a) x = y` for a strictly lower triangular `a`, row by row.
pub open spec fn solved<F: Scalar>(a: Grid<F>, y: Grid<F>, r: int, c: int) -> F
    decreases r, r + 1,
{
    if r < 0 {
        F::nil()
    } else {
        reduced(a, y, r, c, r)
    }
}

/// Row `r` of the right-hand side, less the first `n` rows of the solution.
pub open spec fn reduced<F: Scalar>(a: Grid<F>, y: Grid<F>, r: int, c: int, n: int) -> F
    decreases r, n,
    when n <= r
{
    if n <= 0 {
        y(r, c)
    } else {
        reduced(a, y, r, c, n - 1).minus(a(r, n - 1).times(solved(a, y, n - 1, c)))
    }
}

/// The solution as a matrix.
pub open spec fn solution<F: Scalar>(a: Grid<F>, y: Grid<F>) -> Grid<F> {
    |r: int, c: int| solved(a, y, r, c)
}

/// Reduced by all rows at once.
proof fn lemma_reduced<F: ExactScalar>(a: Grid<F>, y: Grid<F>, r: int, c: int, n: int)
    requires
        0 <= n <= r,
    ensures
        reduced(a, y, r, c, n) == y(r, c).minus(
            scalar::total(n, |l: int| a(r, l).times(solved(a, y, l, c))),
        ),
    decreases n,
{
    let f = |l: int| a(r, l).times(solved(a, y, l, c));
    if n == 0 {
        algebra::lemma_minus_self(y(r, c));
    } else {
        lemma_reduced(a, y, r, c, n - 1);
        algebra::lemma_minus_minus(y(r, c), scalar::total(n - 1, f), f(n - 1));
    }
}

/// In exact arithmetic substitution gives what the inverse of `I + a` gives.
pub proof fn substitution_is_inverse<F: ExactScalar>(
    a: Grid<F>,
    y: Grid<F>,
    rows: int,
    r: int,
    c: int,
)
    requires
        0 <= r < rows,
    ensures
        solved(a, y, r, c) == scalar::total(
            rows,
            |l: int| Chunk::inverse(a, r, l).times(y(l, c)),
        ),
    decreases r,
{
    lemma_reduced(a, y, r, c, r);
    let col = |l: int| y(l, c);
    equivalence::lemma_inverse_solves(a, col, rows, r);
    let f = |l: int| Chunk::inverse(a, r, l).times(col(l));
    let f2 = |l: int| Chunk::inverse(a, r, l).times(y(l, c));
    algebra::lemma_total_eq(rows, f, f2);
    let mine = |x: int| a(r, x).times(solved(a, y, x, c));
    let theirs = |x: int|
        a(r, x).times(scalar::total(rows, |l: int| Chunk::inverse(a, x, l).times(col(l))));
    assert forall|x: int| 0 <= x < r implies #[trigger] mine(x) == theirs(x) by {
        substitution_is_inverse(a, y, rows, x, c);
        let g = |l: int| Chunk::inverse(a, x, l).times(col(l));
        let g2 = |l: int| Chunk::inverse(a, x, l).times(y(l, c));
        algebra::lemma_total_eq(rows, g, g2);
    }
    algebra::lemma_total_eq(r, mine, theirs);
}

/// Solves `(I + a) x = y` for a strictly lower triangular `a`.
pub(crate) fn substitute<F: Scalar>(
    a: &Matrix<F>,
    y: &Matrix<F>,
    Ghost(af): Ghost<Grid<F>>,
    Ghost(yf): Ghost<Grid<F>>,
) -> (x: Matrix<F>)
    requires
        a.holds(y.rows as int, y.rows as int, af),
        y.holds(y.rows as int, y.cols as int, yf),
    ensures
        x.holds(y.rows as int, y.cols as int, solution(af, yf)),
{
    let mut x = y.copy();
    for r in 0..y.rows
        invariant
            a.holds(y.rows as int, y.rows as int, af),
            y.holds(y.rows as int, y.cols as int, yf),
            x.shaped(y.rows as int, y.cols as int),
            forall|p: int, q: int|
                0 <= p < r && 0 <= q < y.cols ==> #[trigger] x.at(p, q) == solved(af, yf, p, q),
    {
        for c in 0..y.cols
            invariant
                a.holds(y.rows as int, y.rows as int, af),
                y.holds(y.rows as int, y.cols as int, yf),
                r < y.rows,
                x.shaped(y.rows as int, y.cols as int),
                forall|p: int, q: int|
                    0 <= q < y.cols && (0 <= p < r || (p == r && q < c)) ==> #[trigger] x.at(p, q)
                        == solved(af, yf, p, q),
        {
            let mut acc = y.get(r, c);
            for l in 0..r
                invariant
                    a.holds(y.rows as int, y.rows as int, af),
                    y.shaped(y.rows as int, y.cols as int),
                    r < y.rows,
                    c < y.cols,
                    x.shaped(y.rows as int, y.cols as int),
                    forall|p: int, q: int|
                        0 <= q < y.cols && (0 <= p < r || (p == r && q < c)) ==> #[trigger] x.at(
                            p,
                            q,
                        ) == solved(af, yf, p, q),
                    acc == reduced(af, yf, r as int, c as int, l as int),
            {
                acc = acc.sub(a.get(r, l).mul(x.get(l, c)));
            }
            x.set(r, c, acc);
        }
    }
    x
}

/// Block `n` of an array, with the sign of each element changed.
pub open spec fn opposite<F: Scalar>(t: Tensor3<F>, n: int) -> Grid<F> {
    |r: int, s: int| t.at(n, r, s).negated()
}

/// In exact arithmetic the solution with the opposite of `a` solves `(I - a) x = y`: each row is
/// its right-hand side plus the rows before it, weighted by that row of `a`.
pub proof fn opposite_solves<F: ExactScalar>(a: Tensor3<F>, n: int, y: Grid<F>, r: int, c: int)
    requires
        0 <= r,
    ensures
        solved(opposite(a, n), y, r, c) == y(r, c).plus(
            scalar::total(r, |l: int| a.at(n, r, l).times(solved(opposite(a, n), y, l, c))),
        ),
{
    let m = opposite(a, n);
    let f = |l: int| a.at(n, r, l).times(solved(m, y, l, c));
    let g = |l: int| m(r, l).times(solved(m, y, l, c));
    lemma_reduced(m, y, r, c, r);
    assert forall|l: int| 0 <= l < r implies #[trigger] g(l) == f(l).negated() by {
        algebra::lemma_negated_times(a.at(n, r, l), solved(m, y, l, c));
    }
    algebra::lemma_total_negated(r, f, g);
    let s = scalar::total(r, f);
    F::minus_is_plus_negated(y(r, c), s.negated());
    algebra::lemma_negated_twice(s);
}

/// The substitution kernel: solves `(I - akk) [w | u] = [rhs_k | rhs_v]` in every block, of which it
/// reads what is below the diagonal.
pub fn run_chunk_substitution<F: Scalar>(
    akk: &Tensor3<F>,
    rhs_k: &Tensor3<F>,
    rhs_v: &Tensor3<F>,
) -> (r: (Tensor3<F>, Tensor3<F>))
    requires
        akk.shaped(rhs_k.d0 as int, rhs_k.d1 as int, rhs_k.d1 as int),
        rhs_k.wf(),
        rhs_v.shaped(rhs_k.d0 as int, rhs_k.d1 as int, rhs_v.d2 as int),
    ensures
        r.0.shaped(rhs_k.d0 as int, rhs_k.d1 as int, rhs_k.d2 as int),
        r.1.shaped(rhs_k.d0 as int, rhs_k.d1 as int, rhs_v.d2 as int),
        forall|n: int, i: int, c: int|
            0 <= n < rhs_k.d0 && 0 <= i < rhs_k.d1 && 0 <= c < rhs_k.d2 ==> #[trigger] r.0.at(n, i, c)
                == solved(opposite(*akk, n), chunk_cube::block(*rhs_k, n), i, c),
        forall|n: int, i: int, c: int|
            0 <= n < rhs_k.d0 && 0 <= i < rhs_k.d1 && 0 <= c < rhs_v.d2 ==> #[trigger] r.1.at(n, i, c)
                == solved(opposite(*akk, n), chunk_cube::block(*rhs_v, n), i, c),
{
    let mut w = rhs_k.copy();
    let mut u = rhs_v.copy();
    for n in 0..rhs_k.d0
        invariant
            akk.shaped(rhs_k.d0 as int, rhs_k.d1 as int, rhs_k.d1 as int),
            rhs_k.wf(),
            rhs_v.shaped(rhs_k.d0 as int, rhs_k.d1 as int, rhs_v.d2 as int),
            w.shaped(rhs_k.d0 as int, rhs_k.d1 as int, rhs_k.d2 as int),
            u.shaped(rhs_k.d0 as int, rhs_k.d1 as int, rhs_v.d2 as int),
            forall|m: int, i: int, c: int|
                0 <= m < n && 0 <= i < rhs_k.d1 && 0 <= c < rhs_k.d2 ==> #[trigger] w.at(m, i, c)
                    == solved(opposite(*akk, m), chunk_cube::block(*rhs_k, m), i, c),
            forall|m: int, i: int, c: int|
                0 <= m < n && 0 <= i < rhs_k.d1 && 0 <= c < rhs_v.d2 ==> #[trigger] u.at(m, i, c)
                    == solved(opposite(*akk, m), chunk_cube::block(*rhs_v, m), i, c),
    {
        let a = linalg::negate(&akk.block_matrix(n));
        let ghost (af, kf, vf) = (
            opposite(*akk, n as int),
            chunk_cube::block(*rhs_k, n as int),
            chunk_cube::block(*rhs_v, n as int),
        );
        let x = substitute(&a, &rhs_k.block_matrix(n), Ghost(af), Ghost(kf));
        let y = substitute(&a, &rhs_v.block_matrix(n), Ghost(af), Ghost(vf));
        w.set_block(n, &x);
        u.set_block(n, &y);
    }
    (w, u)
}

} // verus!
