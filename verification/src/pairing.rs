//! The inner product of matrices, and how products of matrices move across it.

use vstd::prelude::*;

use crate::algebra;
use crate::grid;
use crate::grid::Grid;
use crate::scalar;
use crate::scalar::{ExactScalar, Scalar};

verus! {

/// The sum of `a(i, j) * b(i, j)` over `rows` rows and `cols` columns.
pub open spec fn pair<F: Scalar>(rows: int, cols: int, a: Grid<F>, b: Grid<F>) -> F {
    scalar::total(rows, |i: int| row_pair(cols, a, b, i))
}

/// The sum of `a(i, j) * b(i, j)` over `cols` columns.
pub open spec fn row_pair<F: Scalar>(cols: int, a: Grid<F>, b: Grid<F>, i: int) -> F {
    scalar::total(cols, |j: int| a(i, j).times(b(i, j)))
}

/// Whether the two agree on `rows` rows and `cols` columns.
pub open spec fn agree<F>(rows: int, cols: int, a: Grid<F>, b: Grid<F>) -> bool {
    forall|i: int, j: int| 0 <= i < rows && 0 <= j < cols ==> #[trigger] a(i, j) == b(i, j)
}

/// Equal matrices give equal inner products.
pub proof fn lemma_pair_eq<F: ExactScalar>(
    rows: int,
    cols: int,
    a: Grid<F>,
    b: Grid<F>,
    a2: Grid<F>,
    b2: Grid<F>,
)
    requires
        agree(rows, cols, a, a2),
        agree(rows, cols, b, b2),
    ensures
        pair(rows, cols, a, b) == pair(rows, cols, a2, b2),
{
    let f = |i: int| row_pair(cols, a, b, i);
    let f2 = |i: int| row_pair(cols, a2, b2, i);
    assert forall|i: int| 0 <= i < rows implies #[trigger] f(i) == f2(i) by {
        let g = |j: int| a(i, j).times(b(i, j));
        let g2 = |j: int| a2(i, j).times(b2(i, j));
        assert forall|j: int| 0 <= j < cols implies #[trigger] g(j) == g2(j) by {
            assert(a(i, j) == a2(i, j));
            assert(b(i, j) == b2(i, j));
        }
        algebra::lemma_total_eq(cols, g, g2);
    }
    algebra::lemma_total_eq(rows, f, f2);
}

/// The inner product is symmetric.
pub proof fn lemma_pair_commutes<F: ExactScalar>(rows: int, cols: int, a: Grid<F>, b: Grid<F>)
    ensures
        pair(rows, cols, a, b) == pair(rows, cols, b, a),
{
    let f = |i: int| row_pair(cols, a, b, i);
    let f2 = |i: int| row_pair(cols, b, a, i);
    assert forall|i: int| 0 <= i < rows implies #[trigger] f(i) == f2(i) by {
        let g = |j: int| a(i, j).times(b(i, j));
        let g2 = |j: int| b(i, j).times(a(i, j));
        assert forall|j: int| 0 <= j < cols implies #[trigger] g(j) == g2(j) by {
            F::times_commutes(a(i, j), b(i, j));
        }
        algebra::lemma_total_eq(cols, g, g2);
    }
    algebra::lemma_total_eq(rows, f, f2);
}

/// The inner product with a sum.
pub proof fn lemma_pair_plus<F: ExactScalar>(
    rows: int,
    cols: int,
    a: Grid<F>,
    b: Grid<F>,
    c: Grid<F>,
)
    ensures
        pair(rows, cols, a, grid::plus(b, c)) == pair(rows, cols, a, b).plus(
            pair(rows, cols, a, c),
        ),
{
    let h = |i: int| row_pair(cols, a, grid::plus(b, c), i);
    let f = |i: int| row_pair(cols, a, b, i);
    let g = |i: int| row_pair(cols, a, c, i);
    assert forall|i: int| 0 <= i < rows implies #[trigger] h(i) == f(i).plus(g(i)) by {
        let h2 = |j: int| a(i, j).times(grid::plus(b, c)(i, j));
        let f2 = |j: int| a(i, j).times(b(i, j));
        let g2 = |j: int| a(i, j).times(c(i, j));
        assert forall|j: int| 0 <= j < cols implies #[trigger] h2(j) == f2(j).plus(g2(j)) by {
            F::times_distributes(a(i, j), b(i, j), c(i, j));
        }
        algebra::lemma_total_plus(cols, f2, g2, h2);
    }
    algebra::lemma_total_plus(rows, f, g, h);
}

/// The inner product of a sum.
pub proof fn lemma_plus_pair<F: ExactScalar>(
    rows: int,
    cols: int,
    a: Grid<F>,
    b: Grid<F>,
    c: Grid<F>,
)
    ensures
        pair(rows, cols, grid::plus(a, b), c) == pair(rows, cols, a, c).plus(
            pair(rows, cols, b, c),
        ),
{
    lemma_pair_commutes(rows, cols, grid::plus(a, b), c);
    lemma_pair_plus(rows, cols, c, a, b);
    lemma_pair_commutes(rows, cols, a, c);
    lemma_pair_commutes(rows, cols, b, c);
}

/// The inner product with a negation.
pub proof fn lemma_pair_negated<F: ExactScalar>(rows: int, cols: int, a: Grid<F>, b: Grid<F>)
    ensures
        pair(rows, cols, a, grid::negated(b)) == pair(rows, cols, a, b).negated(),
        pair(rows, cols, grid::negated(a), b) == pair(rows, cols, a, b).negated(),
{
    let f = |i: int| row_pair(cols, a, b, i);
    let h = |i: int| row_pair(cols, a, grid::negated(b), i);
    let k = |i: int| row_pair(cols, grid::negated(a), b, i);
    assert forall|i: int| 0 <= i < rows implies #[trigger] h(i) == f(i).negated() by {
        let f2 = |j: int| a(i, j).times(b(i, j));
        let h2 = |j: int| a(i, j).times(grid::negated(b)(i, j));
        assert forall|j: int| 0 <= j < cols implies #[trigger] h2(j) == f2(j).negated() by {
            algebra::lemma_negated_times(a(i, j), b(i, j));
        }
        algebra::lemma_total_negated(cols, f2, h2);
    }
    assert forall|i: int| 0 <= i < rows implies #[trigger] k(i) == f(i).negated() by {
        let f2 = |j: int| a(i, j).times(b(i, j));
        let k2 = |j: int| grid::negated(a)(i, j).times(b(i, j));
        assert forall|j: int| 0 <= j < cols implies #[trigger] k2(j) == f2(j).negated() by {
            algebra::lemma_negated_times(a(i, j), b(i, j));
        }
        algebra::lemma_total_negated(cols, f2, k2);
    }
    algebra::lemma_total_negated(rows, f, h);
    algebra::lemma_total_negated(rows, f, k);
}

/// The inner product with a difference.
pub proof fn lemma_pair_minus<F: ExactScalar>(
    rows: int,
    cols: int,
    a: Grid<F>,
    b: Grid<F>,
    c: Grid<F>,
)
    ensures
        pair(rows, cols, a, grid::minus(b, c)) == pair(rows, cols, a, b).plus(
            pair(rows, cols, a, c).negated(),
        ),
{
    let d = grid::plus(b, grid::negated(c));
    assert forall|i: int, j: int| 0 <= i < rows && 0 <= j < cols implies #[trigger] grid::minus(
        b,
        c,
    )(i, j) == d(i, j) by {
        F::minus_is_plus_negated(b(i, j), c(i, j));
    }
    lemma_pair_eq(rows, cols, a, grid::minus(b, c), a, d);
    lemma_pair_plus(rows, cols, a, b, grid::negated(c));
    lemma_pair_negated(rows, cols, a, c);
}

/// A factor moves from one side to the other.
pub proof fn lemma_pair_times<F: ExactScalar>(
    rows: int,
    cols: int,
    a: Grid<F>,
    b: Grid<F>,
    c: Grid<F>,
)
    ensures
        pair(rows, cols, a, grid::times(b, c)) == pair(rows, cols, grid::times(a, b), c),
{
    let f = |i: int| row_pair(cols, a, grid::times(b, c), i);
    let f2 = |i: int| row_pair(cols, grid::times(a, b), c, i);
    assert forall|i: int| 0 <= i < rows implies #[trigger] f(i) == f2(i) by {
        let g = |j: int| a(i, j).times(grid::times(b, c)(i, j));
        let g2 = |j: int| grid::times(a, b)(i, j).times(c(i, j));
        assert forall|j: int| 0 <= j < cols implies #[trigger] g(j) == g2(j) by {
            F::times_associates(a(i, j), b(i, j), c(i, j));
        }
        algebra::lemma_total_eq(cols, g, g2);
    }
    algebra::lemma_total_eq(rows, f, f2);
}

/// A number moves from one side to the other.
pub proof fn lemma_pair_scaled<F: ExactScalar>(
    rows: int,
    cols: int,
    a: Grid<F>,
    b: Grid<F>,
    c: F,
)
    ensures
        pair(rows, cols, a, grid::scaled(b, c)) == pair(rows, cols, grid::scaled(a, c), b),
{
    let f = |i: int| row_pair(cols, a, grid::scaled(b, c), i);
    let f2 = |i: int| row_pair(cols, grid::scaled(a, c), b, i);
    assert forall|i: int| 0 <= i < rows implies #[trigger] f(i) == f2(i) by {
        let g = |j: int| a(i, j).times(grid::scaled(b, c)(i, j));
        let g2 = |j: int| grid::scaled(a, c)(i, j).times(b(i, j));
        assert forall|j: int| 0 <= j < cols implies #[trigger] g(j) == g2(j) by {
            F::times_commutes(b(i, j), c);
            F::times_associates(a(i, j), c, b(i, j));
        }
        algebra::lemma_total_eq(cols, g, g2);
    }
    algebra::lemma_total_eq(rows, f, f2);
}

/// The inner product is the same row by row and column by column.
pub proof fn lemma_pair_transposed<F: ExactScalar>(
    rows: int,
    cols: int,
    a: Grid<F>,
    b: Grid<F>,
)
    ensures
        pair(rows, cols, a, b) == pair(
            cols,
            rows,
            |j: int, i: int| a(i, j),
            |j: int, i: int| b(i, j),
        ),
{
    let at = |j: int, i: int| a(i, j);
    let bt = |j: int, i: int| b(i, j);
    let cell = |i: int, j: int| a(i, j).times(b(i, j));
    algebra::lemma_total_exchange(rows, cols, cell);
    let f = |i: int| row_pair(cols, a, b, i);
    let f2 = |i: int| scalar::total(cols, |j: int| cell(i, j));
    assert forall|i: int| 0 <= i < rows implies #[trigger] f(i) == f2(i) by {
        let g = |j: int| a(i, j).times(b(i, j));
        let g2 = |j: int| cell(i, j);
        algebra::lemma_total_eq(cols, g, g2);
    }
    algebra::lemma_total_eq(rows, f, f2);
    let h = |j: int| row_pair(rows, at, bt, j);
    let h2 = |j: int| scalar::total(rows, |i: int| cell(i, j));
    assert forall|j: int| 0 <= j < cols implies #[trigger] h(j) == h2(j) by {
        let g = |i: int| at(j, i).times(bt(j, i));
        let g2 = |i: int| cell(i, j);
        algebra::lemma_total_eq(rows, g, g2);
    }
    algebra::lemma_total_eq(cols, h, h2);
}

/// `<a, x y> = <a y^T, x>`.
pub proof fn lemma_pair_prod_left<F: ExactScalar>(
    rows: int,
    n: int,
    cols: int,
    a: Grid<F>,
    x: Grid<F>,
    y: Grid<F>,
)
    ensures
        pair(rows, cols, a, grid::prod(n, x, y)) == pair(rows, n, grid::prod_t(cols, a, y), x),
{
    let f = |i: int| row_pair(cols, a, grid::prod(n, x, y), i);
    let f2 = |i: int| row_pair(n, grid::prod_t(cols, a, y), x, i);
    assert forall|i: int| 0 <= i < rows implies #[trigger] f(i) == f2(i) by {
        // Both are the sum of a(i, j) x(i, l) y(l, j) over j and l.
        let cell = |j: int, l: int| a(i, j).times(x(i, l).times(y(l, j)));
        let g = |j: int| a(i, j).times(grid::prod(n, x, y)(i, j));
        let g2 = |j: int| scalar::total(n, |l: int| cell(j, l));
        assert forall|j: int| 0 <= j < cols implies #[trigger] g(j) == g2(j) by {
            let p = |l: int| x(i, l).times(y(l, j));
            let h = |l: int| cell(j, l);
            algebra::lemma_times_total(n, a(i, j), p, h);
        }
        algebra::lemma_total_eq(cols, g, g2);
        algebra::lemma_total_exchange(cols, n, cell);
        let k = |l: int| grid::prod_t(cols, a, y)(i, l).times(x(i, l));
        let k2 = |l: int| scalar::total(cols, |j: int| cell(j, l));
        assert forall|l: int| 0 <= l < n implies #[trigger] k(l) == k2(l) by {
            let p = |j: int| a(i, j).times(y(l, j));
            let h = |j: int| cell(j, l);
            assert forall|j: int| 0 <= j < cols implies #[trigger] h(j) == p(j).times(x(i, l)) by {
                F::times_commutes(x(i, l), y(l, j));
                F::times_associates(a(i, j), y(l, j), x(i, l));
            }
            algebra::lemma_total_times(cols, p, x(i, l), h);
        }
        algebra::lemma_total_eq(n, k, k2);
    }
    algebra::lemma_total_eq(rows, f, f2);
}

/// `<a, x y> = <x^T a, y>`.
pub proof fn lemma_pair_prod_right<F: ExactScalar>(
    rows: int,
    n: int,
    cols: int,
    a: Grid<F>,
    x: Grid<F>,
    y: Grid<F>,
)
    ensures
        pair(rows, cols, a, grid::prod(n, x, y)) == pair(n, cols, grid::t_prod(rows, x, a), y),
{
    // Transpose everything and use the other form.
    let at = |j: int, i: int| a(i, j);
    let xt = |l: int, i: int| x(i, l);
    let yt = |j: int, l: int| y(l, j);
    lemma_pair_transposed(rows, cols, a, grid::prod(n, x, y));
    let p = |j: int, i: int| grid::prod(n, x, y)(i, j);
    assert forall|j: int, i: int| 0 <= j < cols && 0 <= i < rows implies #[trigger] p(j, i)
        == grid::prod(n, yt, xt)(j, i) by {
        let f = |l: int| x(i, l).times(y(l, j));
        let f2 = |l: int| yt(j, l).times(xt(l, i));
        assert forall|l: int| 0 <= l < n implies #[trigger] f(l) == f2(l) by {
            F::times_commutes(x(i, l), y(l, j));
        }
        algebra::lemma_total_eq(n, f, f2);
    }
    lemma_pair_eq(cols, rows, at, p, at, grid::prod(n, yt, xt));
    lemma_pair_prod_left(cols, n, rows, at, yt, xt);
    let q = grid::prod_t(rows, at, xt);
    lemma_pair_transposed(cols, n, q, yt);
    let qt = |l: int, j: int| q(j, l);
    let ytt = |l: int, j: int| yt(j, l);
    assert forall|l: int, j: int| 0 <= l < n && 0 <= j < cols implies #[trigger] qt(l, j)
        == grid::t_prod(rows, x, a)(l, j) by {
        let f = |i: int| at(j, i).times(xt(l, i));
        let f2 = |i: int| x(i, l).times(a(i, j));
        assert forall|i: int| 0 <= i < rows implies #[trigger] f(i) == f2(i) by {
            F::times_commutes(a(i, j), x(i, l));
        }
        algebra::lemma_total_eq(rows, f, f2);
    }
    lemma_pair_eq(n, cols, qt, ytt, grid::t_prod(rows, x, a), y);
}

/// `<a, x y^T> = <a y, x>` and `<a, x y^T> = <a^T x, y>`.
pub proof fn lemma_pair_prod_t<F: ExactScalar>(
    rows: int,
    n: int,
    cols: int,
    a: Grid<F>,
    x: Grid<F>,
    y: Grid<F>,
)
    ensures
        pair(rows, cols, a, grid::prod_t(n, x, y)) == pair(rows, n, grid::prod(cols, a, y), x),
        pair(rows, cols, a, grid::prod_t(n, x, y)) == pair(cols, n, grid::t_prod(rows, a, x), y),
{
    let yt = |l: int, j: int| y(j, l);
    let p = grid::prod_t(n, x, y);
    let p2 = grid::prod(n, x, yt);
    assert(agree(rows, cols, p, p2)) by {
        assert forall|i: int, j: int| 0 <= i < rows && 0 <= j < cols implies #[trigger] p(i, j)
            == p2(i, j) by {
            let f = |l: int| x(i, l).times(y(j, l));
            let f2 = |l: int| x(i, l).times(yt(l, j));
            algebra::lemma_total_eq(n, f, f2);
        }
    }
    lemma_pair_eq(rows, cols, a, p, a, p2);
    lemma_pair_prod_left(rows, n, cols, a, x, yt);
    let c = grid::prod_t(cols, a, yt);
    let c2 = grid::prod(cols, a, y);
    assert(agree(rows, n, c, c2)) by {
        assert forall|i: int, l: int| 0 <= i < rows && 0 <= l < n implies #[trigger] c(i, l) == c2(
            i,
            l,
        ) by {
            let f = |j: int| a(i, j).times(yt(l, j));
            let f2 = |j: int| a(i, j).times(y(j, l));
            algebra::lemma_total_eq(cols, f, f2);
        }
    }
    lemma_pair_eq(rows, n, c, x, c2, x);
    lemma_pair_prod_right(rows, n, cols, a, x, yt);
    let d = grid::t_prod(rows, x, a);
    lemma_pair_transposed(n, cols, d, yt);
    let dt = |j: int, l: int| d(l, j);
    let ytt = |j: int, l: int| yt(l, j);
    let d2 = grid::t_prod(rows, a, x);
    assert(agree(cols, n, dt, d2)) by {
        assert forall|j: int, l: int| 0 <= j < cols && 0 <= l < n implies #[trigger] dt(j, l)
            == d2(j, l) by {
            let f = |i: int| x(i, l).times(a(i, j));
            let f2 = |i: int| a(i, j).times(x(i, l));
            assert forall|i: int| 0 <= i < rows implies #[trigger] f(i) == f2(i) by {
                F::times_commutes(x(i, l), a(i, j));
            }
            algebra::lemma_total_eq(rows, f, f2);
        }
    }
    lemma_pair_eq(cols, n, dt, ytt, d2, y);
}

/// `<a, x^T y> = <y a^T, x>` and `<a, x^T y> = <x a, y>`.
pub proof fn lemma_pair_t_prod<F: ExactScalar>(
    rows: int,
    n: int,
    cols: int,
    a: Grid<F>,
    x: Grid<F>,
    y: Grid<F>,
)
    ensures
        pair(rows, cols, a, grid::t_prod(n, x, y)) == pair(n, rows, grid::prod_t(cols, y, a), x),
        pair(rows, cols, a, grid::t_prod(n, x, y)) == pair(n, cols, grid::prod(rows, x, a), y),
{
    let xt = |i: int, l: int| x(l, i);
    let p = grid::t_prod(n, x, y);
    let p2 = grid::prod(n, xt, y);
    assert(agree(rows, cols, p, p2)) by {
        assert forall|i: int, j: int| 0 <= i < rows && 0 <= j < cols implies #[trigger] p(i, j)
            == p2(i, j) by {
            let f = |l: int| x(l, i).times(y(l, j));
            let f2 = |l: int| xt(i, l).times(y(l, j));
            algebra::lemma_total_eq(n, f, f2);
        }
    }
    lemma_pair_eq(rows, cols, a, p, a, p2);
    lemma_pair_prod_left(rows, n, cols, a, xt, y);
    let c = grid::prod_t(cols, a, y);
    lemma_pair_transposed(rows, n, c, xt);
    let ct = |l: int, i: int| c(i, l);
    let xtt = |l: int, i: int| xt(i, l);
    let c2 = grid::prod_t(cols, y, a);
    assert(agree(n, rows, ct, c2)) by {
        assert forall|l: int, i: int| 0 <= l < n && 0 <= i < rows implies #[trigger] ct(l, i)
            == c2(l, i) by {
            let f = |j: int| a(i, j).times(y(l, j));
            let f2 = |j: int| y(l, j).times(a(i, j));
            assert forall|j: int| 0 <= j < cols implies #[trigger] f(j) == f2(j) by {
                F::times_commutes(a(i, j), y(l, j));
            }
            algebra::lemma_total_eq(cols, f, f2);
        }
    }
    lemma_pair_eq(n, rows, ct, xtt, c2, x);
    lemma_pair_prod_right(rows, n, cols, a, xt, y);
    let d = grid::t_prod(rows, xt, a);
    let d2 = grid::prod(rows, x, a);
    assert(agree(n, cols, d, d2)) by {
        assert forall|l: int, j: int| 0 <= l < n && 0 <= j < cols implies #[trigger] d(l, j) == d2(
            l,
            j,
        ) by {
            let f = |i: int| xt(i, l).times(a(i, j));
            let f2 = |i: int| x(l, i).times(a(i, j));
            algebra::lemma_total_eq(rows, f, f2);
        }
    }
    lemma_pair_eq(n, cols, d, y, d2, y);
}

} // verus!
