//! Matrices as functions of row and column.

use vstd::prelude::*;

use crate::scalar;
use crate::scalar::Scalar;

verus! {

/// A matrix as a function of row and column.
pub type Grid<F> = spec_fn(int, int) -> F;

/// Zeros.
pub open spec fn zero<F: Scalar>() -> Grid<F> {
    |i: int, j: int| F::nil()
}

/// The sum, element by element.
pub open spec fn plus<F: Scalar>(a: Grid<F>, b: Grid<F>) -> Grid<F> {
    |i: int, j: int| a(i, j).plus(b(i, j))
}

/// The difference, element by element.
pub open spec fn minus<F: Scalar>(a: Grid<F>, b: Grid<F>) -> Grid<F> {
    |i: int, j: int| a(i, j).minus(b(i, j))
}

/// The product, element by element.
pub open spec fn times<F: Scalar>(a: Grid<F>, b: Grid<F>) -> Grid<F> {
    |i: int, j: int| a(i, j).times(b(i, j))
}

/// The quotient, element by element.
pub open spec fn over<F: Scalar>(a: Grid<F>, b: Grid<F>) -> Grid<F> {
    |i: int, j: int| a(i, j).over(b(i, j))
}

/// The additive inverse, element by element.
pub open spec fn negated<F: Scalar>(a: Grid<F>) -> Grid<F> {
    |i: int, j: int| a(i, j).negated()
}

/// Each element times `c`.
pub open spec fn scaled<F: Scalar>(a: Grid<F>, c: F) -> Grid<F> {
    |i: int, j: int| a(i, j).times(c)
}

/// The product of two matrices, `n` the inner extent.
pub open spec fn prod<F: Scalar>(n: int, a: Grid<F>, b: Grid<F>) -> Grid<F> {
    |i: int, j: int| scalar::total(n, |l: int| a(i, l).times(b(l, j)))
}

/// The product of `a` and the transpose of `b`, `n` the inner extent.
pub open spec fn prod_t<F: Scalar>(n: int, a: Grid<F>, b: Grid<F>) -> Grid<F> {
    |i: int, j: int| scalar::total(n, |l: int| a(i, l).times(b(j, l)))
}

/// The product of the transpose of `a` and `b`, `n` the inner extent.
pub open spec fn t_prod<F: Scalar>(n: int, a: Grid<F>, b: Grid<F>) -> Grid<F> {
    |i: int, j: int| scalar::total(n, |l: int| a(l, i).times(b(l, j)))
}

/// Sums down the columns from the last of `n` rows up to each row.
pub open spec fn suffix_sums<F: Scalar>(n: int, a: Grid<F>) -> Grid<F> {
    |i: int, j: int| scalar::total(n - i, |x: int| a(n - 1 - x, j))
}

/// `a`, with `b` added to row `r`.
pub open spec fn plus_row<F: Scalar>(a: Grid<F>, r: int, b: spec_fn(int) -> F) -> Grid<F> {
    |i: int, j: int|
        if i == r {
            a(i, j).plus(b(j))
        } else {
            a(i, j)
        }
}

} // verus!
