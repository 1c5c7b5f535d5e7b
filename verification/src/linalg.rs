//! Products and elementwise operations on matrices.

use vstd::prelude::*;

use crate::algebra;
use crate::grid;
use crate::grid::Grid;
use crate::scalar;
use crate::scalar::Scalar;
use crate::tensor::Matrix;

verus! {

impl<F: Scalar> Matrix<F> {
    /// Whether the matrix holds the values of `f` on its extents.
    pub open spec fn holds(self, rows: int, cols: int, f: Grid<F>) -> bool {
        &&& self.shaped(rows, cols)
        &&& forall|i: int, j: int|
            0 <= i < rows && 0 <= j < cols ==> #[trigger] self.at(i, j) == f(i, j)
    }
}

/// Element `(i, j)` of `a b`.
pub open spec fn dot<F: Scalar>(a: Matrix<F>, b: Matrix<F>, i: int, j: int) -> F {
    scalar::total(a.cols as int, |l: int| a.at(i, l).times(b.at(l, j)))
}

/// Element `(i, j)` of `a` times the transpose of `b`.
pub open spec fn dot_rows<F: Scalar>(a: Matrix<F>, b: Matrix<F>, i: int, j: int) -> F {
    scalar::total(a.cols as int, |l: int| a.at(i, l).times(b.at(j, l)))
}

/// Element `(i, j)` of the transpose of `a` times `b`.
pub open spec fn dot_cols<F: Scalar>(a: Matrix<F>, b: Matrix<F>, i: int, j: int) -> F {
    scalar::total(a.rows as int, |l: int| a.at(l, i).times(b.at(l, j)))
}

/// `a b`.
pub fn product<F: Scalar>(a: &Matrix<F>, b: &Matrix<F>) -> (r: Matrix<F>)
    requires
        a.wf(),
        b.wf(),
        a.cols == b.rows,
        a.rows * b.cols <= usize::MAX,
    ensures
        r.shaped(a.rows as int, b.cols as int),
        forall|i: int, j: int|
            0 <= i < a.rows && 0 <= j < b.cols ==> #[trigger] r.at(i, j) == dot(*a, *b, i, j),
{
    let mut r = Matrix::zeros(a.rows, b.cols);
    for i in 0..a.rows
        invariant
            a.wf(),
            b.wf(),
            a.cols == b.rows,
            r.shaped(a.rows as int, b.cols as int),
            forall|x: int, y: int|
                0 <= x < i && 0 <= y < b.cols ==> #[trigger] r.at(x, y) == dot(*a, *b, x, y),
    {
        for j in 0..b.cols
            invariant
                a.wf(),
                b.wf(),
                a.cols == b.rows,
                i < a.rows,
                r.shaped(a.rows as int, b.cols as int),
                forall|x: int, y: int|
                    0 <= y < b.cols && (0 <= x < i || (x == i && y < j)) ==> #[trigger] r.at(x, y)
                        == dot(*a, *b, x, y),
        {
            let ghost f = |l: int| a.at(i as int, l).times(b.at(l, j as int));
            let mut acc = F::zero();
            for l in 0..a.cols
                invariant
                    a.wf(),
                    b.wf(),
                    a.cols == b.rows,
                    i < a.rows,
                    j < b.cols,
                    f == (|l: int| a.at(i as int, l).times(b.at(l, j as int))),
                    acc == scalar::total(l as int, f),
            {
                acc = acc.add(a.get(i, l).mul(b.get(l, j)));
            }
            r.set(i, j, acc);
        }
    }
    r
}

/// `a` times the transpose of `b`.
pub fn product_rows<F: Scalar>(a: &Matrix<F>, b: &Matrix<F>) -> (r: Matrix<F>)
    requires
        a.wf(),
        b.wf(),
        a.cols == b.cols,
        a.rows * b.rows <= usize::MAX,
    ensures
        r.shaped(a.rows as int, b.rows as int),
        forall|i: int, j: int|
            0 <= i < a.rows && 0 <= j < b.rows ==> #[trigger] r.at(i, j) == dot_rows(*a, *b, i, j),
{
    let mut r = Matrix::zeros(a.rows, b.rows);
    for i in 0..a.rows
        invariant
            a.wf(),
            b.wf(),
            a.cols == b.cols,
            r.shaped(a.rows as int, b.rows as int),
            forall|x: int, y: int|
                0 <= x < i && 0 <= y < b.rows ==> #[trigger] r.at(x, y) == dot_rows(*a, *b, x, y),
    {
        for j in 0..b.rows
            invariant
                a.wf(),
                b.wf(),
                a.cols == b.cols,
                i < a.rows,
                r.shaped(a.rows as int, b.rows as int),
                forall|x: int, y: int|
                    0 <= y < b.rows && (0 <= x < i || (x == i && y < j)) ==> #[trigger] r.at(x, y)
                        == dot_rows(*a, *b, x, y),
        {
            let ghost f = |l: int| a.at(i as int, l).times(b.at(j as int, l));
            let mut acc = F::zero();
            for l in 0..a.cols
                invariant
                    a.wf(),
                    b.wf(),
                    a.cols == b.cols,
                    i < a.rows,
                    j < b.rows,
                    f == (|l: int| a.at(i as int, l).times(b.at(j as int, l))),
                    acc == scalar::total(l as int, f),
            {
                acc = acc.add(a.get(i, l).mul(b.get(j, l)));
            }
            r.set(i, j, acc);
        }
    }
    r
}

/// The transpose of `a` times `b`.
pub fn product_cols<F: Scalar>(a: &Matrix<F>, b: &Matrix<F>) -> (r: Matrix<F>)
    requires
        a.wf(),
        b.wf(),
        a.rows == b.rows,
        a.cols * b.cols <= usize::MAX,
    ensures
        r.shaped(a.cols as int, b.cols as int),
        forall|i: int, j: int|
            0 <= i < a.cols && 0 <= j < b.cols ==> #[trigger] r.at(i, j) == dot_cols(*a, *b, i, j),
{
    let mut r = Matrix::zeros(a.cols, b.cols);
    for i in 0..a.cols
        invariant
            a.wf(),
            b.wf(),
            a.rows == b.rows,
            r.shaped(a.cols as int, b.cols as int),
            forall|x: int, y: int|
                0 <= x < i && 0 <= y < b.cols ==> #[trigger] r.at(x, y) == dot_cols(*a, *b, x, y),
    {
        for j in 0..b.cols
            invariant
                a.wf(),
                b.wf(),
                a.rows == b.rows,
                i < a.cols,
                r.shaped(a.cols as int, b.cols as int),
                forall|x: int, y: int|
                    0 <= y < b.cols && (0 <= x < i || (x == i && y < j)) ==> #[trigger] r.at(x, y)
                        == dot_cols(*a, *b, x, y),
        {
            let ghost f = |l: int| a.at(l, i as int).times(b.at(l, j as int));
            let mut acc = F::zero();
            for l in 0..a.rows
                invariant
                    a.wf(),
                    b.wf(),
                    a.rows == b.rows,
                    i < a.cols,
                    j < b.cols,
                    f == (|l: int| a.at(l, i as int).times(b.at(l, j as int))),
                    acc == scalar::total(l as int, f),
            {
                acc = acc.add(a.get(l, i).mul(b.get(l, j)));
            }
            r.set(i, j, acc);
        }
    }
    r
}

/// An elementwise operation on two numbers.
#[derive(Clone, Copy, Debug, PartialEq, Eq, Structural)]
pub enum Op {
    Add,
    Sub,
    Mul,
    Div,
}

/// What an operation gives.
pub open spec fn applied<F: Scalar>(op: Op, x: F, y: F) -> F {
    match op {
        Op::Add => x.plus(y),
        Op::Sub => x.minus(y),
        Op::Mul => x.times(y),
        Op::Div => x.over(y),
    }
}

fn apply<F: Scalar>(op: Op, x: F, y: F) -> (r: F)
    ensures
        r == applied(op, x, y),
{
    match op {
        Op::Add => x.add(y),
        Op::Sub => x.sub(y),
        Op::Mul => x.mul(y),
        Op::Div => x.div(y),
    }
}

/// An operation on the elements of two matrices.
pub fn elementwise<F: Scalar>(op: Op, a: &Matrix<F>, b: &Matrix<F>) -> (r: Matrix<F>)
    requires
        a.wf(),
        b.shaped(a.rows as int, a.cols as int),
    ensures
        r.shaped(a.rows as int, a.cols as int),
        forall|i: int, j: int|
            0 <= i < a.rows && 0 <= j < a.cols ==> #[trigger] r.at(i, j) == applied(
                op,
                a.at(i, j),
                b.at(i, j),
            ),
{
    let mut r = a.copy();
    for i in 0..a.rows
        invariant
            a.wf(),
            b.shaped(a.rows as int, a.cols as int),
            r.shaped(a.rows as int, a.cols as int),
            forall|x: int, y: int|
                0 <= x < i && 0 <= y < a.cols ==> #[trigger] r.at(x, y) == applied(
                    op,
                    a.at(x, y),
                    b.at(x, y),
                ),
    {
        for j in 0..a.cols
            invariant
                a.wf(),
                b.shaped(a.rows as int, a.cols as int),
                i < a.rows,
                r.shaped(a.rows as int, a.cols as int),
                forall|x: int, y: int|
                    0 <= y < a.cols && (0 <= x < i || (x == i && y < j)) ==> #[trigger] r.at(x, y)
                        == applied(op, a.at(x, y), b.at(x, y)),
        {
            r.set(i, j, apply(op, a.get(i, j), b.get(i, j)));
        }
    }
    r
}

/// The exponential of each element.
pub fn raise<F: Scalar>(a: &Matrix<F>) -> (r: Matrix<F>)
    requires
        a.wf(),
    ensures
        r.shaped(a.rows as int, a.cols as int),
        forall|i: int, j: int|
            0 <= i < a.rows && 0 <= j < a.cols ==> #[trigger] r.at(i, j) == a.at(i, j).raised(),
{
    let mut r = a.copy();
    for i in 0..a.rows
        invariant
            a.wf(),
            r.shaped(a.rows as int, a.cols as int),
            forall|x: int, y: int|
                0 <= x < i && 0 <= y < a.cols ==> #[trigger] r.at(x, y) == a.at(x, y).raised(),
    {
        for j in 0..a.cols
            invariant
                a.wf(),
                i < a.rows,
                r.shaped(a.rows as int, a.cols as int),
                forall|x: int, y: int|
                    0 <= y < a.cols && (0 <= x < i || (x == i && y < j)) ==> #[trigger] r.at(x, y)
                        == a.at(x, y).raised(),
        {
            r.set(i, j, a.get(i, j).exp());
        }
    }
    r
}

/// Each element times `c`.
pub fn scale<F: Scalar>(a: &Matrix<F>, c: F) -> (r: Matrix<F>)
    requires
        a.wf(),
    ensures
        r.shaped(a.rows as int, a.cols as int),
        forall|i: int, j: int|
            0 <= i < a.rows && 0 <= j < a.cols ==> #[trigger] r.at(i, j) == a.at(i, j).times(c),
{
    let mut r = a.copy();
    for i in 0..a.rows
        invariant
            a.wf(),
            r.shaped(a.rows as int, a.cols as int),
            forall|x: int, y: int|
                0 <= x < i && 0 <= y < a.cols ==> #[trigger] r.at(x, y) == a.at(x, y).times(c),
    {
        for j in 0..a.cols
            invariant
                a.wf(),
                i < a.rows,
                r.shaped(a.rows as int, a.cols as int),
                forall|x: int, y: int|
                    0 <= y < a.cols && (0 <= x < i || (x == i && y < j)) ==> #[trigger] r.at(x, y)
                        == a.at(x, y).times(c),
        {
            r.set(i, j, a.get(i, j).mul(c));
        }
    }
    r
}

/// The additive inverse of each element.
pub fn negate<F: Scalar>(a: &Matrix<F>) -> (r: Matrix<F>)
    requires
        a.wf(),
    ensures
        r.shaped(a.rows as int, a.cols as int),
        forall|i: int, j: int|
            0 <= i < a.rows && 0 <= j < a.cols ==> #[trigger] r.at(i, j) == a.at(i, j).negated(),
{
    let mut r = a.copy();
    for i in 0..a.rows
        invariant
            a.wf(),
            r.shaped(a.rows as int, a.cols as int),
            forall|x: int, y: int|
                0 <= x < i && 0 <= y < a.cols ==> #[trigger] r.at(x, y) == a.at(x, y).negated(),
    {
        for j in 0..a.cols
            invariant
                a.wf(),
                i < a.rows,
                r.shaped(a.rows as int, a.cols as int),
                forall|x: int, y: int|
                    0 <= y < a.cols && (0 <= x < i || (x == i && y < j)) ==> #[trigger] r.at(x, y)
                        == a.at(x, y).negated(),
        {
            r.set(i, j, a.get(i, j).neg());
        }
    }
    r
}

/// Sums down each column: element `(i, j)` is the sum of the first `i + 1` elements of column `j`.
pub fn cumulate<F: Scalar>(a: &Matrix<F>) -> (r: Matrix<F>)
    requires
        a.wf(),
    ensures
        r.shaped(a.rows as int, a.cols as int),
        forall|i: int, j: int|
            0 <= i < a.rows && 0 <= j < a.cols ==> #[trigger] r.at(i, j) == scalar::total(
                i + 1,
                |x: int| a.at(x, j),
            ),
{
    let mut r = a.copy();
    for j in 0..a.cols
        invariant
            a.wf(),
            r.shaped(a.rows as int, a.cols as int),
            forall|x: int, y: int|
                0 <= x < a.rows && 0 <= y < j ==> #[trigger] r.at(x, y) == scalar::total(
                    x + 1,
                    |l: int| a.at(l, y),
                ),
    {
        let ghost f = |l: int| a.at(l, j as int);
        let mut acc = F::zero();
        for i in 0..a.rows
            invariant
                a.wf(),
                j < a.cols,
                r.shaped(a.rows as int, a.cols as int),
                f == (|l: int| a.at(l, j as int)),
                acc == scalar::total(i as int, f),
                forall|x: int, y: int|
                    0 <= x < a.rows && 0 <= y < j ==> #[trigger] r.at(x, y) == scalar::total(
                        x + 1,
                        |l: int| a.at(l, y),
                    ),
                forall|x: int| 0 <= x < i ==> #[trigger] r.at(x, j as int) == scalar::total(x + 1, f),
        {
            acc = acc.add(a.get(i, j));
            r.set(i, j, acc);
        }
    }
    r
}

/// Sums down each column, with compensation for rounding.
pub fn cumulate_compensated<F: Scalar>(a: &Matrix<F>) -> (r: Matrix<F>)
    requires
        a.wf(),
    ensures
        r.shaped(a.rows as int, a.cols as int),
        forall|i: int, j: int|
            0 <= i < a.rows && 0 <= j < a.cols ==> #[trigger] r.at(i, j)
                == scalar::compensated(i + 1, |x: int| a.at(x, j)).0,
{
    let mut r = a.copy();
    for j in 0..a.cols
        invariant
            a.wf(),
            r.shaped(a.rows as int, a.cols as int),
            forall|x: int, y: int|
                0 <= x < a.rows && 0 <= y < j ==> #[trigger] r.at(x, y)
                    == scalar::compensated(x + 1, |l: int| a.at(l, y)).0,
    {
        let ghost f = |l: int| a.at(l, j as int);
        let mut acc = F::zero();
        let mut excess = F::zero();
        for i in 0..a.rows
            invariant
                a.wf(),
                j < a.cols,
                r.shaped(a.rows as int, a.cols as int),
                f == (|l: int| a.at(l, j as int)),
                (acc, excess) == scalar::compensated(i as int, f),
                forall|x: int, y: int|
                    0 <= x < a.rows && 0 <= y < j ==> #[trigger] r.at(x, y)
                        == scalar::compensated(x + 1, |l: int| a.at(l, y)).0,
                forall|x: int| 0 <= x < i ==> #[trigger] r.at(x, j as int)
                    == scalar::compensated(x + 1, f).0,
        {
            let term = a.get(i, j).sub(excess);
            let next = acc.add(term);
            excess = next.sub(acc).sub(term);
            acc = next;
            r.set(i, j, acc);
        }
    }
    r
}

/// A product of two matrices, in terms of what they hold.
pub(crate) fn product_of<F: Scalar>(
    a: &Matrix<F>,
    b: &Matrix<F>,
    Ghost(n): Ghost<int>,
    Ghost(af): Ghost<Grid<F>>,
    Ghost(bf): Ghost<Grid<F>>,
) -> (r: Matrix<F>)
    requires
        a.holds(a.rows as int, n, af),
        b.holds(n, b.cols as int, bf),
        a.rows * b.cols <= usize::MAX,
    ensures
        r.holds(
            a.rows as int,
            b.cols as int,
            grid::prod(n, af, bf),
        ),
{
    let r = product(a, b);
    assert forall|i: int, j: int| 0 <= i < a.rows && 0 <= j < b.cols implies #[trigger] r.at(i, j)
        == scalar::total(n, |l: int| af(i, l).times(bf(l, j))) by {
        let f = |l: int| a.at(i, l).times(b.at(l, j));
        let f2 = |l: int| af(i, l).times(bf(l, j));
        assert forall|l: int| 0 <= l < n implies #[trigger] f(l) == f2(l) by {
            assert(a.at(i, l) == af(i, l));
            assert(b.at(l, j) == bf(l, j));
        }
        algebra::lemma_total_eq(n, f, f2);
    }
    r
}

/// A product with a transpose on the right, in terms of what the matrices hold.
pub(crate) fn product_rows_of<F: Scalar>(
    a: &Matrix<F>,
    b: &Matrix<F>,
    Ghost(n): Ghost<int>,
    Ghost(af): Ghost<Grid<F>>,
    Ghost(bf): Ghost<Grid<F>>,
) -> (r: Matrix<F>)
    requires
        a.holds(a.rows as int, n, af),
        b.holds(b.rows as int, n, bf),
        a.rows * b.rows <= usize::MAX,
    ensures
        r.holds(
            a.rows as int,
            b.rows as int,
            grid::prod_t(n, af, bf),
        ),
{
    let r = product_rows(a, b);
    assert forall|i: int, j: int| 0 <= i < a.rows && 0 <= j < b.rows implies #[trigger] r.at(i, j)
        == scalar::total(n, |l: int| af(i, l).times(bf(j, l))) by {
        let f = |l: int| a.at(i, l).times(b.at(j, l));
        let f2 = |l: int| af(i, l).times(bf(j, l));
        assert forall|l: int| 0 <= l < n implies #[trigger] f(l) == f2(l) by {
            assert(a.at(i, l) == af(i, l));
            assert(b.at(j, l) == bf(j, l));
        }
        algebra::lemma_total_eq(n, f, f2);
    }
    r
}

/// A product with a transpose on the left, in terms of what the matrices hold.
pub(crate) fn product_cols_of<F: Scalar>(
    a: &Matrix<F>,
    b: &Matrix<F>,
    Ghost(n): Ghost<int>,
    Ghost(af): Ghost<Grid<F>>,
    Ghost(bf): Ghost<Grid<F>>,
) -> (r: Matrix<F>)
    requires
        a.holds(n, a.cols as int, af),
        b.holds(n, b.cols as int, bf),
        a.cols * b.cols <= usize::MAX,
    ensures
        r.holds(
            a.cols as int,
            b.cols as int,
            grid::t_prod(n, af, bf),
        ),
{
    let r = product_cols(a, b);
    assert forall|i: int, j: int| 0 <= i < a.cols && 0 <= j < b.cols implies #[trigger] r.at(i, j)
        == scalar::total(n, |l: int| af(l, i).times(bf(l, j))) by {
        let f = |l: int| a.at(l, i).times(b.at(l, j));
        let f2 = |l: int| af(l, i).times(bf(l, j));
        assert forall|l: int| 0 <= l < n implies #[trigger] f(l) == f2(l) by {
            assert(a.at(l, i) == af(l, i));
            assert(b.at(l, j) == bf(l, j));
        }
        algebra::lemma_total_eq(n, f, f2);
    }
    r
}

} // verus!
