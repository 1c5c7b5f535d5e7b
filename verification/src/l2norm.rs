//! Division by the Euclidean norm.

use vstd::prelude::*;

use crate::algebra;
use crate::rows;
use crate::rows::RowMap;
use crate::scalar;
use crate::scalar::Scalar;
use crate::tensor::{Tensor3, Tensor4};

verus! {

/// `sum(x^2)`.
pub open spec fn sum_of_squares<F: Scalar>(row: Seq<F>) -> F {
    scalar::total(row.len() as int, |i: int| row[i].times(row[i]))
}

/// Element `c` of `x / sqrt(sum(x^2) + eps)`.
pub open spec fn normalized<F: Scalar>(row: Seq<F>, eps: F, c: int) -> F {
    row[c].over(sum_of_squares(row).plus(eps).rooted())
}

/// Whether division by `y` and multiplication by it undo each other.
pub open spec fn divides<F: Scalar>(y: F) -> bool {
    forall|a: F|
        #![trigger a.over(y)]
        #![trigger a.times(y)]
        a.over(y).times(y) == a && a.times(y).over(y) == a
}

/// `sum(x^2)`.
pub(crate) fn squared_length<F: Scalar>(row: &Vec<F>) -> (r: F)
    ensures
        r == sum_of_squares(row@),
{
    let ghost f = |i: int| row@[i].times(row@[i]);
    let mut y = F::zero();
    for i in 0..row.len()
        invariant
            f == (|i: int| row@[i].times(row@[i])),
            y == scalar::total(i as int, f),
    {
        y = y.add(row[i].mul(row[i]));
    }
    proof {
        algebra::lemma_total_eq(row@.len() as int, f, |i: int| row@[i].times(row@[i]));
    }
    y
}

/// Division of a row by its norm.
pub struct L2Norm<F> {
    pub eps: F,
}

impl<F: Scalar> RowMap<F> for L2Norm<F> {
    open spec fn takes(&self, n: int) -> bool {
        true
    }

    open spec fn width(&self, n: int) -> int {
        n
    }

    open spec fn mapped(&self, row: Seq<F>, c: int) -> F {
        normalized(row, self.eps, c)
    }

    fn apply(&self, row: &Vec<F>) -> (r: Vec<F>) {
        let norm = squared_length(row).add(self.eps).sqrt();
        let mut r: Vec<F> = Vec::new();
        for c in 0..row.len()
            invariant
                norm == sum_of_squares(row@).plus(self.eps).rooted(),
                r@.len() == c,
                forall|i: int| 0 <= i < c ==> #[trigger] r@[i] == normalized(row@, self.eps, i),
        {
            r.push(row[c].div(norm));
        }
        r
    }
}

/// L2-normalizes along the last dimension.
pub fn l2_normalize<F: Scalar>(x: &Tensor3<F>, eps: F) -> (r: Tensor3<F>)
    requires
        x.wf(),
        x.d0 * x.d1 <= usize::MAX,
    ensures
        r.shaped(x.d0 as int, x.d1 as int, x.d2 as int),
        forall|a: int, b: int, c: int|
            0 <= a < x.d0 && 0 <= b < x.d1 && 0 <= c < x.d2 ==> #[trigger] r.at(a, b, c)
                == normalized(x.row(a, b), eps, c),
{
    let m = L2Norm { eps };
    let r = x.map_rows(&m, x.d2);
    assert forall|a: int, b: int, c: int|
        0 <= a < x.d0 && 0 <= b < x.d1 && 0 <= c < x.d2 implies #[trigger] r.at(a, b, c)
        == normalized(x.row(a, b), eps, c) by {
        assert(r.row(a, b)[c] == rows::image(m, x.row(a, b))[c]);
    }
    r
}

/// L2-normalizes along the last dimension. Queries and keys are normalized per head, so this comes
/// after the split into heads.
pub fn l2_normalize_4d<F: Scalar>(x: &Tensor4<F>, eps: F) -> (r: Tensor4<F>)
    requires
        x.wf(),
    ensures
        r.shaped(x.d0 as int, x.d1 as int, x.d2 as int, x.d3 as int),
        forall|a: int, b: int, c: int, d: int|
            0 <= a < x.d0 && 0 <= b < x.d1 && 0 <= c < x.d2 && 0 <= d < x.d3 ==> #[trigger] r.at(
                a,
                b,
                c,
                d,
            ) == normalized(x.row(a, b, c), eps, d),
{
    let m = L2Norm { eps };
    let r = x.map_rows(&m);
    assert forall|a: int, b: int, c: int, d: int|
        0 <= a < x.d0 && 0 <= b < x.d1 && 0 <= c < x.d2 && 0 <= d < x.d3 implies #[trigger] r.at(
        a,
        b,
        c,
        d,
    ) == normalized(x.row(a, b, c), eps, d) by {
        assert(r.row(a, b, c)[d] == rows::image(m, x.row(a, b, c))[d]);
    }
    r
}

} // verus!
