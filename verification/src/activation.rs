//! The logistic function and what is built from it.

use vstd::prelude::*;

use crate::rows::RowMap;
use crate::scalar::Scalar;

verus! {

/// `1 / (1 + exp(-x))`.
pub open spec fn logistic<F: Scalar>(x: F) -> F {
    F::unit().over(F::unit().plus(x.negated().raised()))
}

/// `x / (1 + exp(-x))`.
pub open spec fn swish<F: Scalar>(x: F) -> F {
    x.times(logistic(x))
}

/// `ln(exp(x) + 1)`.
pub open spec fn smooth_ramp<F: Scalar>(x: F) -> F {
    x.raised().plus(F::unit()).logged()
}

/// The logistic function.
pub fn sigmoid<F: Scalar>(x: F) -> (r: F)
    ensures
        r == logistic(x),
{
    F::one().div(F::one().add(x.neg().exp()))
}

/// The sigmoid linear unit.
pub fn silu<F: Scalar>(x: F) -> (r: F)
    ensures
        r == swish(x),
{
    x.mul(sigmoid(x))
}

/// The softplus function.
pub fn softplus<F: Scalar>(x: F) -> (r: F)
    ensures
        r == smooth_ramp(x),
{
    x.exp().add(F::one()).ln()
}

/// `silu` on each element.
pub struct Silu;

impl<F: Scalar> RowMap<F> for Silu {
    open spec fn takes(&self, n: int) -> bool {
        true
    }

    open spec fn width(&self, n: int) -> int {
        n
    }

    open spec fn mapped(&self, row: Seq<F>, c: int) -> F {
        swish(row[c])
    }

    fn apply(&self, row: &Vec<F>) -> (r: Vec<F>) {
        let mut r: Vec<F> = Vec::new();
        for c in 0..row.len()
            invariant
                r@.len() == c,
                forall|i: int| 0 <= i < c ==> #[trigger] r@[i] == swish(row@[i]),
        {
            r.push(silu(row[c]));
        }
        r
    }
}

/// `sigmoid` on each element, doubled or not.
pub struct Sigmoid {
    pub double: bool,
}

/// What `Sigmoid` makes of one element.
pub open spec fn gate<F: Scalar>(double: bool, x: F) -> F {
    if double {
        logistic(x).times(F::fraction(2, 1))
    } else {
        logistic(x)
    }
}

impl<F: Scalar> RowMap<F> for Sigmoid {
    open spec fn takes(&self, n: int) -> bool {
        true
    }

    open spec fn width(&self, n: int) -> int {
        n
    }

    open spec fn mapped(&self, row: Seq<F>, c: int) -> F {
        gate(self.double, row[c])
    }

    fn apply(&self, row: &Vec<F>) -> (r: Vec<F>) {
        let mut r: Vec<F> = Vec::new();
        for c in 0..row.len()
            invariant
                r@.len() == c,
                forall|i: int| 0 <= i < c ==> #[trigger] r@[i] == gate(self.double, row@[i]),
        {
            let x = sigmoid(row[c]);
            if self.double {
                r.push(x.mul(F::ratio(2, 1)));
            } else {
                r.push(x);
            }
        }
        r
    }
}

} // verus!
