//! Numbers with a derivative.

use vstd::prelude::*;

use crate::algebra;
use crate::scalar;
use crate::scalar::{ExactScalar, Scalar};

verus! {

/// A number and its derivative in one direction. Arithmetic follows the rules of differentiation.
#[derive(Clone, Copy, Debug, PartialEq, Eq)]
pub struct Dual<F> {
    /// The number.
    pub re: F,
    /// Its derivative.
    pub eps: F,
}

impl<F: Scalar> Scalar for Dual<F> {
    open spec fn nil() -> Self {
        Dual { re: F::nil(), eps: F::nil() }
    }

    open spec fn unit() -> Self {
        Dual { re: F::unit(), eps: F::nil() }
    }

    open spec fn fraction(num: u64, den: u64) -> Self {
        Dual { re: F::fraction(num, den), eps: F::nil() }
    }

    open spec fn plus(self, other: Self) -> Self {
        Dual { re: self.re.plus(other.re), eps: self.eps.plus(other.eps) }
    }

    open spec fn minus(self, other: Self) -> Self {
        Dual { re: self.re.minus(other.re), eps: self.eps.minus(other.eps) }
    }

    open spec fn times(self, other: Self) -> Self {
        Dual {
            re: self.re.times(other.re),
            eps: self.re.times(other.eps).plus(self.eps.times(other.re)),
        }
    }

    open spec fn over(self, other: Self) -> Self {
        Dual {
            re: self.re.over(other.re),
            eps: self.eps.times(other.re).minus(self.re.times(other.eps)).over(
                other.re.times(other.re),
            ),
        }
    }

    open spec fn negated(self) -> Self {
        Dual { re: self.re.negated(), eps: self.eps.negated() }
    }

    open spec fn raised(self) -> Self {
        Dual { re: self.re.raised(), eps: self.re.raised().times(self.eps) }
    }

    open spec fn logged(self) -> Self {
        Dual { re: self.re.logged(), eps: self.eps.over(self.re) }
    }

    open spec fn rooted(self) -> Self {
        Dual {
            re: self.re.rooted(),
            eps: self.eps.over(self.re.rooted().plus(self.re.rooted())),
        }
    }

    open spec fn below(self, other: Self) -> bool {
        self.re.below(other.re)
    }

    fn zero() -> Self {
        Dual { re: F::zero(), eps: F::zero() }
    }

    fn one() -> Self {
        Dual { re: F::one(), eps: F::zero() }
    }

    fn ratio(num: u64, den: u64) -> Self {
        Dual { re: F::ratio(num, den), eps: F::zero() }
    }

    fn add(self, other: Self) -> Self {
        Dual { re: self.re.add(other.re), eps: self.eps.add(other.eps) }
    }

    fn sub(self, other: Self) -> Self {
        Dual { re: self.re.sub(other.re), eps: self.eps.sub(other.eps) }
    }

    fn mul(self, other: Self) -> Self {
        Dual {
            re: self.re.mul(other.re),
            eps: self.re.mul(other.eps).add(self.eps.mul(other.re)),
        }
    }

    fn div(self, other: Self) -> Self {
        Dual {
            re: self.re.div(other.re),
            eps: self.eps.mul(other.re).sub(self.re.mul(other.eps)).div(other.re.mul(other.re)),
        }
    }

    fn neg(self) -> Self {
        Dual { re: self.re.neg(), eps: self.eps.neg() }
    }

    fn exp(self) -> Self {
        let e = self.re.exp();
        Dual { re: e, eps: e.mul(self.eps) }
    }

    fn ln(self) -> Self {
        Dual { re: self.re.ln(), eps: self.eps.div(self.re) }
    }

    fn sqrt(self) -> Self {
        let s = self.re.sqrt();
        Dual { re: s, eps: self.eps.div(s.add(s)) }
    }

    fn le(self, other: Self) -> bool {
        self.re.le(other.re)
    }
}

impl<F: ExactScalar> ExactScalar for Dual<F> {
    proof fn plus_commutes(a: Self, b: Self) {
        F::plus_commutes(a.re, b.re);
        F::plus_commutes(a.eps, b.eps);
    }

    proof fn plus_associates(a: Self, b: Self, c: Self) {
        F::plus_associates(a.re, b.re, c.re);
        F::plus_associates(a.eps, b.eps, c.eps);
    }

    proof fn plus_nil(a: Self) {
        F::plus_nil(a.re);
        F::plus_nil(a.eps);
    }

    proof fn plus_negated(a: Self) {
        F::plus_negated(a.re);
        F::plus_negated(a.eps);
    }

    proof fn minus_is_plus_negated(a: Self, b: Self) {
        F::minus_is_plus_negated(a.re, b.re);
        F::minus_is_plus_negated(a.eps, b.eps);
    }

    proof fn times_commutes(a: Self, b: Self) {
        F::times_commutes(a.re, b.re);
        F::times_commutes(a.re, b.eps);
        F::times_commutes(a.eps, b.re);
        F::plus_commutes(a.re.times(b.eps), a.eps.times(b.re));
    }

    proof fn times_associates(a: Self, b: Self, c: Self) {
        F::times_associates(a.re, b.re, c.re);
        // (a b) c' + (a b' + a' b) c = a (b c' + b' c) + a' (b c)
        let (x, y, z) = (
            a.re.times(b.re).times(c.eps),
            a.re.times(b.eps).times(c.re),
            a.eps.times(b.re).times(c.re),
        );
        algebra::lemma_plus_times(a.re.times(b.eps), a.eps.times(b.re), c.re);
        F::times_distributes(a.re, b.re.times(c.eps), b.eps.times(c.re));
        F::times_associates(a.re, b.re, c.eps);
        F::times_associates(a.re, b.eps, c.re);
        F::times_associates(a.eps, b.re, c.re);
        F::plus_associates(x, y, z);
    }

    proof fn times_unit(a: Self) {
        F::times_unit(a.re);
        F::times_unit(a.eps);
        algebra::lemma_times_nil(a.re);
        algebra::lemma_nil_plus(a.eps);
    }

    proof fn times_distributes(a: Self, b: Self, c: Self) {
        F::times_distributes(a.re, b.re, c.re);
        F::times_distributes(a.re, b.eps, c.eps);
        F::times_distributes(a.eps, b.re, c.re);
        algebra::lemma_plus_swap(
            a.re.times(b.eps),
            a.re.times(c.eps),
            a.eps.times(b.re),
            a.eps.times(c.re),
        );
    }

    proof fn raised_nil() {
        F::raised_nil();
        algebra::lemma_times_nil(F::unit());
    }

    proof fn raised_plus(a: Self, b: Self) {
        F::raised_plus(a.re, b.re);
        let (x, y) = (a.re.raised(), b.re.raised());
        // (x y) (a' + b') = x (y b') + (x a') y
        F::times_distributes(x.times(y), a.eps, b.eps);
        F::plus_commutes(x.times(y).times(a.eps), x.times(y).times(b.eps));
        F::times_associates(x, y, b.eps);
        algebra::lemma_times_rotate(x, y, a.eps);
    }

    proof fn over_raised(a: Self, x: Self) {
        F::over_raised(a.re, x.re);
        let e = x.re.raised();
        let d = x.re.negated().raised();
        // Dividing by e e is multiplying by d d.
        F::raised_plus(x.re, x.re);
        let num = a.eps.times(e).minus(a.re.times(e.times(x.eps)));
        F::over_raised(num, x.re.plus(x.re));
        algebra::lemma_negated_plus(x.re, x.re);
        F::raised_plus(x.re.negated(), x.re.negated());
        algebra::lemma_raised_inverse(x.re);
        // (p e) (d d) = p d
        let p = a.eps;
        let q = a.re.times(x.eps);
        assert forall|y: F| #[trigger] y.times(e).times(d.times(d)) == y.times(d) by {
            F::times_associates(y, e, d.times(d));
            F::times_associates(e, d, d);
            algebra::lemma_unit_times(d);
        }
        assert(a.re.times(e.times(x.eps)) == q.times(e)) by {
            F::times_commutes(e, x.eps);
            F::times_associates(a.re, x.eps, e);
        }
        algebra::lemma_minus_times(p.times(e), q.times(e), d.times(d));
        // p d - q d = a (d (-x')) + p d
        assert(a.re.times(d.times(x.eps.negated())) == q.times(d).negated()) by {
            F::times_commutes(d, x.eps.negated());
            F::times_associates(a.re, x.eps.negated(), d);
            algebra::lemma_negated_times(a.re, x.eps);
            algebra::lemma_negated_times(q, d);
        }
        F::minus_is_plus_negated(p.times(d), q.times(d));
        F::plus_commutes(p.times(d), q.times(d).negated());
    }
}

/// The parts of a sum are the sums of the parts.
pub proof fn lemma_total_parts<F: Scalar>(n: int, f: spec_fn(int) -> Dual<F>)
    ensures
        scalar::total(n, f).re == scalar::total(n, |i: int| f(i).re),
        scalar::total(n, f).eps == scalar::total(n, |i: int| f(i).eps),
    decreases n,
{
    if n > 0 {
        lemma_total_parts(n - 1, f);
    }
}

} // verus!
