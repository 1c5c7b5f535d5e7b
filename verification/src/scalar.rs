//! The numbers that the library computes with.

use vstd::prelude::*;

verus! {

/// A number type. Each operation is a function of its operands: `add` computes `plus`, `mul`
/// computes `times`, and so on.
///
/// The specification functions are left open here, so the algorithms are specified operation by
/// operation, for rounded numbers as much as for exact ones. A verified implementation states
/// each of them.
pub trait Scalar: Copy {
    /// What `zero` returns.
    open spec fn nil() -> Self {
        arbitrary()
    }

    /// What `one` returns.
    open spec fn unit() -> Self {
        arbitrary()
    }

    /// What `ratio` returns.
    open spec fn fraction(num: u64, den: u64) -> Self {
        arbitrary()
    }

    /// What `add` returns.
    open spec fn plus(self, other: Self) -> Self {
        arbitrary()
    }

    /// What `sub` returns.
    open spec fn minus(self, other: Self) -> Self {
        arbitrary()
    }

    /// What `mul` returns.
    open spec fn times(self, other: Self) -> Self {
        arbitrary()
    }

    /// What `div` returns.
    open spec fn over(self, other: Self) -> Self {
        arbitrary()
    }

    /// What `neg` returns.
    open spec fn negated(self) -> Self {
        arbitrary()
    }

    /// What `exp` returns.
    open spec fn raised(self) -> Self {
        arbitrary()
    }

    /// What `ln` returns.
    open spec fn logged(self) -> Self {
        arbitrary()
    }

    /// What `sqrt` returns.
    open spec fn rooted(self) -> Self {
        arbitrary()
    }

    /// What `le` returns.
    open spec fn below(self, other: Self) -> bool {
        arbitrary()
    }

    /// The number 0.
    fn zero() -> (r: Self)
        ensures
            r == Self::nil(),
    ;

    /// The number 1.
    fn one() -> (r: Self)
        ensures
            r == Self::unit(),
    ;

    /// The number nearest to `num / den`.
    fn ratio(num: u64, den: u64) -> (r: Self)
        requires
            den > 0,
        ensures
            r == Self::fraction(num, den),
    ;

    /// The sum.
    fn add(self, other: Self) -> (r: Self)
        ensures
            r == self.plus(other),
    ;

    /// The difference.
    fn sub(self, other: Self) -> (r: Self)
        ensures
            r == self.minus(other),
    ;

    /// The product.
    fn mul(self, other: Self) -> (r: Self)
        ensures
            r == self.times(other),
    ;

    /// The quotient.
    fn div(self, other: Self) -> (r: Self)
        ensures
            r == self.over(other),
    ;

    /// The additive inverse.
    fn neg(self) -> (r: Self)
        ensures
            r == self.negated(),
    ;

    /// The exponential.
    fn exp(self) -> (r: Self)
        ensures
            r == self.raised(),
    ;

    /// The natural logarithm.
    fn ln(self) -> (r: Self)
        ensures
            r == self.logged(),
    ;

    /// The square root.
    fn sqrt(self) -> (r: Self)
        ensures
            r == self.rooted(),
    ;

    /// Whether this number is at most `other`.
    fn le(self, other: Self) -> (r: bool)
        ensures
            r == self.below(other),
    ;
}

/// A number type without rounding: a commutative ring whose exponential turns sums into products
/// and can be divided by.
pub trait ExactScalar: Scalar {
    proof fn plus_commutes(a: Self, b: Self)
        ensures
            a.plus(b) == b.plus(a),
    ;

    proof fn plus_associates(a: Self, b: Self, c: Self)
        ensures
            a.plus(b).plus(c) == a.plus(b.plus(c)),
    ;

    proof fn plus_nil(a: Self)
        ensures
            a.plus(Self::nil()) == a,
    ;

    proof fn plus_negated(a: Self)
        ensures
            a.plus(a.negated()) == Self::nil(),
    ;

    proof fn minus_is_plus_negated(a: Self, b: Self)
        ensures
            a.minus(b) == a.plus(b.negated()),
    ;

    proof fn times_commutes(a: Self, b: Self)
        ensures
            a.times(b) == b.times(a),
    ;

    proof fn times_associates(a: Self, b: Self, c: Self)
        ensures
            a.times(b).times(c) == a.times(b.times(c)),
    ;

    proof fn times_unit(a: Self)
        ensures
            a.times(Self::unit()) == a,
    ;

    proof fn times_distributes(a: Self, b: Self, c: Self)
        ensures
            a.times(b.plus(c)) == a.times(b).plus(a.times(c)),
    ;

    proof fn raised_nil()
        ensures
            Self::nil().raised() == Self::unit(),
    ;

    proof fn raised_plus(a: Self, b: Self)
        ensures
            a.plus(b).raised() == a.raised().times(b.raised()),
    ;

    proof fn over_raised(a: Self, x: Self)
        ensures
            a.over(x.raised()) == a.times(x.negated().raised()),
    ;
}

/// The smaller of the two numbers.
pub open spec fn at_most<F: Scalar>(x: F, hi: F) -> F {
    if x.below(hi) {
        x
    } else {
        hi
    }
}

/// The larger of the two numbers.
pub open spec fn at_least<F: Scalar>(x: F, lo: F) -> F {
    if lo.below(x) {
        x
    } else {
        lo
    }
}

/// `f(0) + f(1) + .. + f(n - 1)`, added up from the left, starting at zero.
pub open spec fn total<F: Scalar>(n: int, f: spec_fn(int) -> F) -> F
    decreases n,
{
    if n <= 0 {
        F::nil()
    } else {
        total(n - 1, f).plus(f(n - 1))
    }
}

/// `f(0) + f(1) + .. + f(n - 1)`, added up from the left with compensation: each term is corrected
/// by what rounding added to the sum before it. The second component is what it added last.
pub open spec fn compensated<F: Scalar>(n: int, f: spec_fn(int) -> F) -> (F, F)
    decreases n,
{
    if n <= 0 {
        (F::nil(), F::nil())
    } else {
        let (sum, excess) = compensated(n - 1, f);
        let term = f(n - 1).minus(excess);
        let next = sum.plus(term);
        (next, next.minus(sum).minus(term))
    }
}

/// Caps `x` at `hi`.
pub fn cap<F: Scalar>(x: F, hi: F) -> (r: F)
    ensures
        r == at_most(x, hi),
{
    if x.le(hi) {
        x
    } else {
        hi
    }
}

/// Lifts `x` to `lo`.
pub fn lift<F: Scalar>(x: F, lo: F) -> (r: F)
    ensures
        r == at_least(x, lo),
{
    if lo.le(x) {
        x
    } else {
        lo
    }
}

} // verus!
