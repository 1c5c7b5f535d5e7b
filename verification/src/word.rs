//! Whole numbers modulo a power of two: exact numbers of fixed size.

use vstd::arithmetic::div_mod::{
    lemma_add_mod_noop, lemma_mul_mod_noop_left, lemma_mul_mod_noop_right, lemma_small_mod,
};
use vstd::prelude::*;

use crate::scalar::{ExactScalar, Scalar};

verus! {

/// Two to the power 64.
pub const WORDS: u128 = 18446744073709551616;

/// A whole number modulo two to the power 64.
///
/// Sums and products are exact. The exponential that turns sums into products is 1 everywhere, so
/// the logarithm is 0. Odd numbers have an inverse, by which `div` multiplies. There are no square
/// roots: `sqrt` hands back its operand. Sums run in a circle, so the only order that they respect
/// has every number at most every other.
#[derive(Clone, Copy, Debug, PartialEq, Eq)]
pub struct Word {
    pub v: u64,
}

/// `x` reduced modulo two to the power 64.
pub open spec fn word(x: int) -> Word {
    Word { v: (x % (WORDS as int)) as u64 }
}

/// `x` to the power `e`.
pub open spec fn power(x: Word, e: nat) -> Word
    decreases e,
{
    if e == 0 {
        word(1)
    } else if e % 2 == 0 {
        power(word(x.v * x.v), e / 2)
    } else {
        word(x.v * power(word(x.v * x.v), e / 2).v)
    }
}

/// An exponent that takes every odd number to its inverse.
pub const INVERTING: u64 = 4611686018427387903;

fn reduce(x: u128) -> (r: Word)
    ensures
        r == word(x as int),
{
    Word { v: (x % WORDS) as u64 }
}

fn multiply(x: Word, y: Word) -> (r: Word)
    ensures
        r == word(x.v * y.v),
{
    assert(0 <= x.v * y.v < WORDS * WORDS) by (nonlinear_arith)
        requires
            0 <= x.v < WORDS,
            0 <= y.v < WORDS,
    ;
    reduce(x.v as u128 * y.v as u128)
}

/// Computes `power`.
fn pow(x: Word, e: u64) -> (r: Word)
    ensures
        r == power(x, e as nat),
    decreases e,
{
    if e == 0 {
        Word { v: 1 }
    } else {
        let half = pow(multiply(x, x), e / 2);
        if e % 2 == 0 {
            half
        } else {
            multiply(x, half)
        }
    }
}

impl Scalar for Word {
    open spec fn nil() -> Self {
        Word { v: 0 }
    }

    open spec fn unit() -> Self {
        Word { v: 1 }
    }

    open spec fn fraction(num: u64, den: u64) -> Self {
        Word { v: num }.over(Word { v: den })
    }

    open spec fn plus(self, other: Self) -> Self {
        word(self.v + other.v)
    }

    open spec fn minus(self, other: Self) -> Self {
        word(self.v - other.v)
    }

    open spec fn times(self, other: Self) -> Self {
        word(self.v * other.v)
    }

    open spec fn over(self, other: Self) -> Self {
        self.times(power(other, INVERTING as nat))
    }

    open spec fn negated(self) -> Self {
        word(-(self.v as int))
    }

    open spec fn raised(self) -> Self {
        Word { v: 1 }
    }

    open spec fn logged(self) -> Self {
        Word { v: 0 }
    }

    open spec fn rooted(self) -> Self {
        self
    }

    open spec fn below(self, other: Self) -> bool {
        true
    }

    fn zero() -> Self {
        Word { v: 0 }
    }

    fn one() -> Self {
        Word { v: 1 }
    }

    fn ratio(num: u64, den: u64) -> Self {
        Word { v: num }.div(Word { v: den })
    }

    fn add(self, other: Self) -> Self {
        reduce(self.v as u128 + other.v as u128)
    }

    fn sub(self, other: Self) -> Self {
        proof {
            vstd::arithmetic::div_mod::lemma_mod_add_multiples_vanish(
                self.v - other.v,
                WORDS as int,
            );
        }
        reduce(WORDS + self.v as u128 - other.v as u128)
    }

    fn mul(self, other: Self) -> Self {
        multiply(self, other)
    }

    fn div(self, other: Self) -> Self {
        multiply(self, pow(other, INVERTING))
    }

    fn neg(self) -> Self {
        Word { v: 0 }.sub(self)
    }

    fn exp(self) -> Self {
        Word { v: 1 }
    }

    fn ln(self) -> Self {
        Word { v: 0 }
    }

    fn sqrt(self) -> Self {
        self
    }

    fn le(self, other: Self) -> bool {
        true
    }
}

/// Reduced numbers stay as they are.
proof fn lemma_word_of(a: Word)
    ensures
        word(a.v as int) == a,
{
    lemma_small_mod(a.v as nat, WORDS as nat);
}

/// Reducing a summand or a factor first changes nothing.
proof fn lemma_word_ops(x: int, y: int)
    ensures
        word(word(x).v + y) == word(x + y),
        word(x + word(y).v) == word(x + y),
        word(word(x).v * y) == word(x * y),
        word(x * word(y).v) == word(x * y),
{
    let m = WORDS as int;
    lemma_add_mod_noop(x % m, y, m);
    lemma_add_mod_noop(x, y, m);
    lemma_add_mod_noop(x, y % m, m);
    lemma_mul_mod_noop_left(x, y, m);
    lemma_mul_mod_noop_right(x, y, m);
}

/// 1 to any power is 1.
proof fn lemma_power_unit(e: nat)
    ensures
        power(Word { v: 1 }, e) == (Word { v: 1 }),
    decreases e,
{
    lemma_word_of(Word { v: 1 });
    if e > 0 {
        lemma_power_unit(e / 2);
    }
}

impl ExactScalar for Word {
    proof fn plus_commutes(a: Self, b: Self) {
    }

    proof fn plus_associates(a: Self, b: Self, c: Self) {
        lemma_word_ops(a.v + b.v, c.v as int);
        lemma_word_ops(a.v as int, b.v + c.v);
    }

    proof fn plus_nil(a: Self) {
        lemma_word_of(a);
    }

    proof fn plus_negated(a: Self) {
        lemma_word_ops(a.v as int, -(a.v as int));
    }

    proof fn minus_is_plus_negated(a: Self, b: Self) {
        lemma_word_ops(a.v as int, -(b.v as int));
    }

    proof fn times_commutes(a: Self, b: Self) {
        assert(a.v * b.v == b.v * a.v) by (nonlinear_arith);
    }

    proof fn times_associates(a: Self, b: Self, c: Self) {
        lemma_word_ops(a.v * b.v, c.v as int);
        lemma_word_ops(a.v as int, b.v * c.v);
        assert((a.v * b.v) * c.v == a.v * (b.v * c.v)) by (nonlinear_arith);
    }

    proof fn times_unit(a: Self) {
        lemma_word_of(a);
    }

    proof fn times_distributes(a: Self, b: Self, c: Self) {
        lemma_word_ops(a.v as int, b.v + c.v);
        lemma_word_ops(a.v * b.v, a.v * c.v);
        lemma_word_ops(word(a.v * b.v).v as int, a.v * c.v);
        assert(a.v * (b.v + c.v) == a.v * b.v + a.v * c.v) by (nonlinear_arith);
    }

    proof fn raised_nil() {
    }

    proof fn raised_plus(a: Self, b: Self) {
        lemma_word_of(Word { v: 1 });
    }

    proof fn over_raised(a: Self, x: Self) {
        lemma_power_unit(INVERTING as nat);
    }
}

} // verus!
