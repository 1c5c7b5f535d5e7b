//! Facts on sums, and on exact numbers.

use vstd::prelude::*;

use crate::scalar;
use crate::scalar::{ExactScalar, Scalar};

verus! {

/// Sums of equal terms are equal.
pub proof fn lemma_total_eq<F: Scalar>(n: int, f: spec_fn(int) -> F, g: spec_fn(int) -> F)
    requires
        forall|i: int| 0 <= i < n ==> #[trigger] f(i) == g(i),
    ensures
        scalar::total(n, f) == scalar::total(n, g),
    decreases n,
{
    if n > 0 {
        lemma_total_eq(n - 1, f, g);
    }
}

/// Compensated sums of equal terms are equal.
pub proof fn lemma_compensated_eq<F: Scalar>(n: int, f: spec_fn(int) -> F, g: spec_fn(int) -> F)
    requires
        forall|i: int| 0 <= i < n ==> #[trigger] f(i) == g(i),
    ensures
        scalar::compensated(n, f) == scalar::compensated(n, g),
    decreases n,
{
    if n > 0 {
        lemma_compensated_eq(n - 1, f, g);
    }
}

/// Without rounding there is nothing to compensate.
pub proof fn lemma_compensated<F: ExactScalar>(n: int, f: spec_fn(int) -> F)
    ensures
        scalar::compensated(n, f) == (scalar::total(n, f), F::nil()),
    decreases n,
{
    if n > 0 {
        lemma_compensated(n - 1, f);
        let (s, x) = (scalar::total(n - 1, f), f(n - 1));
        lemma_minus_self(x);
        F::plus_commutes(s, x);
        lemma_minus_plus(x, s);
    }
}

/// `a + b = b + a`, `a + 0 = 0 + a = a`.
pub proof fn lemma_nil_plus<F: ExactScalar>(a: F)
    ensures
        F::nil().plus(a) == a,
        a.plus(F::nil()) == a,
{
    F::plus_nil(a);
    F::plus_commutes(a, F::nil());
}

/// `(a + b) + (c + d) = (a + c) + (b + d)`.
pub proof fn lemma_plus_swap<F: ExactScalar>(a: F, b: F, c: F, d: F)
    ensures
        a.plus(b).plus(c.plus(d)) == a.plus(c).plus(b.plus(d)),
{
    F::plus_associates(a, b, c.plus(d));
    F::plus_associates(b, c, d);
    F::plus_commutes(b, c);
    F::plus_associates(c, b, d);
    F::plus_associates(a, c, b.plus(d));
}

/// `(a + b) + c = (a + c) + b`.
pub proof fn lemma_plus_rotate<F: ExactScalar>(a: F, b: F, c: F)
    ensures
        a.plus(b).plus(c) == a.plus(c).plus(b),
{
    F::plus_associates(a, b, c);
    F::plus_commutes(b, c);
    F::plus_associates(a, c, b);
}

/// `a + b = a` only for `b = 0`.
pub proof fn lemma_plus_cancel<F: ExactScalar>(a: F, b: F, c: F)
    requires
        a.plus(b) == a.plus(c),
    ensures
        b == c,
{
    let m = a.negated();
    F::plus_commutes(a, m);
    F::plus_negated(a);
    F::plus_associates(m, a, b);
    F::plus_associates(m, a, c);
    lemma_nil_plus(b);
    lemma_nil_plus(c);
}

/// `a * 0 = 0 * a = 0`.
pub proof fn lemma_times_nil<F: ExactScalar>(a: F)
    ensures
        a.times(F::nil()) == F::nil(),
        F::nil().times(a) == F::nil(),
{
    let z = F::nil();
    F::times_distributes(a, z, z);
    F::plus_nil(z);
    F::plus_nil(a.times(z));
    lemma_plus_cancel(a.times(z), a.times(z), z);
    F::times_commutes(a, z);
}

/// `a * 1 = 1 * a = a`.
pub proof fn lemma_unit_times<F: ExactScalar>(a: F)
    ensures
        F::unit().times(a) == a,
        a.times(F::unit()) == a,
{
    F::times_unit(a);
    F::times_commutes(a, F::unit());
}

/// `(a + b) * c = a * c + b * c`.
pub proof fn lemma_plus_times<F: ExactScalar>(a: F, b: F, c: F)
    ensures
        a.plus(b).times(c) == a.times(c).plus(b.times(c)),
{
    F::times_commutes(a.plus(b), c);
    F::times_distributes(c, a, b);
    F::times_commutes(c, a);
    F::times_commutes(c, b);
}

/// `-(a * b) = (-a) * b = a * (-b)`.
pub proof fn lemma_negated_times<F: ExactScalar>(a: F, b: F)
    ensures
        a.negated().times(b) == a.times(b).negated(),
        a.times(b.negated()) == a.times(b).negated(),
{
    F::plus_negated(a);
    lemma_plus_times(a, a.negated(), b);
    lemma_times_nil(b);
    F::plus_negated(a.times(b));
    lemma_plus_cancel(a.times(b), a.negated().times(b), a.times(b).negated());
    F::plus_negated(b);
    F::times_distributes(a, b, b.negated());
    lemma_times_nil(a);
    lemma_plus_cancel(a.times(b), a.times(b.negated()), a.times(b).negated());
}

/// `-(a + b) = (-a) + (-b)`.
pub proof fn lemma_negated_plus<F: ExactScalar>(a: F, b: F)
    ensures
        a.plus(b).negated() == a.negated().plus(b.negated()),
{
    lemma_plus_swap(a, b, a.negated(), b.negated());
    F::plus_negated(a);
    F::plus_negated(b);
    F::plus_nil(F::nil());
    F::plus_negated(a.plus(b));
    lemma_plus_cancel(a.plus(b), a.negated().plus(b.negated()), a.plus(b).negated());
}

/// `-0 = 0` and `-(-a) = a`.
pub proof fn lemma_negated_twice<F: ExactScalar>(a: F)
    ensures
        F::nil().negated() == F::nil(),
        a.negated().negated() == a,
{
    F::plus_negated(F::nil());
    lemma_nil_plus(F::nil().negated());
    F::plus_negated(a);
    F::plus_negated(a.negated());
    F::plus_commutes(a, a.negated());
    lemma_plus_cancel(a.negated(), a, a.negated().negated());
}

/// `a - a = 0`, `a - 0 = a`.
pub proof fn lemma_minus_self<F: ExactScalar>(a: F)
    ensures
        a.minus(a) == F::nil(),
        a.minus(F::nil()) == a,
{
    F::minus_is_plus_negated(a, a);
    F::plus_negated(a);
    F::minus_is_plus_negated(a, F::nil());
    lemma_negated_twice(a);
    F::plus_nil(a);
}

/// `(a - b) + b = a`.
pub proof fn lemma_minus_plus<F: ExactScalar>(a: F, b: F)
    ensures
        a.minus(b).plus(b) == a,
        a.plus(b).minus(b) == a,
{
    F::minus_is_plus_negated(a, b);
    F::plus_associates(a, b.negated(), b);
    F::plus_commutes(b.negated(), b);
    F::plus_negated(b);
    F::plus_nil(a);
    F::minus_is_plus_negated(a.plus(b), b);
    F::plus_associates(a, b, b.negated());
}

/// `(a - b) * c = a * c - b * c` and `c * (a - b) = c * a - c * b`.
pub proof fn lemma_minus_times<F: ExactScalar>(a: F, b: F, c: F)
    ensures
        a.minus(b).times(c) == a.times(c).minus(b.times(c)),
        c.times(a.minus(b)) == c.times(a).minus(c.times(b)),
{
    F::minus_is_plus_negated(a, b);
    lemma_plus_times(a, b.negated(), c);
    lemma_negated_times(b, c);
    F::minus_is_plus_negated(a.times(c), b.times(c));
    F::times_distributes(c, a, b.negated());
    lemma_negated_times(c, b);
    F::minus_is_plus_negated(c.times(a), c.times(b));
}

/// `(a - b) - c = a - (b + c)`.
pub proof fn lemma_minus_minus<F: ExactScalar>(a: F, b: F, c: F)
    ensures
        a.minus(b).minus(c) == a.minus(b.plus(c)),
{
    F::minus_is_plus_negated(a, b);
    F::minus_is_plus_negated(a.minus(b), c);
    F::minus_is_plus_negated(a, b.plus(c));
    lemma_negated_plus(b, c);
    F::plus_associates(a, b.negated(), c.negated());
}

/// `(a * b) * c = (a * c) * b`.
pub proof fn lemma_times_rotate<F: ExactScalar>(a: F, b: F, c: F)
    ensures
        a.times(b).times(c) == a.times(c).times(b),
{
    F::times_associates(a, b, c);
    F::times_commutes(b, c);
    F::times_associates(a, c, b);
}

/// `(a * b) * (c * d) = (a * c) * (b * d)`.
pub proof fn lemma_times_swap<F: ExactScalar>(a: F, b: F, c: F, d: F)
    ensures
        a.times(b).times(c.times(d)) == a.times(c).times(b.times(d)),
{
    F::times_associates(a, b, c.times(d));
    F::times_associates(b, c, d);
    F::times_commutes(b, c);
    F::times_associates(c, b, d);
    F::times_associates(a, c, b.times(d));
}

/// `exp(a) * exp(-a) = 1`.
pub proof fn lemma_raised_inverse<F: ExactScalar>(a: F)
    ensures
        a.raised().times(a.negated().raised()) == F::unit(),
{
    F::plus_negated(a);
    F::raised_plus(a, a.negated());
    F::raised_nil();
}

/// `exp(a - b) = exp(a) * exp(-b)`.
pub proof fn lemma_raised_minus<F: ExactScalar>(a: F, b: F)
    ensures
        a.minus(b).raised() == a.raised().times(b.negated().raised()),
{
    F::minus_is_plus_negated(a, b);
    F::raised_plus(a, b.negated());
}

/// A sum of zeros.
pub proof fn lemma_total_nil<F: ExactScalar>(n: int, f: spec_fn(int) -> F)
    requires
        forall|i: int| 0 <= i < n ==> #[trigger] f(i) == F::nil(),
    ensures
        scalar::total(n, f) == F::nil(),
    decreases n,
{
    if n > 0 {
        lemma_total_nil(n - 1, f);
        F::plus_nil(F::nil());
    }
}

/// A sum whose terms from `m` on are zero.
pub proof fn lemma_total_cut<F: ExactScalar>(n: int, m: int, f: spec_fn(int) -> F)
    requires
        0 <= m <= n,
        forall|i: int| m <= i < n ==> #[trigger] f(i) == F::nil(),
    ensures
        scalar::total(n, f) == scalar::total(m, f),
    decreases n,
{
    if n > m {
        lemma_total_cut(n - 1, m, f);
        F::plus_nil(scalar::total(m, f));
    }
}

/// A sum with a single term that is not zero.
pub proof fn lemma_total_single<F: ExactScalar>(n: int, m: int, f: spec_fn(int) -> F)
    requires
        0 <= m < n,
        forall|i: int| 0 <= i < n && i != m ==> #[trigger] f(i) == F::nil(),
    ensures
        scalar::total(n, f) == f(m),
{
    lemma_total_cut(n, m + 1, f);
    lemma_total_nil(m, f);
    lemma_nil_plus(f(m));
}

/// The sum of sums.
pub proof fn lemma_total_plus<F: ExactScalar>(
    n: int,
    f: spec_fn(int) -> F,
    g: spec_fn(int) -> F,
    h: spec_fn(int) -> F,
)
    requires
        forall|i: int| 0 <= i < n ==> #[trigger] h(i) == f(i).plus(g(i)),
    ensures
        scalar::total(n, h) == scalar::total(n, f).plus(scalar::total(n, g)),
    decreases n,
{
    if n > 0 {
        lemma_total_plus(n - 1, f, g, h);
        assert(h(n - 1) == f(n - 1).plus(g(n - 1)));
        lemma_plus_swap(scalar::total(n - 1, f), scalar::total(n - 1, g), f(n - 1), g(n - 1));
    } else {
        F::plus_nil(F::nil());
    }
}

/// The sum of negations.
pub proof fn lemma_total_negated<F: ExactScalar>(
    n: int,
    f: spec_fn(int) -> F,
    h: spec_fn(int) -> F,
)
    requires
        forall|i: int| 0 <= i < n ==> #[trigger] h(i) == f(i).negated(),
    ensures
        scalar::total(n, h) == scalar::total(n, f).negated(),
    decreases n,
{
    if n > 0 {
        lemma_total_negated(n - 1, f, h);
        assert(h(n - 1) == f(n - 1).negated());
        lemma_negated_plus(scalar::total(n - 1, f), f(n - 1));
    } else {
        lemma_negated_twice(F::nil());
    }
}

/// The sum of differences.
pub proof fn lemma_total_minus<F: ExactScalar>(
    n: int,
    f: spec_fn(int) -> F,
    g: spec_fn(int) -> F,
    h: spec_fn(int) -> F,
)
    requires
        forall|i: int| 0 <= i < n ==> #[trigger] h(i) == f(i).minus(g(i)),
    ensures
        scalar::total(n, h) == scalar::total(n, f).minus(scalar::total(n, g)),
{
    let ng = |i: int| g(i).negated();
    assert forall|i: int| 0 <= i < n implies #[trigger] h(i) == f(i).plus(ng(i)) by {
        F::minus_is_plus_negated(f(i), g(i));
    }
    lemma_total_plus(n, f, ng, h);
    lemma_total_negated(n, g, ng);
    F::minus_is_plus_negated(scalar::total(n, f), scalar::total(n, g));
}

/// A common factor on the right.
pub proof fn lemma_total_times<F: ExactScalar>(
    n: int,
    f: spec_fn(int) -> F,
    c: F,
    h: spec_fn(int) -> F,
)
    requires
        forall|i: int| 0 <= i < n ==> #[trigger] h(i) == f(i).times(c),
    ensures
        scalar::total(n, h) == scalar::total(n, f).times(c),
    decreases n,
{
    if n > 0 {
        lemma_total_times(n - 1, f, c, h);
        assert(h(n - 1) == f(n - 1).times(c));
        lemma_plus_times(scalar::total(n - 1, f), f(n - 1), c);
    } else {
        lemma_times_nil(c);
    }
}

/// A common factor on the left.
pub proof fn lemma_times_total<F: ExactScalar>(
    n: int,
    c: F,
    f: spec_fn(int) -> F,
    h: spec_fn(int) -> F,
)
    requires
        forall|i: int| 0 <= i < n ==> #[trigger] h(i) == c.times(f(i)),
    ensures
        scalar::total(n, h) == c.times(scalar::total(n, f)),
{
    assert forall|i: int| 0 <= i < n implies #[trigger] h(i) == f(i).times(c) by {
        F::times_commutes(c, f(i));
    }
    lemma_total_times(n, f, c, h);
    F::times_commutes(c, scalar::total(n, f));
}

/// The order of two sums.
pub proof fn lemma_total_exchange<F: ExactScalar>(n: int, m: int, f: spec_fn(int, int) -> F)
    ensures
        scalar::total(n, |i: int| scalar::total(m, |j: int| f(i, j))) == scalar::total(
            m,
            |j: int| scalar::total(n, |i: int| f(i, j)),
        ),
    decreases n,
{
    let rows = |i: int| scalar::total(m, |j: int| f(i, j));
    let cols = |j: int| scalar::total(n, |i: int| f(i, j));
    if n <= 0 {
        assert forall|j: int| 0 <= j < m implies #[trigger] cols(j) == F::nil() by {}
        lemma_total_nil(m, cols);
    } else {
        lemma_total_exchange(n - 1, m, f);
        let before = |j: int| scalar::total(n - 1, |i: int| f(i, j));
        let last = |j: int| f(n - 1, j);
        assert forall|j: int| 0 <= j < m implies #[trigger] cols(j) == before(j).plus(last(j)) by {}
        lemma_total_plus(m, before, last, cols);
    }
}

/// A sum split in two.
pub proof fn lemma_total_split<F: ExactScalar>(n: int, m: int, f: spec_fn(int) -> F)
    requires
        0 <= m <= n,
    ensures
        scalar::total(n, f) == scalar::total(m, f).plus(
            scalar::total(n - m, |i: int| f(m + i)),
        ),
    decreases n,
{
    let g = |i: int| f(m + i);
    if n == m {
        F::plus_nil(scalar::total(m, f));
    } else {
        lemma_total_split(n - 1, m, f);
        assert(g(n - 1 - m) == f(n - 1));
        F::plus_associates(scalar::total(m, f), scalar::total(n - 1 - m, g), f(n - 1));
    }
}

/// A sum from the other end.
pub proof fn lemma_total_reversed<F: ExactScalar>(n: int, f: spec_fn(int) -> F)
    ensures
        scalar::total(n, |x: int| f(n - 1 - x)) == scalar::total(n, f),
    decreases n,
{
    if n > 0 {
        // Take the last term of the one and the first of the other away.
        let g = |x: int| f(n - 1 - x);
        let tail = |x: int| f(1 + x);
        lemma_total_reversed(n - 1, tail);
        let h = |x: int| tail(n - 1 - 1 - x);
        lemma_total_eq(n - 1, g, h);
        lemma_total_split(n, 1, f);
        assert(scalar::total(1, f) == scalar::total(0, f).plus(f(0)));
        lemma_nil_plus(f(0));
        F::plus_commutes(scalar::total(n - 1, tail), f(0));
    }
}

/// Weighted prefix sums are suffix sums of the weights.
pub proof fn lemma_prefix_suffix<F: ExactScalar>(
    n: int,
    h: spec_fn(int) -> F,
    g: spec_fn(int) -> F,
)
    ensures
        scalar::total(n, |r: int| h(r).times(scalar::total(r + 1, g))) == scalar::total(
            n,
            |y: int| scalar::total(n - y, |x: int| h(n - 1 - x)).times(g(y)),
        ),
{
    let up_to = |r: int, y: int|
        if y <= r {
            g(y)
        } else {
            F::nil()
        };
    let cell = |r: int, y: int| h(r).times(up_to(r, y));
    let rows = |r: int| h(r).times(scalar::total(r + 1, g));
    let rows2 = |r: int| scalar::total(n, |y: int| cell(r, y));
    assert forall|r: int| 0 <= r < n implies #[trigger] rows(r) == rows2(r) by {
        let f = |y: int| up_to(r, y);
        lemma_total_cut(n, r + 1, f);
        lemma_total_eq(r + 1, f, g);
        let c = |y: int| cell(r, y);
        lemma_times_total(n, h(r), f, c);
    }
    lemma_total_eq(n, rows, rows2);
    lemma_total_exchange(n, n, cell);
    let cols = |y: int| scalar::total(n, |r: int| cell(r, y));
    let cols2 = |y: int| scalar::total(n - y, |x: int| h(n - 1 - x)).times(g(y));
    assert forall|y: int| 0 <= y < n implies #[trigger] cols(y) == cols2(y) by {
        let from = |r: int|
            if y <= r {
                h(r)
            } else {
                F::nil()
            };
        let c = |r: int| cell(r, y);
        assert forall|r: int| 0 <= r < n implies #[trigger] c(r) == from(r).times(g(y)) by {
            lemma_times_nil(h(r));
            lemma_times_nil(g(y));
        }
        lemma_total_times(n, from, g(y), c);
        lemma_total_split(n, y, from);
        lemma_total_nil(y, from);
        let tail = |i: int| from(y + i);
        lemma_nil_plus(scalar::total(n - y, tail));
        lemma_total_reversed(n - y, tail);
        let rev = |x: int| tail(n - y - 1 - x);
        let rev2 = |x: int| h(n - 1 - x);
        lemma_total_eq(n - y, rev, rev2);
    }
    lemma_total_eq(n, cols, cols2);
}

} // verus!
