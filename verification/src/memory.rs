//! The state of a head as a memory: what is written at a key is read back there, and what lies at
//! other keys decays and stays.

use vstd::prelude::*;

use crate::algebra;
use crate::grid::Grid;
use crate::recurrence::Head;
use crate::scalar;
use crate::scalar::{ExactScalar, Scalar};
use crate::streams::Streams;

verus! {

impl<F: ExactScalar> Head<F> {
    /// What a query finds in the state after a token: what it finds in the decayed state, and its
    /// product with the key, times what the token writes.
    proof fn lemma_read_after(self, t: int, s: Grid<F>, j: int)
        ensures
            self.read(t, self.step(t, s), j) == scalar::total(
                self.kd,
                |i: int| s(i, j).times((self.g)(t, i).raised()).times((self.q)(t, i)),
            ).plus(
                scalar::total(self.kd, |i: int| (self.k)(t, i).times((self.q)(t, i))).times(
                    self.fresh(t, s, j),
                ),
            ).times(self.scale),
    {
        let u = self.fresh(t, s, j);
        let f = |i: int| self.step(t, s)(i, j).times((self.q)(t, i));
        let a = |i: int| s(i, j).times((self.g)(t, i).raised()).times((self.q)(t, i));
        let b = |i: int| (self.k)(t, i).times((self.q)(t, i));
        let c = |i: int| b(i).times(u);
        assert forall|i: int| 0 <= i < self.kd implies #[trigger] f(i) == a(i).plus(c(i)) by {
            let (d, k, q) = (self.decayed(t, s, i, j), (self.k)(t, i), (self.q)(t, i));
            algebra::lemma_plus_times(d, k.times(u), q);
            algebra::lemma_times_rotate(k, u, q);
        }
        algebra::lemma_total_plus(self.kd, a, c, f);
        algebra::lemma_total_times(self.kd, b, u, c);
    }

    /// With open gates and a key of length 1, a token that looks where it has just written finds its
    /// own value, whatever was there before: the output is the value times the scale.
    pub proof fn written_values_are_read_back(self, s: Grid<F>, t: int, j: int)
        requires
            0 <= t,
            0 <= j < self.vd,
            forall|i: int| 0 <= i < self.kd ==> #[trigger] (self.b)(t, i) == F::unit(),
            forall|i: int| 0 <= i < self.kd ==> #[trigger] (self.q)(t, i) == (self.k)(t, i),
            (self.w)(t, j) == F::unit(),
            scalar::total(self.kd, |i: int| (self.k)(t, i).times((self.k)(t, i))) == F::unit(),
        ensures
            self.output(s, t, j) == (self.v)(t, j).times(self.scale),
    {
        let s0 = self.run(s, 0, t);
        assert(self.run(s, 0, t + 1) == self.step(t, s0));
        self.lemma_read_after(t, s0, j);
        let kq = |i: int| (self.k)(t, i).times((self.q)(t, i));
        let kk = |i: int| (self.k)(t, i).times((self.k)(t, i));
        algebra::lemma_total_eq(self.kd, kq, kk);
        let found = |i: int| s0(i, j).times((self.g)(t, i).raised()).times((self.q)(t, i));
        let erased = |i: int|
            self.decayed(t, s0, i, j).times((self.b)(t, i).times((self.k)(t, i)));
        assert forall|i: int| 0 <= i < self.kd implies #[trigger] found(i) == erased(i) by {
            assert((self.b)(t, i) == F::unit());
            assert((self.q)(t, i) == (self.k)(t, i));
            algebra::lemma_unit_times((self.k)(t, i));
        }
        algebra::lemma_total_eq(self.kd, found, erased);
        let (e, v, u) = (scalar::total(self.kd, erased), (self.v)(t, j), self.fresh(t, s0, j));
        algebra::lemma_unit_times(v);
        algebra::lemma_unit_times(u);
        // e + (v - e) = v
        F::plus_commutes(e, v.minus(e));
        algebra::lemma_minus_plus(v, e);
    }

    /// A token that looks where its key does not reach finds what was there before, decayed: it
    /// neither erases nor writes there.
    pub proof fn other_keys_are_kept(self, s: Grid<F>, t: int, j: int)
        requires
            0 <= t,
            0 <= j < self.vd,
            scalar::total(self.kd, |i: int| (self.k)(t, i).times((self.q)(t, i))) == F::nil(),
        ensures
            self.output(s, t, j) == scalar::total(
                self.kd,
                |i: int|
                    self.run(s, 0, t)(i, j).times((self.g)(t, i).raised()).times((self.q)(t, i)),
            ).times(self.scale),
    {
        let s0 = self.run(s, 0, t);
        assert(self.run(s, 0, t + 1) == self.step(t, s0));
        self.lemma_read_after(t, s0, j);
        let u = self.fresh(t, s0, j);
        algebra::lemma_times_nil(u);
        let f = |i: int| s0(i, j).times((self.g)(t, i).raised()).times((self.q)(t, i));
        let g = |i: int|
            self.run(s, 0, t)(i, j).times((self.g)(t, i).raised()).times((self.q)(t, i));
        algebra::lemma_total_eq(self.kd, f, g);
        F::plus_nil(scalar::total(self.kd, f));
    }

    /// Shut gates leave the memory alone but for its decay, channel by channel.
    pub proof fn shut_gates_only_decay(self, s: Grid<F>, t: int, i: int, j: int)
        requires
            0 <= t,
            0 <= i < self.kd,
            0 <= j < self.vd,
            forall|l: int| 0 <= l < self.kd ==> #[trigger] (self.b)(t, l) == F::nil(),
            (self.w)(t, j) == F::nil(),
        ensures
            self.run(s, 0, t + 1)(i, j) == self.run(s, 0, t)(i, j).times(
                (self.g)(t, i).raised(),
            ),
    {
        let s0 = self.run(s, 0, t);
        assert(self.run(s, 0, t + 1) == self.step(t, s0));
        let f = |l: int| self.decayed(t, s0, l, j).times((self.b)(t, l).times((self.k)(t, l)));
        assert forall|l: int| 0 <= l < self.kd implies #[trigger] f(l) == F::nil() by {
            let (d, k) = (self.decayed(t, s0, l, j), (self.k)(t, l));
            assert((self.b)(t, l) == F::nil());
            algebra::lemma_times_nil(k);
            F::times_commutes(d, F::nil());
            algebra::lemma_times_nil(d);
        }
        algebra::lemma_total_nil(self.kd, f);
        algebra::lemma_times_nil((self.v)(t, j));
        algebra::lemma_minus_self(F::nil());
        let k = (self.k)(t, i);
        F::times_commutes(k, F::nil());
        algebra::lemma_times_nil(k);
        F::plus_nil(self.decayed(t, s0, i, j));
    }
}

/// Queries only read: inputs that differ in their queries alone leave the same states, on rounded
/// numbers too, and the outputs of a token depend on its own query.
pub proof fn queries_only_read<F: Scalar>(
    x: Streams<F>,
    y: Streams<F>,
    scale: F,
    s: Grid<F>,
    a: int,
    h: int,
    n: int,
)
    requires
        x.wf(),
        y.wf(),
        *x.k == *y.k && *x.v == *y.v && *x.g == *y.g && *x.b == *y.b && *x.w == *y.w,
        0 <= n <= x.tokens(),
        0 <= a < x.batch(),
        0 <= h < x.heads(),
    ensures
        forall|i: int, j: int|
            0 <= i < x.kd() && 0 <= j < x.vd() ==> #[trigger] x.head(scale, a, h).run(s, 0, n)(i, j)
                == y.head(scale, a, h).run(s, 0, n)(i, j),
        n >= 1 && (forall|i: int|
            0 <= i < x.kd() ==> #[trigger] x.q.at(a, h, n - 1, i) == y.q.at(a, h, n - 1, i))
            ==> forall|j: int|
            0 <= j < x.vd() ==> #[trigger] x.head(scale, a, h).output(s, n - 1, j) == y.head(
                scale,
                a,
                h,
            ).output(s, n - 1, j),
    decreases n,
{
    let (h1, h2) = (x.head(scale, a, h), y.head(scale, a, h));
    if n > 0 {
        queries_only_read(x, y, scale, s, a, h, n - 1);
        let (s1, s2) = (h1.run(s, 0, n - 1), h2.run(s, 0, n - 1));
        let t = n - 1;
        assert forall|i: int, j: int| 0 <= i < x.kd() && 0 <= j < x.vd() implies #[trigger] h1.run(
            s,
            0,
            n,
        )(i, j) == h2.run(s, 0, n)(i, j) by {
            let f = |l: int| h1.decayed(t, s1, l, j).times((h1.b)(t, l).times((h1.k)(t, l)));
            let g = |l: int| h2.decayed(t, s2, l, j).times((h2.b)(t, l).times((h2.k)(t, l)));
            assert forall|l: int| 0 <= l < x.kd() implies #[trigger] f(l) == g(l) by {
                assert(s1(l, j) == s2(l, j));
            }
            algebra::lemma_total_eq(x.kd(), f, g);
            assert(s1(i, j) == s2(i, j));
        }
        if forall|i: int|
            0 <= i < x.kd() ==> #[trigger] x.q.at(a, h, t, i) == y.q.at(a, h, t, i) {
            assert forall|j: int| 0 <= j < x.vd() implies #[trigger] h1.output(s, t, j)
                == h2.output(s, t, j) by {
                let (r1, r2) = (h1.run(s, 0, n), h2.run(s, 0, n));
                let f = |i: int| r1(i, j).times((h1.q)(t, i));
                let g = |i: int| r2(i, j).times((h2.q)(t, i));
                assert forall|i: int| 0 <= i < x.kd() implies #[trigger] f(i) == g(i) by {
                    assert(r1(i, j) == r2(i, j));
                    assert(x.q.at(a, h, t, i) == y.q.at(a, h, t, i));
                }
                algebra::lemma_total_eq(x.kd(), f, g);
            }
        }
    }
}

} // verus!
