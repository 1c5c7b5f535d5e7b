//! The gated delta rule, token by token: the meaning of everything else in the library.

use vstd::prelude::*;

use crate::algebra;
use crate::scalar;
use crate::scalar::{ExactScalar, Scalar};

verus! {

/// The tokens of one head. `q`, `k`, `g` and `b` map a token and a key channel to a number, `v`
/// and `w` a token and a value channel.
#[verifier::ext_equal]
pub struct Head<F> {
    /// Number of key channels.
    pub kd: int,
    /// Number of value channels.
    pub vd: int,
    /// Queries.
    pub q: spec_fn(int, int) -> F,
    /// Keys.
    pub k: spec_fn(int, int) -> F,
    /// Values.
    pub v: spec_fn(int, int) -> F,
    /// Logarithms of the decays.
    pub g: spec_fn(int, int) -> F,
    /// Erase gates.
    pub b: spec_fn(int, int) -> F,
    /// Write gates.
    pub w: spec_fn(int, int) -> F,
    /// Factor of the output.
    pub scale: F,
}

impl<F: Scalar> Head<F> {
    /// The state after the decay of token `t`.
    pub open spec fn decayed(self, t: int, s: spec_fn(int, int) -> F, i: int, j: int) -> F {
        s(i, j).times((self.g)(t, i).raised())
    }

    /// What token `t` reads out of the decayed state at its gated key.
    pub open spec fn erased(self, t: int, s: spec_fn(int, int) -> F, j: int) -> F {
        scalar::total(
            self.kd,
            |i: int| self.decayed(t, s, i, j).times((self.b)(t, i).times((self.k)(t, i))),
        )
    }

    /// The value that token `t` writes.
    pub open spec fn fresh(self, t: int, s: spec_fn(int, int) -> F, j: int) -> F {
        (self.w)(t, j).times((self.v)(t, j)).minus(self.erased(t, s, j))
    }

    /// One element of the state after token `t`.
    pub open spec fn stepped(self, t: int, s: spec_fn(int, int) -> F, i: int, j: int) -> F {
        self.decayed(t, s, i, j).plus((self.k)(t, i).times(self.fresh(t, s, j)))
    }

    /// The state after token `t`, from the state `s` before it.
    pub open spec fn step(self, t: int, s: spec_fn(int, int) -> F) -> spec_fn(int, int) -> F {
        |i: int, j: int| self.stepped(t, s, i, j)
    }

    /// What the query of token `t` reads out of the state `s`.
    pub open spec fn read(self, t: int, s: spec_fn(int, int) -> F, j: int) -> F {
        scalar::total(self.kd, |i: int| s(i, j).times((self.q)(t, i))).times(self.scale)
    }

    /// What the query of token `t` finds in the state `s`, as a row times a matrix.
    pub open spec fn peek(self, t: int, s: spec_fn(int, int) -> F, j: int) -> F {
        scalar::total(self.kd, |i: int| (self.q)(t, i).times(s(i, j))).times(self.scale)
    }

    /// The state after the tokens `start .. start + count`, from the state `s` before them.
    pub open spec fn run(
        self,
        s: spec_fn(int, int) -> F,
        start: int,
        count: int,
    ) -> spec_fn(int, int) -> F
        decreases count,
    {
        if count <= 0 {
            s
        } else {
            self.step(start + count - 1, self.run(s, start, count - 1))
        }
    }

    /// The output of token `t`, where the first token meets the state `s`.
    pub open spec fn output(self, s: spec_fn(int, int) -> F, t: int, j: int) -> F {
        self.read(t, self.run(s, 0, t + 1), j)
    }

    /// Whether token `t` of this head is token `u` of the other, in the channels in range.
    pub open spec fn same_token(self, t: int, other: Self, u: int) -> bool {
        &&& self.kd == other.kd
        &&& self.vd == other.vd
        &&& self.scale == other.scale
        &&& forall|i: int|
            #![trigger (self.q)(t, i)]
            #![trigger (self.k)(t, i)]
            #![trigger (self.g)(t, i)]
            #![trigger (self.b)(t, i)]
            0 <= i < self.kd ==> (self.q)(t, i) == (other.q)(u, i) && (self.k)(t, i) == (other.k)(
                u,
                i,
            ) && (self.g)(t, i) == (other.g)(u, i) && (self.b)(t, i) == (other.b)(u, i)
        &&& forall|j: int|
            #![trigger (self.v)(t, j)]
            #![trigger (self.w)(t, j)]
            0 <= j < self.vd ==> (self.v)(t, j) == (other.v)(u, j) && (self.w)(t, j) == (other.w)(
                u,
                j,
            )
    }

    /// The same tokens, counted from `start`.
    pub open spec fn from(self, start: int) -> Self {
        Head {
            kd: self.kd,
            vd: self.vd,
            q: |t: int, i: int| (self.q)(start + t, i),
            k: |t: int, i: int| (self.k)(start + t, i),
            v: |t: int, j: int| (self.v)(start + t, j),
            g: |t: int, i: int| (self.g)(start + t, i),
            b: |t: int, i: int| (self.b)(start + t, i),
            w: |t: int, j: int| (self.w)(start + t, j),
            scale: self.scale,
        }
    }
}

/// Equal tokens take states that are equal in range to states that are equal in range, and read
/// the same out of them.
pub proof fn lemma_step_same<F: Scalar>(
    h1: Head<F>,
    t: int,
    s1: spec_fn(int, int) -> F,
    h2: Head<F>,
    u: int,
    s2: spec_fn(int, int) -> F,
)
    requires
        h1.same_token(t, h2, u),
        forall|i: int, j: int|
            0 <= i < h1.kd && 0 <= j < h1.vd ==> #[trigger] s1(i, j) == s2(i, j),
    ensures
        forall|j: int| 0 <= j < h1.vd ==> #[trigger] h1.fresh(t, s1, j) == h2.fresh(u, s2, j),
        forall|i: int, j: int|
            0 <= i < h1.kd && 0 <= j < h1.vd ==> #[trigger] h1.step(t, s1)(i, j) == h2.step(
                u,
                s2,
            )(i, j),
        forall|j: int| 0 <= j < h1.vd ==> #[trigger] h1.read(t, s1, j) == h2.read(u, s2, j),
{
    assert forall|j: int| 0 <= j < h1.vd implies #[trigger] h1.fresh(t, s1, j) == h2.fresh(
        u,
        s2,
        j,
    ) by {
        let f1 = |i: int| h1.decayed(t, s1, i, j).times((h1.b)(t, i).times((h1.k)(t, i)));
        let f2 = |i: int| h2.decayed(u, s2, i, j).times((h2.b)(u, i).times((h2.k)(u, i)));
        assert forall|i: int| 0 <= i < h1.kd implies #[trigger] f1(i) == f2(i) by {
            assert((h1.k)(t, i) == (h2.k)(u, i));
            assert(s1(i, j) == s2(i, j));
        }
        algebra::lemma_total_eq(h1.kd, f1, f2);
        assert((h1.v)(t, j) == (h2.v)(u, j));
    }
    assert forall|i: int, j: int|
        0 <= i < h1.kd && 0 <= j < h1.vd implies #[trigger] h1.step(t, s1)(i, j) == h2.step(u, s2)(
        i,
        j,
    ) by {
        assert(h1.fresh(t, s1, j) == h2.fresh(u, s2, j));
        assert((h1.k)(t, i) == (h2.k)(u, i));
        assert(s1(i, j) == s2(i, j));
    }
    assert forall|j: int| 0 <= j < h1.vd implies #[trigger] h1.read(t, s1, j) == h2.read(
        u,
        s2,
        j,
    ) by {
        let f1 = |i: int| s1(i, j).times((h1.q)(t, i));
        let f2 = |i: int| s2(i, j).times((h2.q)(u, i));
        assert forall|i: int| 0 <= i < h1.kd implies #[trigger] f1(i) == f2(i) by {
            assert((h1.q)(t, i) == (h2.q)(u, i));
            assert(s1(i, j) == s2(i, j));
        }
        algebra::lemma_total_eq(h1.kd, f1, f2);
    }
}

/// A step depends on the state in range only.
pub proof fn lemma_step_local<F: Scalar>(
    h: Head<F>,
    t: int,
    s1: spec_fn(int, int) -> F,
    s2: spec_fn(int, int) -> F,
)
    requires
        forall|i: int, j: int|
            0 <= i < h.kd && 0 <= j < h.vd ==> #[trigger] s1(i, j) == s2(i, j),
    ensures
        forall|j: int| 0 <= j < h.vd ==> #[trigger] h.fresh(t, s1, j) == h.fresh(t, s2, j),
        forall|i: int, j: int|
            0 <= i < h.kd && 0 <= j < h.vd ==> #[trigger] h.step(t, s1)(i, j) == h.step(t, s2)(
                i,
                j,
            ),
        forall|j: int| 0 <= j < h.vd ==> #[trigger] h.read(t, s1, j) == h.read(t, s2, j),
{
    lemma_step_same(h, t, s1, h, t, s2);
}

/// Two runs of `n` equal tokens, of `h1` from its first and of `h2` from token `start`, whose
/// states agree before them.
pub proof fn lemma_run_same<F: Scalar>(
    h1: Head<F>,
    s1: spec_fn(int, int) -> F,
    h2: Head<F>,
    s2: spec_fn(int, int) -> F,
    start: int,
    n: int,
)
    requires
        0 <= start,
        h1.kd == h2.kd,
        h1.vd == h2.vd,
        forall|t: int| 0 <= t < n ==> #[trigger] h1.same_token(t, h2, start + t),
        forall|i: int, j: int|
            0 <= i < h1.kd && 0 <= j < h1.vd ==> #[trigger] s1(i, j) == h2.run(s2, 0, start)(i, j),
    ensures
        0 <= n ==> forall|i: int, j: int|
            0 <= i < h1.kd && 0 <= j < h1.vd ==> #[trigger] h1.run(s1, 0, n)(i, j) == h2.run(
                s2,
                0,
                start + n,
            )(i, j),
        forall|t: int, j: int|
            0 <= t < n && 0 <= j < h1.vd ==> #[trigger] h1.output(s1, t, j) == h2.output(
                s2,
                start + t,
                j,
            ),
    decreases n,
{
    if n > 0 {
        let t = n - 1;
        let u = start + t;
        lemma_run_same(h1, s1, h2, s2, start, n - 1);
        assert(h1.same_token(t, h2, u));
        lemma_step_same(h1, t, h1.run(s1, 0, t), h2, u, h2.run(s2, 0, u));
        lemma_step_same(h1, t, h1.run(s1, 0, n), h2, u, h2.run(s2, 0, start + n));
        assert forall|x: int, j: int| 0 <= x < n && 0 <= j < h1.vd implies #[trigger] h1.output(
            s1,
            x,
            j,
        ) == h2.output(s2, start + x, j) by {
            if x == t {
                assert(h1.read(t, h1.run(s1, 0, n), j) == h2.read(
                    u,
                    h2.run(s2, 0, start + n),
                    j,
                ));
            }
        }
    }
}

/// A run depends on the initial state in range only.
pub proof fn lemma_run_local<F: Scalar>(
    h: Head<F>,
    s1: spec_fn(int, int) -> F,
    s2: spec_fn(int, int) -> F,
    n: int,
)
    requires
        forall|i: int, j: int|
            0 <= i < h.kd && 0 <= j < h.vd ==> #[trigger] s1(i, j) == s2(i, j),
        0 <= n,
    ensures
        forall|i: int, j: int|
            0 <= i < h.kd && 0 <= j < h.vd ==> #[trigger] h.run(s1, 0, n)(i, j) == h.run(
                s2,
                0,
                n,
            )(i, j),
        forall|t: int, j: int|
            0 <= t < n && 0 <= j < h.vd ==> #[trigger] h.output(s1, t, j) == h.output(s2, t, j),
{
    lemma_run_same(h, s1, h, s2, 0, n);
}

/// Decoding in two parts is decoding at once: the tokens from `m` on, run from the state that the
/// first `m` tokens leave, give the outputs and the state of the whole sequence.
pub proof fn run_splits<F: Scalar>(h: Head<F>, s: spec_fn(int, int) -> F, m: int, n: int)
    requires
        0 <= m,
        0 <= n,
    ensures
        forall|i: int, j: int|
            0 <= i < h.kd && 0 <= j < h.vd ==> #[trigger] h.from(m).run(
                h.run(s, 0, m),
                0,
                n,
            )(i, j) == h.run(s, 0, m + n)(i, j),
        forall|t: int, j: int|
            0 <= t < n && 0 <= j < h.vd ==> #[trigger] h.from(m).output(h.run(s, 0, m), t, j)
                == h.output(s, m + t, j),
{
    lemma_run_same(h.from(m), h.run(s, 0, m), h, s, m, n);
}

/// The identity matrix.
pub open spec fn identity<F: Scalar>(i: int, l: int) -> F {
    if i == l {
        F::unit()
    } else {
        F::nil()
    }
}

impl<F: ExactScalar> Head<F> {
    /// The step in matrix form: `S <- (I - k (b * k)^T) diag(a) S + k (w * v)^T` with the decays
    /// `a = exp(g)`.
    pub proof fn step_matrix_form(self, t: int, s: spec_fn(int, int) -> F, i: int, j: int)
        requires
            0 <= i < self.kd,
        ensures
            self.stepped(t, s, i, j) == scalar::total(
                self.kd,
                |l: int|
                    identity::<F>(i, l).minus(
                        (self.k)(t, i).times((self.b)(t, l).times((self.k)(t, l))),
                    ).times(s(l, j).times((self.g)(t, l).raised())),
            ).plus((self.k)(t, i).times((self.w)(t, j).times((self.v)(t, j)))),
    {
        let ki = (self.k)(t, i);
        let d = |l: int| self.decayed(t, s, l, j);
        let bk = |l: int| (self.b)(t, l).times((self.k)(t, l));
        let all = |l: int|
            identity::<F>(i, l).minus(ki.times((self.b)(t, l).times((self.k)(t, l)))).times(
                s(l, j).times((self.g)(t, l).raised()),
            );
        let one = |l: int| identity::<F>(i, l).times(d(l));
        let rank = |l: int| ki.times(bk(l)).times(d(l));
        let read = |l: int| d(l).times(bk(l));
        let read2 = |l: int|
            self.decayed(t, s, l, j).times((self.b)(t, l).times((self.k)(t, l)));
        assert forall|l: int| 0 <= l < self.kd implies #[trigger] all(l) == one(l).minus(
            rank(l),
        ) by {
            algebra::lemma_minus_times(identity::<F>(i, l), ki.times(bk(l)), d(l));
        }
        algebra::lemma_total_minus(self.kd, one, rank, all);
        assert forall|l: int| 0 <= l < self.kd && l != i implies #[trigger] one(l)
            == F::nil() by {
            algebra::lemma_times_nil(d(l));
        }
        algebra::lemma_total_single(self.kd, i, one);
        algebra::lemma_unit_times(d(i));
        assert forall|l: int| 0 <= l < self.kd implies #[trigger] rank(l) == ki.times(read(l)) by {
            F::times_associates(ki, bk(l), d(l));
            F::times_commutes(bk(l), d(l));
        }
        algebra::lemma_times_total(self.kd, ki, read, rank);
        algebra::lemma_total_eq(self.kd, read, read2);
        let e = self.erased(t, s, j);
        let wv = (self.w)(t, j).times((self.v)(t, j));
        algebra::lemma_minus_times(wv, e, ki);
        // d - x + y = d + (y - x)
        let (x, y) = (ki.times(e), ki.times(wv));
        F::minus_is_plus_negated(d(i), x);
        F::minus_is_plus_negated(y, x);
        algebra::lemma_plus_rotate(d(i), x.negated(), y);
        F::plus_associates(d(i), y, x.negated());
    }

    /// With `b = w = beta` in all channels the step is the delta rule with one gate:
    /// `S <- S' + beta k (v - k^T S')^T`, where `S'` is the decayed state.
    pub proof fn equal_gates_are_delta_rule(
        self,
        t: int,
        s: spec_fn(int, int) -> F,
        beta: F,
        i: int,
        j: int,
    )
        requires
            forall|l: int| 0 <= l < self.kd ==> #[trigger] (self.b)(t, l) == beta,
            (self.w)(t, j) == beta,
        ensures
            self.stepped(t, s, i, j) == self.decayed(t, s, i, j).plus(
                beta.times((self.k)(t, i)).times(
                    (self.v)(t, j).minus(
                        scalar::total(
                            self.kd,
                            |l: int| (self.k)(t, l).times(self.decayed(t, s, l, j)),
                        ),
                    ),
                ),
            ),
    {
        let (ki, v) = ((self.k)(t, i), (self.v)(t, j));
        let plain = |l: int| (self.k)(t, l).times(self.decayed(t, s, l, j));
        let gated = |l: int|
            self.decayed(t, s, l, j).times((self.b)(t, l).times((self.k)(t, l)));
        assert forall|l: int| 0 <= l < self.kd implies #[trigger] gated(l) == beta.times(
            plain(l),
        ) by {
            let (k, d) = ((self.k)(t, l), self.decayed(t, s, l, j));
            assert((self.b)(t, l) == beta);
            F::times_commutes(d, beta.times(k));
            F::times_associates(beta, k, d);
        }
        algebra::lemma_times_total(self.kd, beta, plain, gated);
        let r = scalar::total(self.kd, plain);
        algebra::lemma_minus_times(v, r, beta);
        // k * (beta * x) = (beta * k) * x
        let x = v.minus(r);
        F::times_associates(ki, beta, x);
        F::times_commutes(ki, beta);
    }

    /// With one gate and one decay `a` for all channels the step is the gated delta rule:
    /// `S <- a (S - beta k (k^T S)) + beta k v^T`.
    pub proof fn equal_decays_are_gated_delta_rule(
        self,
        t: int,
        s: spec_fn(int, int) -> F,
        beta: F,
        gamma: F,
        i: int,
        j: int,
    )
        requires
            forall|l: int| 0 <= l < self.kd ==> #[trigger] (self.b)(t, l) == beta,
            (self.w)(t, j) == beta,
            forall|l: int| 0 <= l < self.kd ==> #[trigger] (self.g)(t, l) == gamma,
            0 <= i < self.kd,
        ensures
            self.stepped(t, s, i, j) == s(i, j).minus(
                beta.times((self.k)(t, i)).times(
                    scalar::total(self.kd, |l: int| (self.k)(t, l).times(s(l, j))),
                ),
            ).times(gamma.raised()).plus(beta.times((self.k)(t, i)).times((self.v)(t, j))),
    {
        self.equal_gates_are_delta_rule(t, s, beta, i, j);
        let (a, bk, v) = (gamma.raised(), beta.times((self.k)(t, i)), (self.v)(t, j));
        let decayed = |l: int| (self.k)(t, l).times(self.decayed(t, s, l, j));
        let plain = |l: int| (self.k)(t, l).times(s(l, j));
        assert forall|l: int| 0 <= l < self.kd implies #[trigger] decayed(l) == plain(l).times(
            a,
        ) by {
            assert((self.g)(t, l) == gamma);
            F::times_associates((self.k)(t, l), s(l, j), a);
        }
        algebra::lemma_total_times(self.kd, plain, a, decayed);
        let r = scalar::total(self.kd, plain);
        assert((self.g)(t, i) == gamma);
        // s a + bk (v - r a) = (s a - (bk r) a) + bk v
        algebra::lemma_minus_times(v, r.times(a), bk);
        F::times_associates(bk, r, a);
        algebra::lemma_minus_times(s(i, j), bk.times(r), a);
        let (d, x, y) = (s(i, j).times(a), bk.times(r).times(a), bk.times(v));
        F::minus_is_plus_negated(d, x);
        F::minus_is_plus_negated(y, x);
        algebra::lemma_plus_rotate(d, x.negated(), y);
        F::plus_associates(d, y, x.negated());
    }
}

} // verus!
