//! Why the chunked form computes the recurrence, in exact arithmetic.

use vstd::prelude::*;

use crate::algebra;
use crate::forward;
use crate::grid::Grid;
use crate::kernel::fused_recurrent;
use crate::recurrence;
use crate::recurrence::Head;
use crate::scalar;
use crate::scalar::{ExactScalar, Scalar};
use crate::streams;
use crate::tensor::Tensor4;
use crate::wy;
use crate::wy::{Chunk, Chunking, Pass};

verus! {

impl<F: Scalar> Chunk<F> {
    /// The tokens of the chunk.
    pub open spec fn head(self) -> Head<F> {
        Head {
            kd: self.kd,
            vd: self.vd,
            q: self.q,
            k: self.k,
            v: self.v,
            g: self.g,
            b: self.b,
            w: self.w,
            scale: self.scale,
        }
    }

    /// The chunk has tokens, and the keys of its padding rows are zero.
    pub open spec fn padded(self) -> bool {
        &&& 1 <= self.n <= self.rows
        &&& forall|r: int, i: int|
            self.n <= r < self.rows ==> #[trigger] (self.k)(r, i) == F::nil()
    }

    /// No decay between two tiles is above 1, so none is cut off.
    pub open spec fn tiles_decay(self) -> bool {
        self.n > self.tile ==> forall|r: int, s: int, i: int|
            0 <= s <= r < self.rows && 0 <= i < self.kd ==> #[trigger] self.gap(r, s, i).below(
                F::nil(),
            )
    }

    /// Logarithm of the decay of the first `t` tokens.
    pub open spec fn cum(self, t: int, i: int) -> F {
        scalar::total(t, |x: int| (self.g)(x, i))
    }

    /// The decay from after token `r` through token `t - 1`.
    pub open spec fn span(self, t: int, r: int, i: int) -> F {
        self.cum(t, i).minus(self.cum(r + 1, i)).raised()
    }

    /// The state before token `t`, token by token.
    pub open spec fn before(self, t: int) -> spec_fn(int, int) -> F {
        self.head().run(self.s, 0, t)
    }

    /// The value that token `r` writes, token by token.
    pub open spec fn written(self, r: int, j: int) -> F {
        self.head().fresh(r, self.before(r), j)
    }

    /// What the writes of the tokens before `t` leave in the state, decayed through `u` tokens.
    pub open spec fn deposits(self, u: int, t: int, i: int, j: int) -> F {
        scalar::total(
            t,
            |r: int| (self.k)(r, i).times(self.span(u, r, i)).times(self.written(r, j)),
        )
    }

    /// The key-key score without its mask.
    pub open spec fn kk(self, t: int, r: int) -> F {
        scalar::total(self.kd, |i: int| self.rhs_k(t, i).times(self.kg(r, i)))
    }

    /// The query-key score without its mask.
    pub open spec fn qk(self, t: int, r: int) -> F {
        scalar::total(self.kd, |i: int| self.qg(t, i).times(self.kg(r, i)))
    }

    /// The right-hand side of the solve for the written values.
    pub open spec fn target(self, r: int, j: int) -> F {
        self.rhs_v(r, j).minus(
            scalar::total(self.kd, |i: int| self.rhs_k(r, i).times((self.s)(i, j))),
        )
    }
}

/// `span(u + 1, r) = span(u, r) * exp(g(u))`.
proof fn lemma_span_grows<F: ExactScalar>(ch: Chunk<F>, u: int, r: int, i: int)
    requires
        0 <= u,
    ensures
        ch.span(u + 1, r, i) == ch.span(u, r, i).times((ch.g)(u, i).raised()),
{
    let (a, b, c) = (ch.cum(u, i), ch.cum(r + 1, i), (ch.g)(u, i));
    assert(ch.cum(u + 1, i) == a.plus(c));
    F::minus_is_plus_negated(a.plus(c), b);
    F::minus_is_plus_negated(a, b);
    algebra::lemma_plus_rotate(a, c, b.negated());
    F::raised_plus(a.minus(b), c);
}

/// The decayed state before token `t`, written out.
proof fn lemma_decayed_form<F: ExactScalar>(ch: Chunk<F>, t: int, i: int, j: int)
    requires
        0 <= t,
        ch.before(t)(i, j) == (ch.s)(i, j).times(ch.cum(t, i).raised()).plus(
            ch.deposits(t, t, i, j),
        ),
    ensures
        ch.head().decayed(t, ch.before(t), i, j) == (ch.s)(i, j).times(
            ch.cum(t + 1, i).raised(),
        ).plus(ch.deposits(t + 1, t, i, j)),
{
    let a = (ch.g)(t, i).raised();
    let s = (ch.s)(i, j);
    let p = ch.cum(t, i).raised();
    algebra::lemma_plus_times(s.times(p), ch.deposits(t, t, i, j), a);
    F::times_associates(s, p, a);
    assert(ch.cum(t + 1, i) == ch.cum(t, i).plus((ch.g)(t, i)));
    F::raised_plus(ch.cum(t, i), (ch.g)(t, i));
    let f = |r: int| (ch.k)(r, i).times(ch.span(t, r, i)).times(ch.written(r, j));
    let h = |r: int| (ch.k)(r, i).times(ch.span(t + 1, r, i)).times(ch.written(r, j));
    assert forall|r: int| 0 <= r < t implies #[trigger] h(r) == f(r).times(a) by {
        let (k, x, y) = ((ch.k)(r, i), ch.span(t, r, i), ch.written(r, j));
        lemma_span_grows(ch, t, r, i);
        F::times_associates(k, x, a);
        algebra::lemma_times_rotate(k.times(x), y, a);
    }
    algebra::lemma_total_times(t, f, a, h);
}

/// The state before token `t` is the decayed initial state and the decayed writes.
pub proof fn lemma_state_form<F: ExactScalar>(ch: Chunk<F>, t: int, i: int, j: int)
    requires
        0 <= t,
    ensures
        ch.before(t)(i, j) == (ch.s)(i, j).times(ch.cum(t, i).raised()).plus(
            ch.deposits(t, t, i, j),
        ),
    decreases t,
{
    let s = (ch.s)(i, j);
    if t == 0 {
        F::raised_nil();
        F::times_unit(s);
        F::plus_nil(s);
    } else {
        lemma_state_form(ch, t - 1, i, j);
        lemma_decayed_form(ch, t - 1, i, j);
        let f = |r: int| (ch.k)(r, i).times(ch.span(t, r, i)).times(ch.written(r, j));
        let last = (ch.k)(t - 1, i).times(ch.written(t - 1, j));
        assert(ch.before(t)(i, j) == ch.head().decayed(t - 1, ch.before(t - 1), i, j).plus(last));
        assert(f(t - 1) == last) by {
            algebra::lemma_minus_self(ch.cum(t, i));
            F::raised_nil();
            F::times_unit((ch.k)(t - 1, i));
        }
        assert(scalar::total(t, f) == scalar::total(t - 1, f).plus(f(t - 1)));
        assert(ch.deposits(t, t - 1, i, j) == scalar::total(t - 1, f));
        F::plus_associates(s.times(ch.cum(t, i).raised()), scalar::total(t - 1, f), last);
    }
}

/// `(k * exp(G_t - G_r)) * y * x = ((x * exp(G_t)) * (k / exp(G_r))) * y`.
proof fn lemma_score_term<F: ExactScalar>(x: F, k: F, gt: F, gr: F, y: F)
    ensures
        k.times(gt.minus(gr).raised()).times(y).times(x) == x.times(gt.raised()).times(
            k.over(gr.raised()),
        ).times(y),
{
    let e = gt.raised();
    let d = gr.negated().raised();
    algebra::lemma_raised_minus(gt, gr);
    F::over_raised(k, gr);
    // k * (e * d) * y * x = (x * e) * (k * d) * y
    algebra::lemma_times_rotate(k.times(e.times(d)), y, x);
    assert(k.times(e.times(d)).times(x) == x.times(e).times(k.times(d))) by {
        F::times_commutes(k.times(e.times(d)), x);
        F::times_associates(x, e, k.times(d));
        F::times_associates(e, k, d);
        F::times_commutes(e, k);
        F::times_associates(k, e, d);
    }
}

/// A sum over the channels of the decayed state, weighted by `x`.
proof fn lemma_weighted_state<F: ExactScalar>(
    ch: Chunk<F>,
    t: int,
    u: int,
    j: int,
    x: spec_fn(int) -> F,
    state: spec_fn(int) -> F,
)
    requires
        0 <= u <= t + 1,
        forall|i: int|
            0 <= i < ch.kd ==> #[trigger] state(i) == (ch.s)(i, j).times(
                ch.cum(t + 1, i).raised(),
            ).plus(ch.deposits(t + 1, u, i, j)),
    ensures
        scalar::total(ch.kd, |i: int| state(i).times(x(i))) == scalar::total(
            ch.kd,
            |i: int| x(i).times(ch.e(t, i)).times((ch.s)(i, j)),
        ).plus(
            scalar::total(
                u,
                |r: int|
                    scalar::total(
                        ch.kd,
                        |i: int| x(i).times(ch.e(t, i)).times(ch.kg(r, i)),
                    ).times(ch.written(r, j)),
            ),
        ),
{
    let whole = |i: int| state(i).times(x(i));
    let first = |i: int| x(i).times(ch.e(t, i)).times((ch.s)(i, j));
    let cell = |i: int, r: int|
        x(i).times(ch.e(t, i)).times(ch.kg(r, i)).times(ch.written(r, j));
    let second = |i: int| scalar::total(u, |r: int| cell(i, r));
    assert forall|i: int| 0 <= i < ch.kd implies #[trigger] whole(i) == first(i).plus(
        second(i),
    ) by {
        let s = (ch.s)(i, j);
        let e = ch.e(t, i);
        algebra::lemma_plus_times(s.times(e), ch.deposits(t + 1, u, i, j), x(i));
        assert(s.times(e).times(x(i)) == first(i)) by {
            F::times_associates(s, e, x(i));
            F::times_commutes(e, x(i));
            F::times_commutes(s, x(i).times(e));
        }
        let f = |r: int| (ch.k)(r, i).times(ch.span(t + 1, r, i)).times(ch.written(r, j));
        let h = |r: int| cell(i, r);
        assert forall|r: int| 0 <= r < u implies #[trigger] h(r) == f(r).times(x(i)) by {
            lemma_score_term(
                x(i),
                (ch.k)(r, i),
                ch.cum(t + 1, i),
                ch.cum(r + 1, i),
                ch.written(r, j),
            );
        }
        algebra::lemma_total_times(u, f, x(i), h);
    }
    algebra::lemma_total_plus(ch.kd, first, second, whole);
    algebra::lemma_total_exchange(ch.kd, u, cell);
    let cols = |r: int| scalar::total(ch.kd, |i: int| cell(i, r));
    let score = |r: int|
        scalar::total(ch.kd, |i: int| x(i).times(ch.e(t, i)).times(ch.kg(r, i))).times(
            ch.written(r, j),
        );
    assert forall|r: int| 0 <= r < u implies #[trigger] cols(r) == score(r) by {
        let f = |i: int| x(i).times(ch.e(t, i)).times(ch.kg(r, i));
        let h = |i: int| cell(i, r);
        algebra::lemma_total_times(ch.kd, f, ch.written(r, j), h);
    }
    algebra::lemma_total_eq(u, cols, score);
}

/// The written values solve the triangular system row by row.
pub proof fn lemma_written_solves<F: ExactScalar>(ch: Chunk<F>, t: int, j: int)
    requires
        0 <= t,
    ensures
        ch.written(t, j) == ch.target(t, j).minus(
            scalar::total(t, |r: int| ch.kk(t, r).times(ch.written(r, j))),
        ),
{
    let x = |i: int| ch.bk(t, i);
    let state = |i: int| ch.head().decayed(t, ch.before(t), i, j);
    assert forall|i: int| 0 <= i < ch.kd implies #[trigger] state(i) == (ch.s)(i, j).times(
        ch.cum(t + 1, i).raised(),
    ).plus(ch.deposits(t + 1, t, i, j)) by {
        lemma_state_form(ch, t, i, j);
        lemma_decayed_form(ch, t, i, j);
    }
    lemma_weighted_state(ch, t, t, j, x, state);
    let whole = |i: int| state(i).times(x(i));
    let term = |i: int|
        ch.head().decayed(t, ch.before(t), i, j).times((ch.b)(t, i).times((ch.k)(t, i)));
    algebra::lemma_total_eq(ch.kd, term, whole);
    let a = |i: int| x(i).times(ch.e(t, i)).times((ch.s)(i, j));
    let a2 = |i: int| ch.rhs_k(t, i).times((ch.s)(i, j));
    algebra::lemma_total_eq(ch.kd, a, a2);
    let c = |r: int|
        scalar::total(ch.kd, |i: int| x(i).times(ch.e(t, i)).times(ch.kg(r, i))).times(
            ch.written(r, j),
        );
    let c2 = |r: int| ch.kk(t, r).times(ch.written(r, j));
    assert forall|r: int| 0 <= r < t implies #[trigger] c(r) == c2(r) by {
        let f = |i: int| x(i).times(ch.e(t, i)).times(ch.kg(r, i));
        let f2 = |i: int| ch.rhs_k(t, i).times(ch.kg(r, i));
        algebra::lemma_total_eq(ch.kd, f, f2);
    }
    algebra::lemma_total_eq(t, c, c2);
    assert(ch.head().erased(t, ch.before(t), j) == scalar::total(ch.kd, term));
    algebra::lemma_minus_minus(
        ch.rhs_v(t, j),
        scalar::total(ch.kd, a2),
        scalar::total(t, c2),
    );
}

/// The output of token `t`, written out.
pub proof fn lemma_output_form<F: ExactScalar>(ch: Chunk<F>, t: int, j: int)
    requires
        0 <= t,
    ensures
        ch.head().output(ch.s, t, j) == scalar::total(
            ch.kd,
            |i: int| ch.qg(t, i).times((ch.s)(i, j)),
        ).plus(
            scalar::total(t + 1, |r: int| ch.qk(t, r).times(ch.written(r, j))),
        ).times(ch.scale),
{
    let x = |i: int| (ch.q)(t, i);
    let state = |i: int| ch.before(t + 1)(i, j);
    assert forall|i: int| 0 <= i < ch.kd implies #[trigger] state(i) == (ch.s)(i, j).times(
        ch.cum(t + 1, i).raised(),
    ).plus(ch.deposits(t + 1, t + 1, i, j)) by {
        lemma_state_form(ch, t + 1, i, j);
    }
    lemma_weighted_state(ch, t, t + 1, j, x, state);
    let seen = |i: int| state(i).times(x(i));
    let seen2 = |i: int| ch.before(t + 1)(i, j).times((ch.q)(t, i));
    algebra::lemma_total_eq(ch.kd, seen2, seen);
    let from_s = |i: int| x(i).times(ch.e(t, i)).times((ch.s)(i, j));
    let from_s2 = |i: int| ch.qg(t, i).times((ch.s)(i, j));
    algebra::lemma_total_eq(ch.kd, from_s, from_s2);
    let from_v = |r: int|
        scalar::total(ch.kd, |i: int| x(i).times(ch.e(t, i)).times(ch.kg(r, i))).times(
            ch.written(r, j),
        );
    let from_v2 = |r: int| ch.qk(t, r).times(ch.written(r, j));
    assert forall|r: int| 0 <= r < t + 1 implies #[trigger] from_v(r) == from_v2(r) by {
        let f = |i: int| x(i).times(ch.e(t, i)).times(ch.kg(r, i));
        let f2 = |i: int| ch.qg(t, i).times(ch.kg(r, i));
        algebra::lemma_total_eq(ch.kd, f, f2);
    }
    algebra::lemma_total_eq(t + 1, from_v, from_v2);
}

/// Dividing the decay out tile by tile is dividing it out at once.
proof fn lemma_tile_term<F: ExactScalar>(ch: Chunk<F>, x: F, r: int, s: int, i: int)
    requires
        ch.gap(r, s, i).below(F::nil()),
    ensures
        x.times(ch.rel(r, i)).times((ch.k)(s, i).over(ch.rel(s, i))).times(ch.hop(r, s, i))
            == x.times(ch.e(r, i)).times(ch.kg(s, i)),
{
    let k = (ch.k)(s, i);
    let (gr, gs) = (ch.g_cum(r, i), ch.g_cum(s, i));
    let (p, q) = (ch.bound(r / ch.tile, i), ch.bound(s / ch.tile, i));
    let (er, es) = (gr.raised(), gs.negated().raised());
    let (ep, ep_inv) = (p.raised(), p.negated().raised());
    let (eq, eq_inv) = (q.raised(), q.negated().raised());
    algebra::lemma_raised_minus(gr, p);
    algebra::lemma_raised_minus(p, q);
    F::over_raised(k, gs.minus(q));
    assert(gs.minus(q).negated().raised() == es.times(eq)) by {
        F::minus_is_plus_negated(gs, q);
        algebra::lemma_negated_plus(gs, q.negated());
        algebra::lemma_negated_twice(q);
        F::raised_plus(gs.negated(), q);
    }
    F::over_raised(k, gs);
    // x * (er * ep_inv) * (k * (es * eq)) * (ep * eq_inv) = x * er * (k * es)
    let a = x.times(er);
    let b = k.times(es);
    F::times_associates(x, er, ep_inv);
    F::times_associates(k, es, eq);
    assert(a.times(ep_inv).times(b.times(eq)) == a.times(b).times(ep_inv.times(eq))) by {
        algebra::lemma_times_swap(a, ep_inv, b, eq);
    }
    F::times_associates(a.times(b), ep_inv.times(eq), ep.times(eq_inv));
    assert(ep_inv.times(eq).times(ep.times(eq_inv)) == F::unit()) by {
        algebra::lemma_times_swap(ep_inv, eq, ep, eq_inv);
        F::times_commutes(ep_inv, ep);
        algebra::lemma_raised_inverse(p);
        algebra::lemma_raised_inverse(q);
        F::times_unit(F::unit());
    }
    F::times_unit(a.times(b));
}

/// Scores at or below the diagonal, without their masks.
pub proof fn lemma_scores<F: ExactScalar>(ch: Chunk<F>, r: int, s: int)
    requires
        ch.tiles_decay(),
        0 <= s <= r < ch.rows,
    ensures
        s < r ==> ch.akk(r, s) == ch.kk(r, s),
        ch.aqk(r, s) == ch.qk(r, s).times(ch.scale),
{
    algebra::lemma_unit_times(ch.scale);
    F::times_unit(ch.kk(r, s));
    if ch.n > ch.tile {
        let f = |i: int|
            (ch.q)(r, i).times(ch.rel(r, i)).times((ch.k)(s, i).over(ch.rel(s, i))).times(
                ch.hop(r, s, i),
            );
        let f2 = |i: int| ch.qg(r, i).times(ch.kg(s, i));
        assert forall|i: int| 0 <= i < ch.kd implies #[trigger] f(i) == f2(i) by {
            assert(ch.gap(r, s, i).below(F::nil()));
            lemma_tile_term(ch, (ch.q)(r, i), r, s, i);
        }
        algebra::lemma_total_eq(ch.kd, f, f2);
        let h = |i: int|
            ch.bk(r, i).times(ch.rel(r, i)).times((ch.k)(s, i).over(ch.rel(s, i))).times(
                ch.hop(r, s, i),
            );
        let h2 = |i: int| ch.rhs_k(r, i).times(ch.kg(s, i));
        assert forall|i: int| 0 <= i < ch.kd implies #[trigger] h(i) == h2(i) by {
            assert(ch.gap(r, s, i).below(F::nil()));
            lemma_tile_term(ch, ch.bk(r, i), r, s, i);
        }
        algebra::lemma_total_eq(ch.kd, h, h2);
    }
}

/// Scores above the diagonal are zero.
pub proof fn lemma_scores_above<F: ExactScalar>(ch: Chunk<F>, r: int, s: int)
    requires
        r < s,
    ensures
        ch.aqk(r, s) == F::nil(),
{
    algebra::lemma_times_nil(ch.scale);
    let f = |i: int|
        (ch.q)(r, i).times(ch.rel(r, i)).times((ch.k)(s, i).over(ch.rel(s, i))).times(
            ch.hop(r, s, i),
        );
    algebra::lemma_times_nil(scalar::total(ch.kd, f));
    algebra::lemma_times_nil(ch.qk(r, s));
}

/// The terms of forward substitution add up to a row of `a` times a column of the inverse.
pub proof fn lemma_substituted<F: Scalar>(a: spec_fn(int, int) -> F, r: int, s: int, n: int)
    requires
        n <= r,
    ensures
        Chunk::substituted(a, r, s, n) == scalar::total(
            n,
            |l: int| a(r, l).times(Chunk::inverse(a, l, s)),
        ),
    decreases n,
{
    if n > 0 {
        lemma_substituted(a, r, s, n - 1);
    }
}

/// Forward substitution: applied to `y`, the inverse of `I + a` solves `x + a x = y`.
pub proof fn lemma_inverse_solves<F: ExactScalar>(
    a: spec_fn(int, int) -> F,
    y: spec_fn(int) -> F,
    rows: int,
    r: int,
)
    requires
        0 <= r < rows,
    ensures
        scalar::total(rows, |l: int| Chunk::inverse(a, r, l).times(y(l))) == y(r).minus(
            scalar::total(
                r,
                |x: int|
                    a(r, x).times(
                        scalar::total(rows, |l: int| Chunk::inverse(a, x, l).times(y(l))),
                    ),
            ),
        ),
{
    let m = |x: int, l: int| Chunk::inverse(a, x, l);
    let solved = |x: int| scalar::total(rows, |l: int| m(x, l).times(y(l)));
    let row = |l: int| m(r, l).times(y(l));
    // Only the columns up to the diagonal count.
    assert forall|l: int| r + 1 <= l < rows implies #[trigger] row(l) == F::nil() by {
        algebra::lemma_times_nil(y(l));
    }
    algebra::lemma_total_cut(rows, r + 1, row);
    algebra::lemma_unit_times(y(r));
    // Below it, each entry is a sum over the rows above.
    let cell = |l: int, x: int| a(r, x).times(m(x, l)).times(y(l));
    let part = |l: int| scalar::total(r, |x: int| cell(l, x));
    assert forall|l: int| 0 <= l < r implies #[trigger] row(l) == part(l).negated() by {
        let f2 = |x: int| a(r, x).times(m(x, l));
        lemma_substituted(a, r, l, r);
        let f = |x: int| a(r, x).times(Chunk::inverse(a, x, l));
        algebra::lemma_total_eq(r, f, f2);
        let h = |x: int| cell(l, x);
        algebra::lemma_total_times(r, f2, y(l), h);
        algebra::lemma_negated_times(scalar::total(r, f2), y(l));
    }
    algebra::lemma_total_negated(r, part, row);
    algebra::lemma_total_exchange(r, r, cell);
    let col = |x: int| scalar::total(r, |l: int| cell(l, x));
    let col2 = |x: int| a(r, x).times(solved(x));
    assert forall|x: int| 0 <= x < r implies #[trigger] col(x) == col2(x) by {
        let f = |l: int| m(x, l).times(y(l));
        let h = |l: int| cell(l, x);
        assert forall|l: int| 0 <= l < r implies #[trigger] h(l) == a(r, x).times(f(l)) by {
            F::times_associates(a(r, x), m(x, l), y(l));
        }
        algebra::lemma_times_total(r, a(r, x), f, h);
        assert forall|l: int| r <= l < rows implies #[trigger] f(l) == F::nil() by {
            algebra::lemma_times_nil(y(l));
        }
        algebra::lemma_total_cut(rows, r, f);
    }
    algebra::lemma_total_eq(r, col, col2);
    let lower = scalar::total(r, col2);
    F::plus_commutes(lower.negated(), y(r));
    F::minus_is_plus_negated(y(r), lower);
    let shown = |x: int|
        a(r, x).times(scalar::total(rows, |l: int| Chunk::inverse(a, x, l).times(y(l))));
    assert forall|x: int| 0 <= x < r implies #[trigger] shown(x) == col2(x) by {
        let f = |l: int| m(x, l).times(y(l));
        let f2 = |l: int| Chunk::inverse(a, x, l).times(y(l));
        algebra::lemma_total_eq(rows, f2, f);
    }
    algebra::lemma_total_eq(r, shown, col2);
    let row2 = |l: int| Chunk::inverse(a, r, l).times(y(l));
    algebra::lemma_total_eq(rows, row2, row);
}

/// The written values of the chunked form are the inverse applied to the target.
pub proof fn lemma_v_new_form<F: ExactScalar>(
    ch: Chunk<F>,
    m: spec_fn(int, int) -> F,
    r: int,
    j: int,
)
    ensures
        ch.v_new(m, r, j) == scalar::total(ch.rows, |l: int| m(r, l).times(ch.target(l, j))),
{
    // (m * rhs_k) * s = m * (rhs_k * s)
    let cell = |i: int, l: int| m(r, l).times(ch.rhs_k(l, i)).times((ch.s)(i, j));
    let ws = |i: int| ch.w_wy(m, r, i).times((ch.s)(i, j));
    let ws2 = |i: int| scalar::total(ch.rows, |l: int| cell(i, l));
    assert forall|i: int| 0 <= i < ch.kd implies #[trigger] ws(i) == ws2(i) by {
        let f = |l: int| m(r, l).times(ch.rhs_k(l, i));
        let h = |l: int| cell(i, l);
        algebra::lemma_total_times(ch.rows, f, (ch.s)(i, j), h);
    }
    algebra::lemma_total_eq(ch.kd, ws, ws2);
    algebra::lemma_total_exchange(ch.kd, ch.rows, cell);
    let col = |l: int| scalar::total(ch.kd, |i: int| cell(i, l));
    let ks = |l: int|
        m(r, l).times(scalar::total(ch.kd, |i: int| ch.rhs_k(l, i).times((ch.s)(i, j))));
    assert forall|l: int| 0 <= l < ch.rows implies #[trigger] col(l) == ks(l) by {
        let f = |i: int| ch.rhs_k(l, i).times((ch.s)(i, j));
        let h = |i: int| cell(i, l);
        assert forall|i: int| 0 <= i < ch.kd implies #[trigger] h(i) == m(r, l).times(f(i)) by {
            F::times_associates(m(r, l), ch.rhs_k(l, i), (ch.s)(i, j));
        }
        algebra::lemma_times_total(ch.kd, m(r, l), f, h);
    }
    algebra::lemma_total_eq(ch.rows, col, ks);
    let u = |l: int| m(r, l).times(ch.rhs_v(l, j));
    let h = |l: int| m(r, l).times(ch.target(l, j));
    assert forall|l: int| 0 <= l < ch.rows implies #[trigger] h(l) == u(l).minus(ks(l)) by {
        algebra::lemma_minus_times(
            ch.rhs_v(l, j),
            scalar::total(ch.kd, |i: int| ch.rhs_k(l, i).times((ch.s)(i, j))),
            m(r, l),
        );
    }
    algebra::lemma_total_minus(ch.rows, u, ks, h);
}

/// Whatever inverts `I + kk` and is applied to the target gives what the recurrence writes.
pub proof fn lemma_solution_is_written<F: ExactScalar>(ch: Chunk<F>, a: Grid<F>, r: int, j: int)
    requires
        forall|x: int, y: int| 0 <= y < x < ch.rows ==> #[trigger] a(x, y) == ch.kk(x, y),
        0 <= r < ch.rows,
    ensures
        scalar::total(
            ch.rows,
            |l: int| Chunk::inverse(a, r, l).times(ch.target(l, j)),
        ) == ch.written(r, j),
    decreases r,
{
    let y = |l: int| ch.target(l, j);
    lemma_inverse_solves(a, y, ch.rows, r);
    let mine = |x: int|
        a(r, x).times(scalar::total(ch.rows, |l: int| Chunk::inverse(a, x, l).times(y(l))));
    let theirs = |x: int| ch.kk(r, x).times(ch.written(x, j));
    assert forall|x: int| 0 <= x < r implies #[trigger] mine(x) == theirs(x) by {
        lemma_solution_is_written(ch, a, x, j);
        let f = |l: int| Chunk::inverse(a, x, l).times(ch.target(l, j));
        let f2 = |l: int| Chunk::inverse(a, x, l).times(y(l));
        algebra::lemma_total_eq(ch.rows, f, f2);
    }
    algebra::lemma_total_eq(r, mine, theirs);
    let f = |l: int| Chunk::inverse(a, r, l).times(ch.target(l, j));
    let f2 = |l: int| Chunk::inverse(a, r, l).times(y(l));
    algebra::lemma_total_eq(ch.rows, f, f2);
    lemma_written_solves(ch, r, j);
}

/// The chunked form writes what the recurrence writes.
pub proof fn lemma_writes_agree<F: ExactScalar>(ch: Chunk<F>, r: int, j: int)
    requires
        ch.tiles_decay(),
        0 <= r < ch.rows,
    ensures
        ch.v_new(ch.solver(), r, j) == ch.written(r, j),
{
    let m = ch.solver();
    let a = |x: int, y: int| ch.akk(x, y);
    assert forall|x: int, y: int| 0 <= y < x < ch.rows implies #[trigger] a(x, y) == ch.kk(
        x,
        y,
    ) by {
        lemma_scores(ch, x, y);
    }
    lemma_solution_is_written(ch, a, r, j);
    lemma_v_new_form(ch, m, r, j);
    let f = |l: int| m(r, l).times(ch.target(l, j));
    let f2 = |l: int| Chunk::inverse(a, r, l).times(ch.target(l, j));
    algebra::lemma_total_eq(ch.rows, f, f2);
}

/// The outputs of the chunked form are those of the recurrence.
proof fn lemma_outputs_agree<F: ExactScalar>(ch: Chunk<F>, t: int, j: int)
    requires
        ch.tiles_decay(),
        0 <= t < ch.rows,
    ensures
        ch.out(ch.solver(), t, j) == ch.head().output(ch.s, t, j),
{
    let m = ch.solver();
    lemma_output_form(ch, t, j);
    let from_s = |i: int| ch.qg(t, i).times((ch.s)(i, j));
    let from_v = |r: int| ch.qk(t, r).times(ch.written(r, j));
    let intra = |l: int| ch.aqk(t, l).times(ch.v_new(m, l, j));
    assert forall|l: int| 0 <= l < t + 1 implies #[trigger] intra(l) == from_v(l).times(
        ch.scale,
    ) by {
        lemma_scores(ch, t, l);
        lemma_writes_agree(ch, l, j);
        algebra::lemma_times_rotate(ch.qk(t, l), ch.scale, ch.written(l, j));
    }
    assert forall|l: int| t + 1 <= l < ch.rows implies #[trigger] intra(l) == F::nil() by {
        lemma_scores_above(ch, t, l);
        algebra::lemma_times_nil(ch.v_new(m, l, j));
    }
    algebra::lemma_total_cut(ch.rows, t + 1, intra);
    algebra::lemma_total_times(t + 1, from_v, ch.scale, intra);
    let (a, c) = (scalar::total(ch.kd, from_s), scalar::total(t + 1, from_v));
    algebra::lemma_plus_times(a, c, ch.scale);
    F::plus_commutes(a.times(ch.scale), c.times(ch.scale));
}

/// The state after the chunked form is that after the recurrence.
pub proof fn lemma_states_agree<F: ExactScalar>(ch: Chunk<F>, i: int, j: int)
    requires
        ch.padded(),
        ch.tiles_decay(),
    ensures
        ch.next(ch.solver(), i, j) == ch.head().run(ch.s, 0, ch.n)(i, j),
{
    let m = ch.solver();
    lemma_state_form(ch, ch.n, i, j);
    let theirs = |r: int|
        (ch.k)(r, i).times(ch.span(ch.n, r, i)).times(ch.written(r, j));
    let mine = |r: int|
        (ch.k)(r, i).times(ch.decay_last(r, i)).times(ch.v_new(m, r, j));
    assert forall|r: int| ch.n <= r < ch.rows implies #[trigger] mine(r) == F::nil() by {
        assert((ch.k)(r, i) == F::nil());
        algebra::lemma_times_nil(ch.decay_last(r, i));
        algebra::lemma_times_nil(ch.v_new(m, r, j));
    }
    algebra::lemma_total_cut(ch.rows, ch.n, mine);
    assert forall|r: int| 0 <= r < ch.n implies #[trigger] mine(r) == theirs(r) by {
        lemma_writes_agree(ch, r, j);
    }
    algebra::lemma_total_eq(ch.n, mine, theirs);
}

/// In exact arithmetic a chunk computes what its tokens compute one by one: the outputs, and the
/// state that they leave.
pub proof fn chunk_is_recurrence<F: ExactScalar>(ch: Chunk<F>)
    requires
        ch.padded(),
        ch.tiles_decay(),
    ensures
        forall|t: int, j: int|
            0 <= t < ch.n && 0 <= j < ch.vd ==> #[trigger] ch.out(
                ch.solver(),
                t,
                j,
            ) == ch.head().output(ch.s, t, j),
        forall|i: int, j: int|
            0 <= i < ch.kd && 0 <= j < ch.vd ==> #[trigger] ch.next(
                ch.solver(),
                i,
                j,
            ) == ch.head().run(ch.s, 0, ch.n)(i, j),
{
    assert forall|t: int, j: int| 0 <= t < ch.n && 0 <= j < ch.vd implies #[trigger] ch.out(
        ch.solver(),
        t,
        j,
    ) == ch.head().output(ch.s, t, j) by {
        lemma_outputs_agree(ch, t, j);
    }
    assert forall|i: int, j: int| 0 <= i < ch.kd && 0 <= j < ch.vd implies #[trigger] ch.next(
        ch.solver(),
        i,
        j,
    ) == ch.head().run(ch.s, 0, ch.n)(i, j) by {
        lemma_states_agree(ch, i, j);
    }
}

impl<F: Scalar> Chunking<F> {
    /// In each chunk, no decay between two tiles is above 1.
    pub open spec fn tiles_decay(self) -> bool {
        forall|c: int| 0 <= c < self.count() ==> (#[trigger] self.chunk(c)).tiles_decay()
    }
}

/// Where chunk `c` starts, how many tokens it has, and what comes after it.
pub proof fn lemma_chunk_bounds<F: Scalar>(ck: Chunking<F>, c: int)
    requires
        ck.size > 0,
        0 <= c < ck.count(),
    ensures
        0 <= c * ck.size,
        1 <= ck.len(c) <= ck.size,
        c * ck.size + ck.len(c) <= ck.tokens,
        c + 1 < ck.count() ==> c * ck.size + ck.len(c) == (c + 1) * ck.size,
        c + 1 == ck.count() ==> c * ck.size + ck.len(c) == ck.tokens,
        ck.tile > 0 ==> ck.len(c) <= wy::padded_rows(ck.tile, ck.len(c)),
{
    let (size, tokens, count) = (ck.size, ck.tokens, ck.count());
    assert((c + 1) * size == c * size + size) by (nonlinear_arith);
    assert(0 <= c * size < tokens) by (nonlinear_arith)
        requires
            size > 0,
            0 <= c < count,
            count == (tokens + size - 1) / size,
    ;
    if c + 1 < count {
        assert((c + 1) * size < tokens) by (nonlinear_arith)
            requires
                size > 0,
                0 <= c,
                c + 1 < count,
                count == (tokens + size - 1) / size,
        ;
    } else {
        assert(tokens <= (c + 1) * size) by (nonlinear_arith)
            requires
                size > 0,
                c + 1 == count,
                count == (tokens + size - 1) / size,
        ;
    }
    let (tile, len) = (ck.tile, ck.len(c));
    if 0 < tile < len {
        assert(len <= (len + tile - 1) / tile * tile) by (nonlinear_arith)
            requires
                tile > 0,
        ;
    }
}

/// The token where chunk `c` starts, or the end of the tokens.
pub open spec fn chunk_start<F: Scalar>(ck: Chunking<F>, c: int) -> int {
    if c < ck.count() {
        c * ck.size
    } else {
        ck.tokens
    }
}

/// The state before chunk `c` is that of the recurrence after the tokens before it, and the
/// outputs of those tokens are those of the recurrence.
pub proof fn lemma_chunks_agree<F: ExactScalar>(ck: Chunking<F>, c: int)
    requires
        ck.size > 0,
        ck.tile > 0,
        ck.tokens >= 0,
        ck.saved is None,
        ck.tiles_decay(),
        0 <= c <= ck.count(),
    ensures
        forall|i: int, j: int|
            0 <= i < ck.head.kd && 0 <= j < ck.head.vd ==> #[trigger] ck.state(c)(i, j)
                == ck.head.run(ck.s, 0, chunk_start(ck, c))(i, j),
        forall|t: int, j: int|
            0 <= t < chunk_start(ck, c) && 0 <= j < ck.head.vd ==> #[trigger] ck.output(t, j)
                == ck.head.output(ck.s, t, j),
    decreases c,
{
    let h = ck.head;
    if c == 0 {
        if ck.count() == 0 {
            let (size, tokens) = (ck.size, ck.tokens);
            assert(tokens == 0) by (nonlinear_arith)
                requires
                    size > 0,
                    tokens >= 0,
                    (tokens + size - 1) / size == 0,
            ;
        }
    } else {
        lemma_chunks_agree(ck, c - 1);
        lemma_chunk_bounds(ck, c - 1);
        let ch = ck.chunk(c - 1);
        let start = (c - 1) * ck.size;
        let n = ch.n;
        assert(ch.padded());
        assert(ck.chunk(c - 1).tiles_decay());
        chunk_is_recurrence(ch);
        assert forall|t: int| 0 <= t < n implies #[trigger] ch.head().same_token(
            t,
            h,
            start + t,
        ) by {}
        recurrence::lemma_run_same(ch.head(), ch.s, h, ck.s, start, n);
        assert(chunk_start(ck, c) == start + n);
        assert forall|i: int, j: int| 0 <= i < h.kd && 0 <= j < h.vd implies #[trigger] ck.state(
            c,
        )(i, j) == h.run(ck.s, 0, start + n)(i, j) by {
            assert(ch.next(ch.solver(), i, j) == ch.head().run(ch.s, 0, n)(i, j));
        }
        assert forall|t: int, j: int|
            0 <= t < start + n && 0 <= j < h.vd implies #[trigger] ck.output(t, j) == h.output(
            ck.s,
            t,
            j,
        ) by {
            if t >= start {
                let size = ck.size;
                assert(t / size == c - 1 && t % size == t - start) by (nonlinear_arith)
                    requires
                        size > 0,
                        start == (c - 1) * size,
                        start <= t < start + size,
                ;
                assert(ch.out(ch.solver(), t - start, j) == ch.head().output(ch.s, t - start, j));
                assert(ch.head().output(ch.s, t - start, j) == h.output(
                    ck.s,
                    start + (t - start),
                    j,
                ));
            }
        }
    }
}

/// For every chunk size the chunks of a head compute, in exact arithmetic, the outputs of its
/// recurrence and the state that it leaves.
pub proof fn chunks_are_recurrence<F: ExactScalar>(ck: Chunking<F>)
    requires
        ck.size > 0,
        ck.tile > 0,
        ck.tokens >= 0,
        ck.saved is None,
        ck.tiles_decay(),
    ensures
        forall|t: int, j: int|
            0 <= t < ck.tokens && 0 <= j < ck.head.vd ==> #[trigger] ck.output(t, j)
                == ck.head.output(ck.s, t, j),
        forall|i: int, j: int|
            0 <= i < ck.head.kd && 0 <= j < ck.head.vd ==> #[trigger] ck.state(ck.count())(i, j)
                == ck.head.run(ck.s, 0, ck.tokens)(i, j),
{
    let (size, tokens) = (ck.size, ck.tokens);
    assert(0 <= (tokens + size - 1) / size) by (nonlinear_arith)
        requires
            size > 0,
            tokens >= 0,
    ;
    lemma_chunks_agree(ck, ck.count());
}

/// The chunked forward pass and the token-by-token pass return the same outputs and states in
/// exact arithmetic, for every chunk size.
pub proof fn chunked_pass_is_recurrence<F: ExactScalar>(
    p: Pass<F>,
    out: Tensor4<F>,
    next: Tensor4<F>,
)
    requires
        p.wf(),
        p.saved is None,
        forall|a: int, h: int|
            0 <= a < p.x.batch() && 0 <= h < p.x.heads() ==> (#[trigger] p.head(
                a,
                h,
            )).tiles_decay(),
        forward::chunked_outputs(p, out, next),
    ensures
        fused_recurrent::recurrence_of(p.x, p.scale, p.state, out, next),
{
    assert forall|a: int, h: int, t: int, j: int|
        0 <= a < p.x.batch() && 0 <= h < p.x.heads() && 0 <= t < p.x.tokens() && 0 <= j
            < p.x.vd() implies #[trigger] out.at(a, h, t, j) == p.x.head(p.scale, a, h).output(
        streams::state_of(p.state, a, h),
        t,
        j,
    ) by {
        let ck = p.head(a, h);
        chunks_are_recurrence(ck);
        assert(ck.output(t, j) == ck.head.output(ck.s, t, j));
    }
    assert forall|a: int, h: int, i: int, j: int|
        0 <= a < p.x.batch() && 0 <= h < p.x.heads() && 0 <= i < p.x.kd() && 0 <= j
            < p.x.vd() implies #[trigger] next.at(a, h, i, j) == p.x.head(p.scale, a, h).run(
        streams::state_of(p.state, a, h),
        0,
        p.x.tokens(),
    )(i, j) by {
        let ck = p.head(a, h);
        chunks_are_recurrence(ck);
        assert(ck.state(ck.count())(i, j) == ck.head.run(ck.s, 0, ck.tokens)(i, j));
    }
}

/// A chunked pass can be split at any token in exact arithmetic: the pass `p` gives what `first`
/// gives of its first tokens, and then `rest` of the others, from the state that `first` left. The
/// three may be cut into chunks of different sizes.
pub proof fn chunked_pass_splits<F: ExactScalar>(
    p: Pass<F>,
    out: Tensor4<F>,
    next: Tensor4<F>,
    first: Pass<F>,
    out1: Tensor4<F>,
    next1: Tensor4<F>,
    rest: Pass<F>,
    out2: Tensor4<F>,
    next2: Tensor4<F>,
)
    requires
        p.wf() && first.wf() && rest.wf(),
        p.saved is None && first.saved is None && rest.saved is None,
        first.state == p.state,
        rest.state == next1,
        first.x.tokens() + rest.x.tokens() == p.x.tokens(),
        forall|a: int, h: int|
            0 <= a < p.x.batch() && 0 <= h < p.x.heads() ==> (#[trigger] p.head(
                a,
                h,
            )).tiles_decay(),
        forall|a: int, h: int|
            0 <= a < p.x.batch() && 0 <= h < p.x.heads() ==> (#[trigger] first.head(
                a,
                h,
            )).tiles_decay(),
        forall|a: int, h: int|
            0 <= a < p.x.batch() && 0 <= h < p.x.heads() ==> (#[trigger] rest.head(
                a,
                h,
            )).tiles_decay(),
        forall|a: int, h: int, t: int|
            0 <= a < p.x.batch() && 0 <= h < p.x.heads() && 0 <= t < first.x.tokens()
                ==> #[trigger] first.x.head(first.scale, a, h).same_token(
                t,
                p.x.head(p.scale, a, h),
                t,
            ),
        forall|a: int, h: int, t: int|
            0 <= a < p.x.batch() && 0 <= h < p.x.heads() && 0 <= t < rest.x.tokens()
                ==> #[trigger] rest.x.head(rest.scale, a, h).same_token(
                t,
                p.x.head(p.scale, a, h),
                first.x.tokens() + t,
            ),
        forward::chunked_outputs(p, out, next),
        forward::chunked_outputs(first, out1, next1),
        forward::chunked_outputs(rest, out2, next2),
    ensures
        forall|a: int, h: int, t: int, j: int|
            0 <= a < p.x.batch() && 0 <= h < p.x.heads() && 0 <= t < first.x.tokens() && 0 <= j
                < p.x.vd() ==> #[trigger] out1.at(a, h, t, j) == out.at(a, h, t, j),
        forall|a: int, h: int, t: int, j: int|
            0 <= a < p.x.batch() && 0 <= h < p.x.heads() && 0 <= t < rest.x.tokens() && 0 <= j
                < p.x.vd() ==> #[trigger] out2.at(a, h, t, j) == out.at(
                a,
                h,
                first.x.tokens() + t,
                j,
            ),
        forall|a: int, h: int, i: int, j: int|
            0 <= a < p.x.batch() && 0 <= h < p.x.heads() && 0 <= i < p.x.kd() && 0 <= j < p.x.vd()
                ==> #[trigger] next2.at(a, h, i, j) == next.at(a, h, i, j),
{
    chunked_pass_is_recurrence(p, out, next);
    chunked_pass_is_recurrence(first, out1, next1);
    chunked_pass_is_recurrence(rest, out2, next2);
    let (m, n) = (first.x.tokens(), rest.x.tokens());
    assert forall|a: int, h: int, t: int, j: int|
        0 <= a < p.x.batch() && 0 <= h < p.x.heads() && 0 <= t < m && 0 <= j
            < p.x.vd() implies #[trigger] out1.at(a, h, t, j) == out.at(a, h, t, j) by {
        lemma_split_head(p, first, rest, next1, a, h);
        let s = streams::state_of(p.state, a, h);
        assert(first.x.head(first.scale, a, h).output(s, t, j) == p.x.head(p.scale, a, h).output(
            s,
            t,
            j,
        ));
        assert(out.at(a, h, t, j) == p.x.head(p.scale, a, h).output(s, t, j));
    }
    assert forall|a: int, h: int, t: int, j: int|
        0 <= a < p.x.batch() && 0 <= h < p.x.heads() && 0 <= t < n && 0 <= j
            < p.x.vd() implies #[trigger] out2.at(a, h, t, j) == out.at(a, h, m + t, j) by {
        lemma_split_head(p, first, rest, next1, a, h);
        let (s, s1) = (streams::state_of(p.state, a, h), streams::state_of(next1, a, h));
        assert(rest.x.head(rest.scale, a, h).output(s1, t, j) == p.x.head(p.scale, a, h).output(
            s,
            m + t,
            j,
        ));
        assert(out.at(a, h, m + t, j) == p.x.head(p.scale, a, h).output(s, m + t, j));
    }
    assert forall|a: int, h: int, i: int, j: int|
        0 <= a < p.x.batch() && 0 <= h < p.x.heads() && 0 <= i < p.x.kd() && 0 <= j
            < p.x.vd() implies #[trigger] next2.at(a, h, i, j) == next.at(a, h, i, j) by {
        lemma_split_head(p, first, rest, next1, a, h);
        let (s, s1) = (streams::state_of(p.state, a, h), streams::state_of(next1, a, h));
        assert(rest.x.head(rest.scale, a, h).run(s1, 0, n)(i, j) == p.x.head(p.scale, a, h).run(
            s,
            0,
            m + n,
        )(i, j));
        assert(next.at(a, h, i, j) == p.x.head(p.scale, a, h).run(s, 0, m + n)(i, j));
    }
}

/// One head of a pass that is split.
proof fn lemma_split_head<F: ExactScalar>(
    p: Pass<F>,
    first: Pass<F>,
    rest: Pass<F>,
    next1: Tensor4<F>,
    a: int,
    h: int,
)
    requires
        first.x.kd() == p.x.kd() && rest.x.kd() == p.x.kd(),
        first.x.vd() == p.x.vd() && rest.x.vd() == p.x.vd(),
        first.x.tokens() >= 0,
        rest.x.tokens() >= 0,
        forall|t: int|
            0 <= t < first.x.tokens() ==> #[trigger] first.x.head(first.scale, a, h).same_token(
                t,
                p.x.head(p.scale, a, h),
                t,
            ),
        forall|t: int|
            0 <= t < rest.x.tokens() ==> #[trigger] rest.x.head(rest.scale, a, h).same_token(
                t,
                p.x.head(p.scale, a, h),
                first.x.tokens() + t,
            ),
        forall|i: int, j: int|
            0 <= i < p.x.kd() && 0 <= j < p.x.vd() ==> #[trigger] next1.at(a, h, i, j)
                == first.x.head(first.scale, a, h).run(
                streams::state_of(p.state, a, h),
                0,
                first.x.tokens(),
            )(i, j),
    ensures
        forall|t: int, j: int|
            0 <= t < first.x.tokens() && 0 <= j < p.x.vd() ==> #[trigger] first.x.head(
                first.scale,
                a,
                h,
            ).output(streams::state_of(p.state, a, h), t, j) == p.x.head(p.scale, a, h).output(
                streams::state_of(p.state, a, h),
                t,
                j,
            ),
        forall|t: int, j: int|
            0 <= t < rest.x.tokens() && 0 <= j < p.x.vd() ==> #[trigger] rest.x.head(
                rest.scale,
                a,
                h,
            ).output(streams::state_of(next1, a, h), t, j) == p.x.head(p.scale, a, h).output(
                streams::state_of(p.state, a, h),
                first.x.tokens() + t,
                j,
            ),
        forall|i: int, j: int|
            0 <= i < p.x.kd() && 0 <= j < p.x.vd() ==> #[trigger] rest.x.head(
                rest.scale,
                a,
                h,
            ).run(streams::state_of(next1, a, h), 0, rest.x.tokens())(i, j) == p.x.head(
                p.scale,
                a,
                h,
            ).run(
                streams::state_of(p.state, a, h),
                0,
                first.x.tokens() + rest.x.tokens(),
            )(i, j),
{
    let (h0, h1, h2) = (
        p.x.head(p.scale, a, h),
        first.x.head(first.scale, a, h),
        rest.x.head(rest.scale, a, h),
    );
    let (s, s1) = (streams::state_of(p.state, a, h), streams::state_of(next1, a, h));
    let (m, n) = (first.x.tokens(), rest.x.tokens());
    assert forall|t: int| 0 <= t < m implies #[trigger] h1.same_token(t, h0, 0 + t) by {
        assert(h1.same_token(t, h0, t));
    }
    recurrence::lemma_run_same(h1, s, h0, s, 0, m);
    assert forall|i: int, j: int| 0 <= i < h2.kd && 0 <= j < h2.vd implies #[trigger] s1(i, j)
        == h0.run(s, 0, m)(i, j) by {
        assert(next1.at(a, h, i, j) == h1.run(s, 0, m)(i, j));
        assert(h1.run(s, 0, m)(i, j) == h0.run(s, 0, 0 + m)(i, j));
    }
    recurrence::lemma_run_same(h2, s1, h0, s, m, n);
    assert forall|t: int, j: int| 0 <= t < m && 0 <= j < h0.vd implies #[trigger] h1.output(s, t, j)
        == h0.output(s, t, j) by {
        assert(h1.output(s, t, j) == h0.output(s, 0 + t, j));
    }
}

/// Whether sums of numbers below zero are below zero.
pub open spec fn sums_fall<F: Scalar>() -> bool {
    &&& F::nil().below(F::nil())
    &&& forall|a: F, b: F|
        a.below(F::nil()) && b.below(F::nil()) ==> (#[trigger] a.plus(b)).below(F::nil())
}

/// A sum of numbers below zero is below zero.
proof fn lemma_total_falls<F: Scalar>(n: int, f: spec_fn(int) -> F)
    requires
        sums_fall::<F>(),
        forall|i: int| 0 <= i < n ==> (#[trigger] f(i)).below(F::nil()),
    ensures
        scalar::total(n, f).below(F::nil()),
    decreases n,
{
    if n > 0 {
        lemma_total_falls(n - 1, f);
        assert(f(n - 1).below(F::nil()));
        let t = scalar::total(n - 1, f);
        assert(t.plus(f(n - 1)).below(F::nil()));
    }
}

/// The logarithm of the decay before a tile, as a sum over the rows before it.
proof fn lemma_bound_form<F: Scalar>(ch: Chunk<F>, p: int, i: int)
    requires
        0 <= p,
        ch.tile > 0,
    ensures
        ch.bound(p, i) == ch.cum(p * ch.tile, i),
{
    let t = ch.tile;
    if p == 0 {
        assert(p * t == 0) by (nonlinear_arith)
            requires
                p == 0,
        ;
    }
}

/// Where no token lets the state grow, no decay between tiles is above 1, so that the chunked form
/// cuts nothing off.
pub proof fn falling_tiles<F: ExactScalar>(ck: Chunking<F>)
    requires
        ck.size > 0,
        ck.tile > 0,
        sums_fall::<F>(),
        forall|t: int, i: int|
            0 <= t < ck.tokens && 0 <= i < ck.head.kd ==> (#[trigger] (ck.head.g)(t, i)).below(
                F::nil(),
            ),
    ensures
        ck.tiles_decay(),
{
    assert forall|c: int| 0 <= c < ck.count() implies (#[trigger] ck.chunk(c)).tiles_decay() by {
        lemma_chunk_bounds(ck, c);
        let ch = ck.chunk(c);
        assert forall|r: int, s: int, i: int|
            0 <= s <= r < ch.rows && 0 <= i < ch.kd implies #[trigger] ch.gap(r, s, i).below(
            F::nil(),
        ) by {
            let (t, p, q) = (ch.tile, r / ch.tile, s / ch.tile);
            assert(0 <= q * t <= p * t && 0 <= q <= p) by (nonlinear_arith)
                requires
                    t > 0,
                    0 <= s <= r,
                    p == r / t,
                    q == s / t,
            ;
            lemma_bound_form(ch, p, i);
            lemma_bound_form(ch, q, i);
            let f = |x: int| (ch.g)(x, i);
            let d = |x: int| f(q * t + x);
            algebra::lemma_total_split(p * t, q * t, f);
            let (a, b) = (scalar::total(q * t, f), scalar::total(p * t - q * t, d));
            F::plus_commutes(a, b);
            algebra::lemma_minus_plus(b, a);
            assert forall|x: int| 0 <= x < p * t - q * t implies (#[trigger] d(x)).below(
                F::nil(),
            ) by {
                let u = q * t + x;
                if u < ch.n {
                    assert((ck.head.g)(c * ck.size + u, i).below(F::nil()));
                }
            }
            lemma_total_falls(p * t - q * t, d);
        }
    }
}

} // verus!
