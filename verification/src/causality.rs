//! Later tokens do not reach back: the outputs of a chunked pass depend on no later token, and the
//! gradients of what comes after the last weighed output are zero.

use vstd::prelude::*;

use crate::adjoint::Adjoint;
use crate::algebra;
use crate::autodiff::{ChunkWy, ChunkWyGradients};
use crate::equivalence;
use crate::forward;
use crate::gradient;
use crate::grid;
use crate::grid::Grid;
use crate::scalar;
use crate::scalar::{ExactScalar, Scalar};
use crate::streams;
use crate::tensor::Tensor4;
use crate::wy;
use crate::wy::{Chunk, Chunking, Pass};

verus! {

impl<F: ExactScalar> Chunk<F> {
    /// The first `z` rows of the chunk, with all its tokens.
    spec fn cut(self, z: int) -> Chunk<F> {
        Chunk { rows: z, ..self }
    }

    /// The scores do not depend on the number of rows.
    proof fn lemma_cut_scores(self, z: int, r: int, l: int)
        ensures
            self.aqk(r, l) == self.cut(z).aqk(r, l),
            self.akk(r, l) == self.cut(z).akk(r, l),
    {
        let o = self.cut(z);
        assert forall|x: int, i: int| #[trigger] self.g_cum(x, i) == o.g_cum(x, i) by {
            let f = |y: int| (self.g)(y, i);
            let f2 = |y: int| (o.g)(y, i);
            algebra::lemma_total_eq(x + 1, f, f2);
        }
        let f = |i: int| self.qg(r, i).times(self.kg(l, i));
        let f2 = |i: int| o.qg(r, i).times(o.kg(l, i));
        assert forall|i: int| #[trigger] f(i) == f2(i) by {
            assert(self.g_cum(r, i) == o.g_cum(r, i));
            assert(self.g_cum(l, i) == o.g_cum(l, i));
        }
        algebra::lemma_total_eq(self.kd, f, f2);
        let g = |i: int| self.rhs_k(r, i).times(self.kg(l, i));
        let g2 = |i: int| o.rhs_k(r, i).times(o.kg(l, i));
        assert forall|i: int| #[trigger] g(i) == g2(i) by {
            assert(self.g_cum(r, i) == o.g_cum(r, i));
            assert(self.g_cum(l, i) == o.g_cum(l, i));
        }
        algebra::lemma_total_eq(self.kd, g, g2);
        assert forall|x: int, i: int| #[trigger] self.rel(x, i) == o.rel(x, i) by {
            assert(self.g_cum(x, i) == o.g_cum(x, i));
            assert(self.g_cum(x / self.tile * self.tile - 1, i) == o.g_cum(
                x / self.tile * self.tile - 1,
                i,
            ));
        }
        assert forall|i: int| #[trigger] self.hop(r, l, i) == o.hop(r, l, i) by {
            let (a, b) = (r / self.tile * self.tile - 1, l / self.tile * self.tile - 1);
            assert(self.g_cum(a, i) == o.g_cum(a, i));
            assert(self.g_cum(b, i) == o.g_cum(b, i));
        }
        let h = |i: int|
            (self.q)(r, i).times(self.rel(r, i)).times((self.k)(l, i).over(self.rel(l, i))).times(
                self.hop(r, l, i),
            );
        let h2 = |i: int|
            (o.q)(r, i).times(o.rel(r, i)).times((o.k)(l, i).over(o.rel(l, i))).times(
                o.hop(r, l, i),
            );
        algebra::lemma_total_eq(self.kd, h, h2);
        let k = |i: int|
            self.bk(r, i).times(self.rel(r, i)).times((self.k)(l, i).over(self.rel(l, i))).times(
                self.hop(r, l, i),
            );
        let k2 = |i: int|
            o.bk(r, i).times(o.rel(r, i)).times((o.k)(l, i).over(o.rel(l, i))).times(
                o.hop(r, l, i),
            );
        algebra::lemma_total_eq(self.kd, k, k2);
    }

    /// What a row reads of later rows is zero.
    proof fn lemma_reads_back(self, r: int, l: int)
        requires
            r < l,
        ensures
            self.aqk(r, l) == F::nil(),
    {
        algebra::lemma_times_nil(self.scale);
        let x = scalar::total(self.kd, |i: int| self.qg(r, i).times(self.kg(l, i)));
        F::times_commutes(x, F::nil());
        algebra::lemma_times_nil(x);
        let y = scalar::total(
            self.kd,
            |i: int|
                (self.q)(r, i).times(self.rel(r, i)).times(
                    (self.k)(l, i).over(self.rel(l, i)),
                ).times(self.hop(r, l, i)),
        );
        F::times_commutes(y, F::nil());
        algebra::lemma_times_nil(y);
    }

    /// The written values of the first rows depend on those rows alone.
    proof fn lemma_cut_writes(self, z: int, r: int, j: int)
        requires
            0 <= r < z <= self.rows,
        ensures
            self.v_new(self.solver(), r, j) == self.cut(z).v_new(self.cut(z).solver(), r, j),
    {
        let o = self.cut(z);
        let (m, m2) = (self.solver(), o.solver());
        let (a, a2) = (|x: int, y: int| self.akk(x, y), |x: int, y: int| o.akk(x, y));
        assert forall|x: int, y: int| #[trigger] a(x, y) == a2(x, y) by {
            self.lemma_cut_scores(z, x, y);
        }
        assert(a =~= a2);
        assert(m =~= m2);
        assert forall|l: int, i: int| #[trigger] self.rhs_k(l, i) == o.rhs_k(l, i) by {
            let (f, f2) = (|y: int| (self.g)(y, i), |y: int| (o.g)(y, i));
            algebra::lemma_total_eq(l + 1, f, f2);
        }
        let f = |l: int| m(r, l).times(self.rhs_v(l, j));
        let f2 = |l: int| m(r, l).times(o.rhs_v(l, j));
        assert forall|l: int| z <= l < self.rows implies #[trigger] f(l) == F::nil() by {
            algebra::lemma_times_nil(self.rhs_v(l, j));
        }
        algebra::lemma_total_cut(self.rows, z, f);
        algebra::lemma_total_eq(z, f, f2);
        let h = |i: int| self.w_wy(m, r, i).times((self.s)(i, j));
        let h2 = |i: int| o.w_wy(m, r, i).times((o.s)(i, j));
        assert forall|i: int| 0 <= i < self.kd implies #[trigger] h(i) == h2(i) by {
            let p = |l: int| m(r, l).times(self.rhs_k(l, i));
            let p2 = |l: int| m(r, l).times(o.rhs_k(l, i));
            assert forall|l: int| z <= l < self.rows implies #[trigger] p(l) == F::nil() by {
                algebra::lemma_times_nil(self.rhs_k(l, i));
            }
            algebra::lemma_total_cut(self.rows, z, p);
            algebra::lemma_total_eq(z, p, p2);
        }
        algebra::lemma_total_eq(self.kd, h, h2);
    }

    /// The outputs of the first rows depend on those rows alone.
    proof fn lemma_cut_outputs(self, z: int, r: int, j: int)
        requires
            0 <= r < z <= self.rows,
        ensures
            self.out(self.solver(), r, j) == self.cut(z).out(self.cut(z).solver(), r, j),
    {
        let o = self.cut(z);
        let (m, m2) = (self.solver(), o.solver());
        let f = |l: int| self.aqk(r, l).times(self.v_new(m, l, j));
        let f2 = |l: int| o.aqk(r, l).times(o.v_new(m2, l, j));
        assert forall|l: int| z <= l < self.rows implies #[trigger] f(l) == F::nil() by {
            self.lemma_reads_back(r, l);
            algebra::lemma_times_nil(self.v_new(m, l, j));
        }
        algebra::lemma_total_cut(self.rows, z, f);
        assert forall|l: int| 0 <= l < z implies #[trigger] f(l) == f2(l) by {
            self.lemma_cut_writes(z, l, j);
            self.lemma_cut_scores(z, r, l);
        }
        algebra::lemma_total_eq(z, f, f2);
        let h = |i: int| self.qg(r, i).times((self.s)(i, j));
        let h2 = |i: int| o.qg(r, i).times((o.s)(i, j));
        assert forall|i: int| #[trigger] h(i) == h2(i) by {
            let (g, g2) = (|y: int| (self.g)(y, i), |y: int| (o.g)(y, i));
            algebra::lemma_total_eq(r + 1, g, g2);
        }
        algebra::lemma_total_eq(self.kd, h, h2);
    }
}

impl<F: ExactScalar> Chunking<F> {
    /// Outputs of heads that agree in their first `n` tokens agree there.
    pub proof fn lemma_output_causal(self, o: Self, n: int, t: int, j: int)
        requires
            self.agrees_until(o, n),
            0 <= t < n,
            n <= self.tokens,
            0 <= j < self.head.vd,
        ensures
            self.output(t, j) == o.output(t, j),
    {
        let (size, tokens, count) = (self.size, self.tokens, self.count());
        let (c, r) = (t / size, t % size);
        assert(0 <= c < count && 0 <= r < size && t == c * size + r && (c + 1) * size == c * size
            + size) by (nonlinear_arith)
            requires
                size > 0,
                0 <= t < tokens,
                count == (tokens + size - 1) / size,
                c == t / size,
                r == t % size,
        ;
        equivalence::lemma_chunk_bounds(self, c);
        self.lemma_state_until(o, n, c);
        let (p, p2) = (self.chunk(c), o.chunk(c));
        let z = r + 1;
        assert(r < p.n <= p.rows);
        assert(self.head.same_token(t, o.head, t));
        assert forall|x: int| 0 <= x < z implies #[trigger] self.head.same_token(
            c * size + x,
            o.head,
            c * size + x,
        ) by {}
        let (a, b) = (p.cut(z), p2.cut(z));
        assert(a.matches(b)) by {
            assert forall|x: int, i: int| 0 <= x < z && 0 <= i < a.kd implies #[trigger] (a.q)(x, i)
                == (b.q)(x, i) by {
                assert(self.head.same_token(c * size + x, o.head, c * size + x));
                assert((self.head.q)(c * size + x, i) == (o.head.q)(c * size + x, i));
            }
            assert forall|x: int, i: int| 0 <= x < z && 0 <= i < a.kd implies #[trigger] (a.k)(x, i)
                == (b.k)(x, i) by {
                assert(self.head.same_token(c * size + x, o.head, c * size + x));
                assert((self.head.k)(c * size + x, i) == (o.head.k)(c * size + x, i));
            }
            assert forall|x: int, i: int| 0 <= x < z && 0 <= i < a.kd implies #[trigger] (a.g)(x, i)
                == (b.g)(x, i) by {
                assert(self.head.same_token(c * size + x, o.head, c * size + x));
                assert((self.head.g)(c * size + x, i) == (o.head.g)(c * size + x, i));
            }
            assert forall|x: int, i: int| 0 <= x < z && 0 <= i < a.kd implies #[trigger] (a.b)(x, i)
                == (b.b)(x, i) by {
                assert(self.head.same_token(c * size + x, o.head, c * size + x));
                assert((self.head.b)(c * size + x, i) == (o.head.b)(c * size + x, i));
            }
            assert forall|x: int, i: int| 0 <= x < z && 0 <= i < a.vd implies #[trigger] (a.v)(x, i)
                == (b.v)(x, i) by {
                assert(self.head.same_token(c * size + x, o.head, c * size + x));
                assert((self.head.v)(c * size + x, i) == (o.head.v)(c * size + x, i));
            }
            assert forall|x: int, i: int| 0 <= x < z && 0 <= i < a.vd implies #[trigger] (a.w)(x, i)
                == (b.w)(x, i) by {
                assert(self.head.same_token(c * size + x, o.head, c * size + x));
                assert((self.head.w)(c * size + x, i) == (o.head.w)(c * size + x, i));
            }
        }
        a.lemma_outputs_local(b);
        p.lemma_cut_outputs(z, r, j);
        p2.lemma_cut_outputs(z, r, j);
        assert(a.out(a.solver(), r, j) == b.out(b.solver(), r, j));
    }
}

/// A chunked pass is causal in exact arithmetic: two passes from the same state whose inputs agree
/// in all tokens up to `t` have outputs that agree in all tokens up to `t`, whatever comes later, in
/// the same chunk or not.
pub proof fn chunked_pass_is_causal<F: ExactScalar>(
    p: Pass<F>,
    o: Pass<F>,
    t: int,
    out1: Tensor4<F>,
    next1: Tensor4<F>,
    out2: Tensor4<F>,
    next2: Tensor4<F>,
)
    requires
        p.wf(),
        o.wf(),
        p.saved is None,
        o.saved is None,
        p.size == o.size,
        p.scale == o.scale,
        p.state == o.state,
        p.x.tokens() == o.x.tokens(),
        0 <= t < p.x.tokens(),
        forall|a: int, h: int, u: int|
            0 <= a < p.x.batch() && 0 <= h < p.x.heads() && 0 <= u <= t ==> #[trigger] p.x.head(
                p.scale,
                a,
                h,
            ).same_token(u, o.x.head(o.scale, a, h), u),
        forward::chunked_outputs(p, out1, next1),
        forward::chunked_outputs(o, out2, next2),
    ensures
        forall|a: int, h: int, u: int, j: int|
            0 <= a < p.x.batch() && 0 <= h < p.x.heads() && 0 <= u <= t && 0 <= j < p.x.vd()
                ==> #[trigger] out1.at(a, h, u, j) == out2.at(a, h, u, j),
{
    assert forall|a: int, h: int, u: int, j: int|
        0 <= a < p.x.batch() && 0 <= h < p.x.heads() && 0 <= u <= t && 0 <= j
            < p.x.vd() implies #[trigger] out1.at(a, h, u, j) == out2.at(a, h, u, j) by {
        let (c1, c2) = (p.head(a, h), o.head(a, h));
        assert(c1.agrees_until(c2, t + 1)) by {
            assert forall|v: int| 0 <= v < t + 1 implies #[trigger] c1.head.same_token(
                v,
                c2.head,
                v,
            ) by {
                assert(p.x.head(p.scale, a, h).same_token(v, o.x.head(o.scale, a, h), v));
            }
        }
        c1.lemma_output_causal(c2, t + 1, u, j);
        assert(out2.at(a, h, u, j) == c2.output(u, j));
    }
}

/// Whether `y` is an exponential.
spec fn exponential<F: Scalar>(y: F) -> bool {
    exists|x: F| y == #[trigger] x.raised()
}

/// Zero divided by an exponential, or by its square, is zero.
proof fn lemma_nil_over<F: ExactScalar>(y: F)
    requires
        exponential(y),
    ensures
        F::nil().over(y) == F::nil(),
        F::nil().over(y.times(y)) == F::nil(),
{
    let x = choose|x: F| y == #[trigger] x.raised();
    F::over_raised(F::nil(), x);
    algebra::lemma_times_nil(x.negated().raised());
    F::raised_plus(x, x);
    F::over_raised(F::nil(), x.plus(x));
    algebra::lemma_times_nil(x.plus(x).negated().raised());
}

/// A product with zero is zero.
proof fn lemma_nil_product<F: ExactScalar>(a: F, b: F)
    requires
        a == F::nil() || b == F::nil(),
    ensures
        a.times(b) == F::nil(),
{
    algebra::lemma_times_nil(b);
    algebra::lemma_times_nil(a);
    F::times_commutes(a, b);
}

/// A sum of products in each of which a factor is zero.
proof fn lemma_nil_sum<F: ExactScalar>(n: int, a: spec_fn(int) -> F, b: spec_fn(int) -> F)
    requires
        forall|l: int| 0 <= l < n ==> #[trigger] a(l) == F::nil() || b(l) == F::nil(),
    ensures
        scalar::total(n, |l: int| a(l).times(b(l))) == F::nil(),
{
    let f = |l: int| a(l).times(b(l));
    assert forall|l: int| 0 <= l < n implies #[trigger] f(l) == F::nil() by {
        assert(a(l) == F::nil() || b(l) == F::nil());
        lemma_nil_product(a(l), b(l));
    }
    algebra::lemma_total_nil(n, f);
}

/// An element of a product is zero where in each term a factor is.
proof fn lemma_prod_nil<F: ExactScalar>(n: int, a: Grid<F>, b: Grid<F>, i: int, j: int)
    requires
        forall|l: int| 0 <= l < n ==> #[trigger] a(i, l) == F::nil() || b(l, j) == F::nil(),
    ensures
        grid::prod(n, a, b)(i, j) == F::nil(),
{
    let (f, g) = (|l: int| a(i, l), |l: int| b(l, j));
    lemma_nil_sum(n, f, g);
    let p = |l: int| a(i, l).times(b(l, j));
    let q = |l: int| f(l).times(g(l));
    algebra::lemma_total_eq(n, p, q);
}

/// An element of a product with a transpose is zero where in each term a factor is.
proof fn lemma_prod_t_nil<F: ExactScalar>(n: int, a: Grid<F>, b: Grid<F>, i: int, j: int)
    requires
        forall|l: int| 0 <= l < n ==> #[trigger] a(i, l) == F::nil() || b(j, l) == F::nil(),
    ensures
        grid::prod_t(n, a, b)(i, j) == F::nil(),
{
    let (f, g) = (|l: int| a(i, l), |l: int| b(j, l));
    lemma_nil_sum(n, f, g);
    let p = |l: int| a(i, l).times(b(j, l));
    let q = |l: int| f(l).times(g(l));
    algebra::lemma_total_eq(n, p, q);
}

/// An element of a product of a transpose is zero where in each term a factor is.
proof fn lemma_t_prod_nil<F: ExactScalar>(n: int, a: Grid<F>, b: Grid<F>, i: int, j: int)
    requires
        forall|l: int| 0 <= l < n ==> #[trigger] a(l, i) == F::nil() || b(l, j) == F::nil(),
    ensures
        grid::t_prod(n, a, b)(i, j) == F::nil(),
{
    let (f, g) = (|l: int| a(l, i), |l: int| b(l, j));
    lemma_nil_sum(n, f, g);
    let p = |l: int| a(l, i).times(b(l, j));
    let q = |l: int| f(l).times(g(l));
    algebra::lemma_total_eq(n, p, q);
}

/// `-0 = 0`.
proof fn lemma_negated_nil<F: ExactScalar>()
    ensures
        F::nil().negated() == F::nil(),
        F::nil().plus(F::nil()) == F::nil(),
        F::nil().minus(F::nil()) == F::nil(),
{
    F::plus_negated(F::nil());
    algebra::lemma_nil_plus(F::nil().negated());
    algebra::lemma_nil_plus(F::nil());
    algebra::lemma_minus_self(F::nil());
}

/// Whether rows `z ..` of `rows` rows are zero.
spec fn blank_from<F: Scalar>(a: Grid<F>, z: int, rows: int, cols: int) -> bool {
    forall|r: int, i: int| z <= r < rows && 0 <= i < cols ==> #[trigger] a(r, i) == F::nil()
}

impl<F: ExactScalar> Adjoint<F> {
    /// Rows `z ..` of the outputs, and the state after the chunk, have no gradient; rows read and
    /// are solved from earlier rows alone; and the decays are exponentials.
    spec fn quiet(self, z: int) -> bool {
        let c = self.c;
        &&& 0 <= z
        &&& blank_from(self.d_out, z, c.rows, c.vd)
        &&& blank_from(self.d_acc, 0, c.kd, c.vd)
        &&& forall|r: int, l: int| 0 <= r < l < c.rows ==> #[trigger] (c.aqk)(r, l) == F::nil()
        &&& forall|r: int, l: int| 0 <= r < l < c.rows ==> #[trigger] (c.m)(r, l) == F::nil()
        &&& forall|r: int, i: int|
            0 <= r < c.rows && 0 <= i < c.kd ==> exponential(#[trigger] (c.e)(r, i))
    }

    /// The gradients by way of the written values are zero in rows `z ..`.
    proof fn lemma_quiet_writes(self, z: int)
        requires
            self.quiet(z),
        ensures
            blank_from(self.d_khat(), 0, self.c.rows, self.c.kd),
            blank_from(self.d_decay(), 0, self.c.rows, self.c.kd),
            blank_from(self.d_v_new(), z, self.c.rows, self.c.vd),
            blank_from(self.d_rhs_v(), z, self.c.rows, self.c.vd),
            blank_from(self.d_rhs_k(), z, self.c.rows, self.c.kd),
    {
        let (rows, kd, vd) = (self.c.rows, self.c.kd, self.c.vd);
        lemma_negated_nil::<F>();
        assert forall|r: int, i: int| 0 <= r < rows && 0 <= i < kd implies #[trigger] self.d_khat()(
            r,
            i,
        ) == F::nil() by {
            assert forall|l: int| 0 <= l < vd implies #[trigger] self.c.v_new()(r, l) == F::nil()
                || (self.d_acc)(i, l) == F::nil() by {
                assert((self.d_acc)(i, l) == F::nil());
            }
            lemma_prod_t_nil(vd, self.c.v_new(), self.d_acc, r, i);
        }
        assert forall|r: int, i: int| 0 <= r < rows && 0 <= i < kd implies #[trigger] self.d_decay()(
            r,
            i,
        ) == F::nil() by {
            assert(self.d_khat()(r, i) == F::nil());
            lemma_nil_product(F::nil(), (self.c.k)(r, i));
        }
        let dv = self.d_v_new();
        assert forall|r: int, j: int| z <= r < rows && 0 <= j < vd implies #[trigger] dv(r, j)
            == F::nil() by {
            assert forall|l: int| 0 <= l < rows implies #[trigger] (self.c.aqk)(l, r) == F::nil()
                || (self.d_out)(l, j) == F::nil() by {
                if l >= r {
                    assert((self.d_out)(l, j) == F::nil());
                }
            }
            lemma_t_prod_nil(rows, self.c.aqk, self.d_out, r, j);
            let dk = grid::times(self.c.decay(), self.c.k);
            assert forall|l: int| 0 <= l < kd implies #[trigger] dk(r, l) == F::nil() || (
            self.d_acc)(l, j) == F::nil() by {
                assert((self.d_acc)(l, j) == F::nil());
            }
            lemma_prod_nil(kd, dk, self.d_acc, r, j);
        }
        assert forall|r: int, j: int| z <= r < rows && 0 <= j < vd implies #[trigger] self.d_rhs_v()(
            r,
            j,
        ) == F::nil() by {
            assert forall|l: int| 0 <= l < rows implies #[trigger] (self.c.m)(l, r) == F::nil()
                || dv(l, j) == F::nil() by {
                if l >= r {
                    assert(dv(l, j) == F::nil());
                }
            }
            lemma_t_prod_nil(rows, self.c.m, dv, r, j);
        }
        let ds = grid::negated(grid::prod_t(vd, dv, self.c.s));
        assert forall|r: int, i: int| z <= r < rows && 0 <= i < kd implies #[trigger] ds(r, i)
            == F::nil() by {
            assert forall|l: int| 0 <= l < vd implies #[trigger] dv(r, l) == F::nil() || (self.c.s)(
                i,
                l,
            ) == F::nil() by {}
            lemma_prod_t_nil(vd, dv, self.c.s, r, i);
        }
        assert forall|r: int, i: int| z <= r < rows && 0 <= i < kd implies #[trigger] self.d_rhs_k()(
            r,
            i,
        ) == F::nil() by {
            assert forall|l: int| 0 <= l < rows implies #[trigger] (self.c.m)(l, r) == F::nil()
                || ds(l, i) == F::nil() by {
                if l >= r {
                    assert(ds(l, i) == F::nil());
                }
            }
            lemma_t_prod_nil(rows, self.c.m, ds, r, i);
        }
    }

    /// The gradients of the scores are zero in rows `z ..`, and above the diagonal.
    proof fn lemma_quiet_scores(self, z: int)
        requires
            self.quiet(z),
        ensures
            forall|r: int, l: int|
                0 <= r < self.c.rows && 0 <= l < self.c.rows && (z <= r || r < l)
                    ==> #[trigger] self.d_qk()(r, l) == F::nil(),
            forall|r: int, l: int|
                0 <= r < self.c.rows && 0 <= l < self.c.rows && (z <= r || r < l)
                    ==> #[trigger] self.d_akk()(r, l) == F::nil(),
    {
        let (rows, kd, vd) = (self.c.rows, self.c.kd, self.c.vd);
        self.lemma_quiet_writes(z);
        lemma_negated_nil::<F>();
        assert forall|r: int, l: int|
            0 <= r < rows && 0 <= l < rows && (z <= r || r < l) implies #[trigger] self.d_qk()(r, l)
            == F::nil() by {
            let x = grid::prod_t(vd, self.d_out, self.c.v_new())(r, l);
            if z <= r {
                assert forall|y: int| 0 <= y < vd implies #[trigger] (self.d_out)(r, y) == F::nil()
                    || self.c.v_new()(l, y) == F::nil() by {}
                lemma_prod_t_nil(vd, self.d_out, self.c.v_new(), r, l);
            } else {
                lemma_nil_product(F::nil(), self.c.scale);
            }
            lemma_nil_product(x, wy::scaled_causal(self.c.scale, r, l));
        }
        assert forall|r: int, l: int|
            0 <= r < rows && 0 <= l < rows && (z <= r || r < l) implies #[trigger] self.d_akk()(
            r,
            l,
        ) == F::nil() by {
            let (dk, dv) = (self.d_rhs_k(), self.d_rhs_v());
            let x = grid::minus(
                grid::negated(grid::prod_t(kd, dk, self.c.w_wy())),
                grid::prod_t(vd, dv, self.c.u_wy()),
            )(r, l);
            if z <= r {
                assert forall|y: int| 0 <= y < kd implies #[trigger] dk(r, y) == F::nil()
                    || self.c.w_wy()(l, y) == F::nil() by {}
                lemma_prod_t_nil(kd, dk, self.c.w_wy(), r, l);
                assert forall|y: int| 0 <= y < vd implies #[trigger] dv(r, y) == F::nil()
                    || self.c.u_wy()(l, y) == F::nil() by {}
                lemma_prod_t_nil(vd, dv, self.c.u_wy(), r, l);
            }
            lemma_nil_product(x, wy::strictly_causal::<F>(r, l));
        }
    }

    /// The gradients of the decayed inputs are zero in rows `z ..`.
    proof fn lemma_quiet_inputs(self, z: int)
        requires
            self.quiet(z),
        ensures
            blank_from(self.d_qe(), z, self.c.rows, self.c.kd),
            blank_from(self.d_kg(), z, self.c.rows, self.c.kd),
            blank_from(self.d_bke(), z, self.c.rows, self.c.kd),
            blank_from(self.d_bk(), z, self.c.rows, self.c.kd),
    {
        let (rows, kd, vd) = (self.c.rows, self.c.kd, self.c.vd);
        self.lemma_quiet_writes(z);
        self.lemma_quiet_scores(z);
        lemma_negated_nil::<F>();
        let (qk, akk) = (self.d_qk(), self.d_akk());
        assert forall|r: int, i: int| z <= r < rows && 0 <= i < kd implies #[trigger] self.d_qe()(
            r,
            i,
        ) == F::nil() by {
            assert forall|l: int| 0 <= l < vd implies #[trigger] (self.d_out)(r, l) == F::nil() || (
            self.c.s)(i, l) == F::nil() by {}
            lemma_prod_t_nil(vd, self.d_out, self.c.s, r, i);
            lemma_nil_product(F::nil(), self.c.scale);
            assert forall|l: int| 0 <= l < rows implies #[trigger] qk(r, l) == F::nil()
                || self.c.kg()(l, i) == F::nil() by {}
            lemma_prod_nil(rows, qk, self.c.kg(), r, i);
        }
        assert forall|r: int, i: int| z <= r < rows && 0 <= i < kd implies #[trigger] self.d_kg()(
            r,
            i,
        ) == F::nil() by {
            assert forall|l: int| 0 <= l < rows implies #[trigger] qk(l, r) == F::nil() || (
            self.c.qg)(l, i) == F::nil() by {}
            lemma_t_prod_nil(rows, qk, self.c.qg, r, i);
            assert forall|l: int| 0 <= l < rows implies #[trigger] akk(l, r) == F::nil()
                || self.c.rhs_k()(l, i) == F::nil() by {}
            lemma_t_prod_nil(rows, akk, self.c.rhs_k(), r, i);
        }
        assert forall|r: int, i: int| z <= r < rows && 0 <= i < kd implies #[trigger] self.d_bke()(
            r,
            i,
        ) == F::nil() by {
            assert forall|l: int| 0 <= l < rows implies #[trigger] akk(r, l) == F::nil()
                || self.c.kg()(l, i) == F::nil() by {}
            lemma_prod_nil(rows, akk, self.c.kg(), r, i);
        }
        assert forall|r: int, i: int| z <= r < rows && 0 <= i < kd implies #[trigger] self.d_bk()(
            r,
            i,
        ) == F::nil() by {
            assert(self.d_rhs_k()(r, i) == F::nil());
            assert(self.d_bke()(r, i) == F::nil());
            lemma_nil_product(F::nil(), (self.c.e)(r, i));
        }
    }

    /// The gradients of the decays are zero in rows `z ..`.
    proof fn lemma_quiet_decays(self, z: int)
        requires
            self.quiet(z),
        ensures
            blank_from(self.d_g(), z, self.c.rows, self.c.kd),
    {
        let (rows, kd, vd) = (self.c.rows, self.c.kd, self.c.vd);
        self.lemma_quiet_writes(z);
        self.lemma_quiet_inputs(z);
        lemma_negated_nil::<F>();
        assert forall|i: int| 0 <= i < kd implies #[trigger] self.d_e_last()(i) == F::nil() by {
            let f = |r: int| grid::over(self.d_decay(), self.c.e)(r, i);
            assert forall|r: int| 0 <= r < rows implies #[trigger] f(r) == F::nil() by {
                assert(self.d_decay()(r, i) == F::nil());
                assert(exponential((self.c.e)(r, i)));
                lemma_nil_over((self.c.e)(r, i));
            }
            algebra::lemma_total_nil(rows, f);
            let g = |j: int| grid::times(self.d_acc, self.c.s)(i, j);
            assert forall|j: int| 0 <= j < vd implies #[trigger] g(j) == F::nil() by {
                assert((self.d_acc)(i, j) == F::nil());
                lemma_nil_product(F::nil(), (self.c.s)(i, j));
            }
            algebra::lemma_total_nil(vd, g);
        }
        assert forall|r: int, i: int| z <= r < rows && 0 <= i < kd implies #[trigger] self.d_e()(
            r,
            i,
        ) == F::nil() by {
            let e = (self.c.e)(r, i);
            assert(exponential(e));
            lemma_nil_over(e);
            assert(self.d_rhs_k()(r, i) == F::nil());
            assert(self.d_kg()(r, i) == F::nil());
            assert(self.d_qe()(r, i) == F::nil());
            assert(self.d_bke()(r, i) == F::nil());
            assert(self.d_decay()(r, i) == F::nil());
            lemma_nil_product(F::nil(), self.bk()(r, i));
            lemma_nil_product(F::nil(), (self.c.k)(r, i));
            lemma_nil_product(F::nil(), (self.c.qg)(r, i));
            lemma_nil_product(F::nil(), self.c.decay()(r, i));
            assert(self.d_e_decay()(r, i) == F::nil());
            assert(self.d_e_rows()(r, i) == F::nil());
            assert(self.d_e_last()(i) == F::nil());
        }
        assert forall|r: int, i: int| z <= r < rows && 0 <= i < kd implies #[trigger] self.d_g()(
            r,
            i,
        ) == F::nil() by {
            let de = grid::times(self.d_e(), self.c.e);
            let f = |x: int| de(rows - 1 - x, i);
            assert forall|x: int| 0 <= x < rows - r implies #[trigger] f(x) == F::nil() by {
                assert(self.d_e()(rows - 1 - x, i) == F::nil());
                lemma_nil_product(F::nil(), (self.c.e)(rows - 1 - x, i));
            }
            algebra::lemma_total_nil(rows - r, f);
        }
    }

    /// The gradients of the inputs are zero in rows `z ..`.
    proof fn lemma_quiet(self, z: int)
        requires
            self.quiet(z),
        ensures
            blank_from(self.d_q(), z, self.c.rows, self.c.kd),
            blank_from(self.d_k(), z, self.c.rows, self.c.kd),
            blank_from(self.d_v(), z, self.c.rows, self.c.vd),
            blank_from(self.d_g(), z, self.c.rows, self.c.kd),
            blank_from(self.d_b(), z, self.c.rows, self.c.kd),
            blank_from(self.d_w(), z, self.c.rows, self.c.vd),
    {
        let (rows, kd, vd) = (self.c.rows, self.c.kd, self.c.vd);
        self.lemma_quiet_writes(z);
        self.lemma_quiet_inputs(z);
        self.lemma_quiet_decays(z);
        lemma_negated_nil::<F>();
        assert forall|r: int, i: int| z <= r < rows && 0 <= i < kd implies #[trigger] self.d_q()(
            r,
            i,
        ) == F::nil() by {
            assert(self.d_qe()(r, i) == F::nil());
            lemma_nil_product(F::nil(), (self.c.e)(r, i));
        }
        assert forall|r: int, i: int| z <= r < rows && 0 <= i < kd implies #[trigger] self.d_k()(
            r,
            i,
        ) == F::nil() by {
            assert(self.d_bk()(r, i) == F::nil());
            assert(self.d_kg()(r, i) == F::nil());
            assert(self.d_khat()(r, i) == F::nil());
            assert(exponential((self.c.e)(r, i)));
            lemma_nil_over((self.c.e)(r, i));
            lemma_nil_product(F::nil(), (self.c.b)(r, i));
            lemma_nil_product(F::nil(), self.c.decay()(r, i));
        }
        assert forall|r: int, j: int| z <= r < rows && 0 <= j < vd implies #[trigger] self.d_v()(
            r,
            j,
        ) == F::nil() by {
            assert(self.d_rhs_v()(r, j) == F::nil());
            lemma_nil_product(F::nil(), (self.c.w)(r, j));
        }
        assert forall|r: int, i: int| z <= r < rows && 0 <= i < kd implies #[trigger] self.d_b()(
            r,
            i,
        ) == F::nil() by {
            assert(self.d_bk()(r, i) == F::nil());
            lemma_nil_product(F::nil(), (self.c.k)(r, i));
        }
        assert forall|r: int, j: int| z <= r < rows && 0 <= j < vd implies #[trigger] self.d_w()(
            r,
            j,
        ) == F::nil() by {
            assert(self.d_rhs_v()(r, j) == F::nil());
            lemma_nil_product(F::nil(), (self.c.v)(r, j));
        }
    }

    /// Where no row has a gradient, nothing is passed back to the state before the chunk.
    proof fn lemma_quiet_state(self)
        requires
            self.quiet(0),
        ensures
            blank_from(self.d_s(), 0, self.c.kd, self.c.vd),
    {
        let (rows, kd, vd) = (self.c.rows, self.c.kd, self.c.vd);
        self.lemma_quiet_writes(0);
        lemma_negated_nil::<F>();
        let dv = self.d_v_new();
        assert forall|i: int, j: int| 0 <= i < kd && 0 <= j < vd implies #[trigger] self.d_s()(i, j)
            == F::nil() by {
            assert forall|l: int| 0 <= l < rows implies #[trigger] self.c.w_wy()(l, i) == F::nil()
                || dv(l, j) == F::nil() by {
                assert(dv(l, j) == F::nil());
            }
            lemma_t_prod_nil(rows, self.c.w_wy(), dv, i, j);
            assert forall|l: int| 0 <= l < rows implies #[trigger] (self.c.qg)(l, i) == F::nil() || (
            self.d_out)(l, j) == F::nil() by {
                assert((self.d_out)(l, j) == F::nil());
            }
            lemma_t_prod_nil(rows, self.c.qg, self.d_out, i, j);
            lemma_nil_product(F::nil(), self.c.scale);
            assert((self.d_acc)(i, j) == F::nil());
            lemma_nil_product(self.c.last_t()(i, j), F::nil());
        }
    }
}

/// The rows of chunk `c` from `z` on have no gradient, where the outputs after token `s` have none.
proof fn lemma_tape_quiet<F: ExactScalar>(ck: Chunking<F>, d: Grid<F>, s: int, c: int, z: int)
    requires
        ck.size > 0,
        ck.saved is None,
        0 <= c < ck.count(),
        0 <= z,
        s < c * ck.size + z,
        forall|t: int, j: int|
            s < t < ck.tokens && 0 <= j < ck.head.vd ==> #[trigger] d(t, j) == F::nil(),
        blank_from(gradient::tape_of(ck, d).passed_back(c), 0, ck.head.kd, ck.head.vd),
    ensures
        gradient::tape_of(ck, d).adjoint(c).quiet(z),
{
    let tape = gradient::tape_of(ck, d);
    let a = tape.adjoint(c);
    let ch = ck.chunk(c);
    equivalence::lemma_chunk_bounds(ck, c);
    assert forall|r: int, j: int| z <= r < a.c.rows && 0 <= j < a.c.vd implies #[trigger] (a.d_out)(
        r,
        j,
    ) == F::nil() by {
        if r < tape.len(c) {
            assert(d(c * ck.size + r, j) == F::nil());
        }
    }
    assert forall|r: int, l: int| 0 <= r < l < a.c.rows implies #[trigger] (a.c.aqk)(r, l)
        == F::nil() by {
        ch.lemma_reads_back(r, l);
    }
    assert forall|r: int, i: int| 0 <= r < a.c.rows && 0 <= i < a.c.kd implies exponential(
        #[trigger] (a.c.e)(r, i),
    ) by {
        assert((a.c.e)(r, i) == ch.g_cum(r, i).raised());
    }
}

/// Nothing is passed back from after token `s`.
proof fn lemma_nothing_passed_back<F: ExactScalar>(ck: Chunking<F>, d: Grid<F>, s: int, c: int)
    requires
        ck.size > 0,
        ck.saved is None,
        -1 <= c,
        s < (c + 1) * ck.size,
        forall|t: int, j: int|
            s < t < ck.tokens && 0 <= j < ck.head.vd ==> #[trigger] d(t, j) == F::nil(),
    ensures
        blank_from(gradient::tape_of(ck, d).passed_back(c), 0, ck.head.kd, ck.head.vd),
    decreases ck.count() - c,
{
    let tape = gradient::tape_of(ck, d);
    if c + 1 < tape.count() {
        let size = ck.size;
        assert((c + 1) * size < (c + 2) * size) by (nonlinear_arith)
            requires
                size > 0,
        ;
        lemma_nothing_passed_back(ck, d, s, c + 1);
        lemma_tape_quiet(ck, d, s, c + 1, 0);
        tape.adjoint(c + 1).lemma_quiet_state();
    }
}

/// The gradients of a head are zero after the last token whose output has one.
proof fn lemma_late_gradients<F: ExactScalar>(ck: Chunking<F>, d: Grid<F>, s: int, t: int)
    requires
        ck.size > 0,
        ck.tile > 0,
        ck.saved is None,
        s < t,
        0 <= t < ck.tokens,
        forall|u: int, j: int|
            s < u < ck.tokens && 0 <= j < ck.head.vd ==> #[trigger] d(u, j) == F::nil(),
    ensures
        forall|i: int|
            0 <= i < ck.head.kd ==> #[trigger] gradient::tape_of(ck, d).d_q(t, i) == F::nil(),
        forall|i: int|
            0 <= i < ck.head.kd ==> #[trigger] gradient::tape_of(ck, d).d_k(t, i) == F::nil(),
        forall|j: int|
            0 <= j < ck.head.vd ==> #[trigger] gradient::tape_of(ck, d).d_v(t, j) == F::nil(),
        forall|i: int|
            0 <= i < ck.head.kd ==> #[trigger] gradient::tape_of(ck, d).d_g(t, i) == F::nil(),
        forall|i: int|
            0 <= i < ck.head.kd ==> #[trigger] gradient::tape_of(ck, d).d_b(t, i) == F::nil(),
        forall|j: int|
            0 <= j < ck.head.vd ==> #[trigger] gradient::tape_of(ck, d).d_w(t, j) == F::nil(),
{
    let (size, tokens, count) = (ck.size, ck.tokens, ck.count());
    let (c, r) = (t / size, t % size);
    assert(0 <= c < count && 0 <= r < size && t == c * size + r && (c + 1) * size == c * size
        + size) by (nonlinear_arith)
        requires
            size > 0,
            0 <= t < tokens,
            count == (tokens + size - 1) / size,
            c == t / size,
            r == t % size,
    ;
    equivalence::lemma_chunk_bounds(ck, c);
    lemma_nothing_passed_back(ck, d, s, c);
    lemma_tape_quiet(ck, d, s, c, r);
    let a = gradient::tape_of(ck, d).adjoint(c);
    assert(r < a.c.rows);
    a.lemma_quiet(r);
}

/// Whether the gradients of head `h` of batch `a` are zero after token `s`.
pub open spec fn vanish_after<F: Scalar>(
    r: ChunkWyGradients<F>,
    tokens: int,
    kd: int,
    vd: int,
    a: int,
    h: int,
    s: int,
) -> bool {
    &&& forall|t: int, i: int|
        s < t < tokens && 0 <= i < kd ==> #[trigger] r.d_q.at(a, h, t, i) == F::nil()
    &&& forall|t: int, i: int|
        s < t < tokens && 0 <= i < kd ==> #[trigger] r.d_k.at(a, h, t, i) == F::nil()
    &&& forall|t: int, j: int|
        s < t < tokens && 0 <= j < vd ==> #[trigger] r.d_v.at(a, h, t, j) == F::nil()
    &&& forall|t: int, i: int|
        s < t < tokens && 0 <= i < kd ==> #[trigger] r.d_g.at(a, h, t, i) == F::nil()
    &&& forall|t: int, i: int|
        s < t < tokens && 0 <= i < kd ==> #[trigger] r.d_b.at(a, h, t, i) == F::nil()
    &&& forall|t: int, j: int|
        s < t < tokens && 0 <= j < vd ==> #[trigger] r.d_w.at(a, h, t, j) == F::nil()
}

/// In exact arithmetic `ChunkWy::backward`, run on what the forward pass left, returns zero for all
/// inputs of the tokens after `s`, where the outputs after `s` have no gradient: none before
/// depends on them.
pub proof fn late_gradients_vanish<F: ExactScalar>(
    p: Pass<F>,
    y: ChunkWy<F>,
    d_out: Tensor4<F>,
    r: ChunkWyGradients<F>,
    a: int,
    h: int,
    s: int,
)
    requires
        p.wf(),
        p.saved is None,
        y.wf(),
        gradient::follows(y, p),
        0 <= a < p.x.batch(),
        0 <= h < p.x.heads(),
        r.rows_are(y.head(d_out, a, h), a, h, 0),
        -1 <= s,
        forall|t: int, j: int|
            s < t < p.x.tokens() && 0 <= j < p.x.vd() ==> #[trigger] d_out.at(a, h, t, j)
                == F::nil(),
    ensures
        vanish_after(r, p.x.tokens(), p.x.kd(), p.x.vd(), a, h, s),
{
    let (n, kd, vd) = (p.x.tokens(), p.x.kd(), p.x.vd());
    let (ck, d) = (p.head(a, h), streams::state_of(d_out, a, h));
    let (t1, t2) = (y.head(d_out, a, h), gradient::tape_of(ck, d));
    gradient::lemma_follows(p, y, d_out, a, h);
    assert forall|t: int, i: int| s < t < n && 0 <= i < kd implies #[trigger] r.d_q.at(a, h, t, i)
        == F::nil() by {
        t1.lemma_local(t2, t);
        lemma_late_gradients(ck, d, s, t);
        assert(t1.d_q(t, i) == t2.d_q(t, i));
    }
    assert forall|t: int, i: int| s < t < n && 0 <= i < kd implies #[trigger] r.d_k.at(a, h, t, i)
        == F::nil() by {
        t1.lemma_local(t2, t);
        lemma_late_gradients(ck, d, s, t);
        assert(t1.d_k(t, i) == t2.d_k(t, i));
    }
    assert forall|t: int, j: int| s < t < n && 0 <= j < vd implies #[trigger] r.d_v.at(a, h, t, j)
        == F::nil() by {
        t1.lemma_local(t2, t);
        lemma_late_gradients(ck, d, s, t);
        assert(t1.d_v(t, j) == t2.d_v(t, j));
    }
    assert forall|t: int, i: int| s < t < n && 0 <= i < kd implies #[trigger] r.d_g.at(a, h, t, i)
        == F::nil() by {
        t1.lemma_local(t2, t);
        lemma_late_gradients(ck, d, s, t);
        assert(t1.d_g(t, i) == t2.d_g(t, i));
    }
    assert forall|t: int, i: int| s < t < n && 0 <= i < kd implies #[trigger] r.d_b.at(a, h, t, i)
        == F::nil() by {
        t1.lemma_local(t2, t);
        lemma_late_gradients(ck, d, s, t);
        assert(t1.d_b(t, i) == t2.d_b(t, i));
    }
    assert forall|t: int, j: int| s < t < n && 0 <= j < vd implies #[trigger] r.d_w.at(a, h, t, j)
        == F::nil() by {
        t1.lemma_local(t2, t);
        lemma_late_gradients(ck, d, s, t);
        assert(t1.d_w(t, j) == t2.d_w(t, j));
    }
}

} // verus!
