//! The chunked forward pass.

use vstd::prelude::*;

use crate::algebra;
use crate::linalg;
use crate::linalg::Op;
use crate::scalar;
use crate::scalar::Scalar;
use crate::streams;
use crate::streams::Streams;
use crate::tensor::{Matrix, Tensor4};
use crate::wy;
use crate::wy::{Chunk, Pass, TILE};

verus! {

/// The lower triangle of ones with its diagonal.
pub fn tril_matrix<F: Scalar>(t: usize) -> (r: Matrix<F>)
    requires
        t * t <= usize::MAX,
    ensures
        r.holds(t as int, t as int, |i: int, j: int| wy::causal::<F>(i, j)),
{
    let mut r = Matrix::zeros(t, t);
    for i in 0..t
        invariant
            r.shaped(t as int, t as int),
            forall|x: int, y: int|
                0 <= x < t && 0 <= y < t ==> #[trigger] r.at(x, y) == (if x < i {
                    wy::causal::<F>(x, y)
                } else {
                    F::nil()
                }),
    {
        for j in 0..i + 1
            invariant
                i < t,
                r.shaped(t as int, t as int),
                forall|x: int, y: int|
                    0 <= x < t && 0 <= y < t ==> #[trigger] r.at(x, y) == (if x < i || (x == i && y
                        < j) {
                        wy::causal::<F>(x, y)
                    } else {
                        F::nil()
                    }),
        {
            r.set(i, j, F::one());
        }
    }
    r
}

/// The lower triangles of ones, with the diagonal and without it.
pub fn chunk_masks<F: Scalar>(c: usize) -> (r: (Matrix<F>, Matrix<F>))
    requires
        c * c <= usize::MAX,
    ensures
        r.0.holds(c as int, c as int, |i: int, j: int| wy::causal::<F>(i, j)),
        r.1.holds(c as int, c as int, |i: int, j: int| wy::strictly_causal::<F>(i, j)),
{
    let mut causal = Matrix::zeros(c, c);
    let mut strict = Matrix::zeros(c, c);
    for i in 0..c
        invariant
            causal.shaped(c as int, c as int),
            strict.shaped(c as int, c as int),
            forall|x: int, y: int|
                0 <= x < c && 0 <= y < c ==> #[trigger] causal.at(x, y) == (if x < i {
                    wy::causal::<F>(x, y)
                } else {
                    F::nil()
                }),
            forall|x: int, y: int|
                0 <= x < c && 0 <= y < c ==> #[trigger] strict.at(x, y) == (if x < i {
                    wy::strictly_causal::<F>(x, y)
                } else {
                    F::nil()
                }),
    {
        for j in 0..i + 1
            invariant
                i < c,
                causal.shaped(c as int, c as int),
                strict.shaped(c as int, c as int),
                forall|x: int, y: int|
                    0 <= x < c && 0 <= y < c ==> #[trigger] causal.at(x, y) == (if x < i || (x == i
                        && y < j) {
                        wy::causal::<F>(x, y)
                    } else {
                        F::nil()
                    }),
                forall|x: int, y: int|
                    0 <= x < c && 0 <= y < c ==> #[trigger] strict.at(x, y) == (if x < i || (x == i
                        && y < j) {
                        wy::strictly_causal::<F>(x, y)
                    } else {
                        F::nil()
                    }),
        {
            causal.set(i, j, F::one());
            if j < i {
                strict.set(i, j, F::one());
            }
        }
    }
    (causal, strict)
}

/// One chunk of one head, as matrices.
pub struct ChunkInputs<F> {
    pub q: Matrix<F>,
    pub k: Matrix<F>,
    pub v: Matrix<F>,
    pub g: Matrix<F>,
    pub b: Matrix<F>,
    pub w: Matrix<F>,
    pub s: Matrix<F>,
}

impl<F: Scalar> ChunkInputs<F> {
    /// Whether the matrices hold the chunk `ch`.
    pub open spec fn hold(self, ch: Chunk<F>) -> bool {
        &&& self.q.holds(ch.rows, ch.kd, ch.q)
        &&& self.k.holds(ch.rows, ch.kd, ch.k)
        &&& self.v.holds(ch.rows, ch.vd, ch.v)
        &&& self.g.holds(ch.rows, ch.kd, ch.g)
        &&& self.b.holds(ch.rows, ch.kd, ch.b)
        &&& self.w.holds(ch.rows, ch.vd, ch.w)
        &&& self.s.holds(ch.kd, ch.vd, ch.s)
    }
}

/// What one chunk of one head computes.
pub struct ChunkOutputs<F> {
    pub g_exp: Matrix<F>,
    pub q_gated: Matrix<F>,
    pub aqk: Matrix<F>,
    pub m_inv: Matrix<F>,
    pub out: Matrix<F>,
    pub next: Matrix<F>,
}

/// Logarithms of the decays before each tile.
fn tile_bounds<F: Scalar>(g_cum: &Matrix<F>, Ghost(ch): Ghost<Chunk<F>>) -> (r: Matrix<F>)
    requires
        ch.tile == TILE,
        g_cum.holds(ch.rows, ch.kd, |r: int, i: int| ch.g_cum(r, i)),
    ensures
        r.holds(ch.rows, ch.kd, |r: int, i: int| ch.bound(r / ch.tile, i)),
{
    let mut r = g_cum.copy();
    for x in 0..g_cum.rows
        invariant
            ch.tile == TILE,
            g_cum.holds(ch.rows, ch.kd, |r: int, i: int| ch.g_cum(r, i)),
            r.shaped(ch.rows, ch.kd),
            forall|a: int, i: int|
                0 <= a < x && 0 <= i < ch.kd ==> #[trigger] r.at(a, i) == ch.bound(a / ch.tile, i),
    {
        let p: usize = x / TILE;
        for i in 0..g_cum.cols
            invariant
                ch.tile == TILE,
                g_cum.holds(ch.rows, ch.kd, |r: int, i: int| ch.g_cum(r, i)),
                r.shaped(ch.rows, ch.kd),
                x < ch.rows,
                p == x / TILE,
                forall|a: int, c: int|
                    0 <= c < ch.kd && (0 <= a < x || (a == x && c < i)) ==> #[trigger] r.at(a, c)
                        == ch.bound(a / ch.tile, c),
        {
            if p == 0 {
                r.set(x, i, F::zero());
            } else {
                r.set(x, i, g_cum.get(p * TILE - 1, i));
            }
        }
    }
    r
}

/// Scores by tiles, without their mask: `y` are the rows' vectors.
fn tiled_scores<F: Scalar>(
    y: &Matrix<F>,
    k: &Matrix<F>,
    g_cum: &Matrix<F>,
    Ghost(ch): Ghost<Chunk<F>>,
    Ghost(yf): Ghost<spec_fn(int, int) -> F>,
) -> (r: Matrix<F>)
    requires
        ch.tile == TILE,
        y.holds(ch.rows, ch.kd, yf),
        k.holds(ch.rows, ch.kd, ch.k),
        g_cum.holds(ch.rows, ch.kd, |r: int, i: int| ch.g_cum(r, i)),
        ch.rows * ch.rows <= usize::MAX,
    ensures
        r.holds(
            ch.rows,
            ch.rows,
            |r: int, s: int|
                scalar::total(
                    ch.kd,
                    |i: int|
                        yf(r, i).times(ch.rel(r, i)).times(
                            (ch.k)(s, i).over(ch.rel(s, i)),
                        ).times(ch.hop(r, s, i)),
                ),
        ),
{
    let bounds = tile_bounds(g_cum, Ghost(ch));
    let rel = linalg::raise(&linalg::elementwise(Op::Sub, g_cum, &bounds));
    let yr = linalg::elementwise(Op::Mul, y, &rel);
    let kr = linalg::elementwise(Op::Div, k, &rel);
    let n: usize = y.rows;
    let kd: usize = y.cols;
    let mut out = Matrix::zeros(n, n);
    for r in 0..n
        invariant
            n == ch.rows,
            kd == ch.kd,
            bounds.holds(ch.rows, ch.kd, |r: int, i: int| ch.bound(r / ch.tile, i)),
            yr.holds(ch.rows, ch.kd, |r: int, i: int| yf(r, i).times(ch.rel(r, i))),
            kr.holds(ch.rows, ch.kd, |r: int, i: int| (ch.k)(r, i).over(ch.rel(r, i))),
            out.shaped(ch.rows, ch.rows),
            forall|a: int, c: int|
                0 <= a < r && 0 <= c < ch.rows ==> #[trigger] out.at(a, c) == scalar::total(
                    ch.kd,
                    |i: int|
                        yf(a, i).times(ch.rel(a, i)).times(
                            (ch.k)(c, i).over(ch.rel(c, i)),
                        ).times(ch.hop(a, c, i)),
                ),
    {
        for s in 0..n
            invariant
                n == ch.rows,
                kd == ch.kd,
                r < n,
                bounds.holds(ch.rows, ch.kd, |r: int, i: int| ch.bound(r / ch.tile, i)),
                yr.holds(ch.rows, ch.kd, |r: int, i: int| yf(r, i).times(ch.rel(r, i))),
                kr.holds(ch.rows, ch.kd, |r: int, i: int| (ch.k)(r, i).over(ch.rel(r, i))),
                out.shaped(ch.rows, ch.rows),
                forall|a: int, c: int|
                    0 <= c < ch.rows && (0 <= a < r || (a == r && c < s)) ==> #[trigger] out.at(
                        a,
                        c,
                    ) == scalar::total(
                        ch.kd,
                        |i: int|
                            yf(a, i).times(ch.rel(a, i)).times(
                                (ch.k)(c, i).over(ch.rel(c, i)),
                            ).times(ch.hop(a, c, i)),
                    ),
        {
            let ghost f = |i: int|
                yf(r as int, i).times(ch.rel(r as int, i)).times(
                    (ch.k)(s as int, i).over(ch.rel(s as int, i)),
                ).times(ch.hop(r as int, s as int, i));
            let mut acc = F::zero();
            for i in 0..kd
                invariant
                    n == ch.rows,
                    kd == ch.kd,
                    r < n,
                    s < n,
                    bounds.holds(ch.rows, ch.kd, |r: int, i: int| ch.bound(r / ch.tile, i)),
                    yr.holds(ch.rows, ch.kd, |r: int, i: int| yf(r, i).times(ch.rel(r, i))),
                    kr.holds(ch.rows, ch.kd, |r: int, i: int| (ch.k)(r, i).over(ch.rel(r, i))),
                    f == (|i: int|
                        yf(r as int, i).times(ch.rel(r as int, i)).times(
                            (ch.k)(s as int, i).over(ch.rel(s as int, i)),
                        ).times(ch.hop(r as int, s as int, i))),
                    acc == scalar::total(i as int, f),
            {
                let gap = bounds.get(r, i).sub(bounds.get(s, i));
                let hop = scalar::cap(gap, F::zero()).exp();
                acc = acc.add(yr.get(r, i).mul(kr.get(s, i)).mul(hop));
            }
            out.set(r, s, acc);
        }
    }
    out
}

/// The inverse of `I + a` for a strictly lower triangular `a`, row by row.
pub(crate) fn invert_unit_lower<F: Scalar>(
    a: &Matrix<F>,
    Ghost(af): Ghost<spec_fn(int, int) -> F>,
) -> (m: Matrix<F>)
    requires
        a.holds(a.rows as int, a.rows as int, af),
    ensures
        m.holds(a.rows as int, a.rows as int, |r: int, s: int| Chunk::inverse(af, r, s)),
{
    let n: usize = a.rows;
    let mut m = a.copy();
    for r in 0..n
        invariant
            n == a.rows,
            a.holds(n as int, n as int, af),
            m.shaped(n as int, n as int),
            forall|x: int, y: int|
                0 <= x < r && 0 <= y < n ==> #[trigger] m.at(x, y) == Chunk::inverse(af, x, y),
    {
        for s in 0..n
            invariant
                n == a.rows,
                a.holds(n as int, n as int, af),
                m.shaped(n as int, n as int),
                r < n,
                forall|x: int, y: int|
                    0 <= y < n && (0 <= x < r || (x == r && y < s)) ==> #[trigger] m.at(x, y)
                        == Chunk::inverse(af, x, y),
        {
            if s == r {
                m.set(r, s, F::one());
            } else if s > r {
                m.set(r, s, F::zero());
            } else {
                let mut acc = F::zero();
                for l in 0..r
                    invariant
                        n == a.rows,
                        a.holds(n as int, n as int, af),
                        m.shaped(n as int, n as int),
                        r < n,
                        s < r,
                        forall|x: int, y: int|
                            0 <= y < n && 0 <= x < r ==> #[trigger] m.at(x, y) == Chunk::inverse(
                                af,
                                x,
                                y,
                            ),
                        acc == Chunk::substituted(af, r as int, s as int, l as int),
                {
                    acc = acc.add(a.get(r, l).mul(m.get(l, s)));
                }
                m.set(r, s, acc.neg());
            }
        }
    }
    m
}

/// What the scores of a chunk are made of.
pub(crate) struct Scores<F> {
    pub(crate) g_cum: Matrix<F>,
    pub(crate) gamma: Matrix<F>,
    pub(crate) q_gated: Matrix<F>,
    pub(crate) rhs_k: Matrix<F>,
    pub(crate) rhs_v: Matrix<F>,
    pub(crate) aqk: Matrix<F>,
    pub(crate) akk: Matrix<F>,
}

impl<F: Scalar> Scores<F> {
    pub(crate) open spec fn hold(self, ch: Chunk<F>) -> bool {
        &&& self.g_cum.holds(ch.rows, ch.kd, |r: int, i: int| ch.g_cum(r, i))
        &&& self.gamma.holds(ch.rows, ch.kd, |r: int, i: int| ch.e(r, i))
        &&& self.q_gated.holds(ch.rows, ch.kd, |r: int, i: int| ch.qg(r, i))
        &&& self.rhs_k.holds(ch.rows, ch.kd, |r: int, i: int| ch.rhs_k(r, i))
        &&& self.rhs_v.holds(ch.rows, ch.vd, |r: int, j: int| ch.rhs_v(r, j))
        &&& self.aqk.holds(ch.rows, ch.rows, |r: int, s: int| ch.aqk(r, s))
        &&& self.akk.holds(ch.rows, ch.rows, |r: int, s: int| ch.akk(r, s))
    }
}

/// Decays, scores and right-hand sides of a chunk.
pub(crate) fn chunk_scores<F: Scalar>(
    x: &ChunkInputs<F>,
    n: usize,
    scaled_causal: &Matrix<F>,
    strict: &Matrix<F>,
    Ghost(ch): Ghost<Chunk<F>>,
) -> (r: Scores<F>)
    requires
        x.hold(ch),
        n == ch.n,
        ch.tile == TILE,
        scaled_causal.holds(
            ch.rows,
            ch.rows,
            |r: int, s: int| wy::scaled_causal(ch.scale, r, s),
        ),
        strict.holds(ch.rows, ch.rows, |r: int, s: int| wy::strictly_causal::<F>(r, s)),
    ensures
        r.hold(ch),
{
    let g_cum = linalg::cumulate(&x.g);
    assert forall|r: int, i: int| 0 <= r < ch.rows && 0 <= i < ch.kd implies #[trigger] g_cum.at(
        r,
        i,
    ) == ch.g_cum(r, i) by {
        let f = |l: int| x.g.at(l, i);
        let f2 = |l: int| (ch.g)(l, i);
        assert forall|l: int| 0 <= l < r + 1 implies #[trigger] f(l) == f2(l) by {
            assert(x.g.at(l, i) == (ch.g)(l, i));
        }
        algebra::lemma_total_eq(r + 1, f, f2);
    }
    let gamma = linalg::raise(&g_cum);
    let q_gated = linalg::elementwise(Op::Mul, &x.q, &gamma);
    let bk = linalg::elementwise(Op::Mul, &x.b, &x.k);
    let rhs_k = linalg::elementwise(Op::Mul, &bk, &gamma);
    let rhs_v = linalg::elementwise(Op::Mul, &x.w, &x.v);
    let ghost qg = |r: int, i: int| ch.qg(r, i);
    let ghost rk = |r: int, i: int| ch.rhs_k(r, i);
    let ghost kg_of = |r: int, i: int| ch.kg(r, i);
    assert(strict.wf());
    if n <= TILE {
        let kg = linalg::elementwise(Op::Div, &x.k, &gamma);
        let aqk = linalg::product_rows_of(&q_gated, &kg, Ghost(ch.kd), Ghost(qg), Ghost(kg_of));
        let akk = linalg::product_rows_of(&rhs_k, &kg, Ghost(ch.kd), Ghost(rk), Ghost(kg_of));
        let aqk = linalg::elementwise(Op::Mul, &aqk, scaled_causal);
        let akk = linalg::elementwise(Op::Mul, &akk, strict);
        assert forall|r: int, s: int| 0 <= r < ch.rows && 0 <= s < ch.rows implies #[trigger] aqk.at(
            r,
            s,
        ) == ch.aqk(r, s) by {
            let f = |i: int| qg(r, i).times(kg_of(s, i));
            let f2 = |i: int| ch.qg(r, i).times(ch.kg(s, i));
            algebra::lemma_total_eq(ch.kd, f, f2);
        }
        assert forall|r: int, s: int| 0 <= r < ch.rows && 0 <= s < ch.rows implies #[trigger] akk.at(
            r,
            s,
        ) == ch.akk(r, s) by {
            let f = |i: int| rk(r, i).times(kg_of(s, i));
            let f2 = |i: int| ch.rhs_k(r, i).times(ch.kg(s, i));
            algebra::lemma_total_eq(ch.kd, f, f2);
        }
        Scores { g_cum, gamma, q_gated, rhs_k, rhs_v, aqk, akk }
    } else {
        let ghost bk_of = |r: int, i: int| ch.bk(r, i);
        let aqk = tiled_scores(&x.q, &x.k, &g_cum, Ghost(ch), Ghost(ch.q));
        let akk = tiled_scores(&bk, &x.k, &g_cum, Ghost(ch), Ghost(bk_of));
        let aqk = linalg::elementwise(Op::Mul, &aqk, scaled_causal);
        let akk = linalg::elementwise(Op::Mul, &akk, strict);
        assert forall|r: int, s: int| 0 <= r < ch.rows && 0 <= s < ch.rows implies #[trigger] akk.at(
            r,
            s,
        ) == ch.akk(r, s) by {
            let f = |i: int|
                bk_of(r, i).times(ch.rel(r, i)).times((ch.k)(s, i).over(ch.rel(s, i))).times(
                    ch.hop(r, s, i),
                );
            let f2 = |i: int|
                ch.bk(r, i).times(ch.rel(r, i)).times((ch.k)(s, i).over(ch.rel(s, i))).times(
                    ch.hop(r, s, i),
                );
            algebra::lemma_total_eq(ch.kd, f, f2);
        }
        Scores { g_cum, gamma, q_gated, rhs_k, rhs_v, aqk, akk }
    }
}

impl<F: Scalar> ChunkOutputs<F> {
    /// Whether these are the results of the chunk `ch` with the inverse `m`.
    pub open spec fn hold(self, ch: Chunk<F>, m: spec_fn(int, int) -> F) -> bool {
        &&& self.g_exp.holds(ch.rows, ch.kd, |r: int, i: int| ch.e(r, i))
        &&& self.q_gated.holds(ch.rows, ch.kd, |r: int, i: int| ch.qg(r, i))
        &&& self.aqk.holds(ch.rows, ch.rows, |r: int, s: int| ch.aqk(r, s))
        &&& self.m_inv.holds(ch.rows, ch.rows, m)
        &&& self.out.holds(ch.rows, ch.vd, |r: int, j: int| ch.out(m, r, j))
        &&& self.next.holds(ch.kd, ch.vd, |i: int, j: int| ch.next(m, i, j))
    }
}

/// The values that a chunk writes.
fn chunk_writes<F: Scalar>(
    m_inv: &Matrix<F>,
    rhs_k: &Matrix<F>,
    rhs_v: &Matrix<F>,
    s: &Matrix<F>,
    Ghost(ch): Ghost<Chunk<F>>,
    Ghost(m): Ghost<spec_fn(int, int) -> F>,
) -> (r: Matrix<F>)
    requires
        m_inv.holds(ch.rows, ch.rows, m),
        rhs_k.holds(ch.rows, ch.kd, |r: int, i: int| ch.rhs_k(r, i)),
        rhs_v.holds(ch.rows, ch.vd, |r: int, j: int| ch.rhs_v(r, j)),
        s.holds(ch.kd, ch.vd, ch.s),
    ensures
        r.holds(ch.rows, ch.vd, |r: int, j: int| ch.v_new(m, r, j)),
{
    let ghost rk = |r: int, i: int| ch.rhs_k(r, i);
    let ghost rv = |r: int, j: int| ch.rhs_v(r, j);
    assert(rhs_k.wf() && rhs_v.wf());
    let w_wy = linalg::product_of(m_inv, rhs_k, Ghost(ch.rows), Ghost(m), Ghost(rk));
    let u_wy = linalg::product_of(m_inv, rhs_v, Ghost(ch.rows), Ghost(m), Ghost(rv));
    let ghost w_of = |r: int, i: int| ch.w_wy(m, r, i);
    assert forall|r: int, i: int| 0 <= r < ch.rows && 0 <= i < ch.kd implies #[trigger] w_wy.at(
        r,
        i,
    ) == w_of(r, i) by {
        let f = |l: int| m(r, l).times(rk(l, i));
        let f2 = |l: int| m(r, l).times(ch.rhs_k(l, i));
        algebra::lemma_total_eq(ch.rows, f, f2);
    }
    let ws = linalg::product_of(&w_wy, s, Ghost(ch.kd), Ghost(w_of), Ghost(ch.s));
    let r = linalg::elementwise(Op::Sub, &u_wy, &ws);
    assert forall|x: int, j: int| 0 <= x < ch.rows && 0 <= j < ch.vd implies #[trigger] r.at(x, j)
        == ch.v_new(m, x, j) by {
        let f = |l: int| m(x, l).times(rv(l, j));
        let f2 = |l: int| m(x, l).times(ch.rhs_v(l, j));
        algebra::lemma_total_eq(ch.rows, f, f2);
        let h = |i: int| w_of(x, i).times((ch.s)(i, j));
        let h2 = |i: int| ch.w_wy(m, x, i).times((ch.s)(i, j));
        algebra::lemma_total_eq(ch.kd, h, h2);
    }
    r
}

/// The state after a chunk that writes the values `v`.
pub(crate) fn chunk_state<F: Scalar>(
    k: &Matrix<F>,
    g_cum: &Matrix<F>,
    gamma: &Matrix<F>,
    v_new: &Matrix<F>,
    s: &Matrix<F>,
    n: usize,
    Ghost(ch): Ghost<Chunk<F>>,
    Ghost(v): Ghost<spec_fn(int, int) -> F>,
) -> (r: Matrix<F>)
    requires
        1 <= ch.n <= ch.rows,
        n == ch.n,
        k.holds(ch.rows, ch.kd, ch.k),
        g_cum.holds(ch.rows, ch.kd, |r: int, i: int| ch.g_cum(r, i)),
        gamma.holds(ch.rows, ch.kd, |r: int, i: int| ch.e(r, i)),
        v_new.holds(ch.rows, ch.vd, v),
        s.holds(ch.kd, ch.vd, ch.s),
    ensures
        r.holds(ch.kd, ch.vd, |i: int, j: int| ch.next_with(v, i, j)),
{
    let mut kd = k.copy();
    let ghost kd_of = |r: int, i: int| (ch.k)(r, i).times(ch.decay_last(r, i));
    for r in 0..k.rows
        invariant
            1 <= ch.n <= ch.rows,
            n == ch.n,
            k.holds(ch.rows, ch.kd, ch.k),
            g_cum.holds(ch.rows, ch.kd, |r: int, i: int| ch.g_cum(r, i)),
            kd_of == (|r: int, i: int| (ch.k)(r, i).times(ch.decay_last(r, i))),
            kd.shaped(ch.rows, ch.kd),
            forall|a: int, c: int|
                0 <= a < r && 0 <= c < ch.kd ==> #[trigger] kd.at(a, c) == kd_of(a, c),
    {
        for i in 0..k.cols
            invariant
                1 <= ch.n <= ch.rows,
                n == ch.n,
                k.holds(ch.rows, ch.kd, ch.k),
                g_cum.holds(ch.rows, ch.kd, |r: int, i: int| ch.g_cum(r, i)),
                kd_of == (|r: int, i: int| (ch.k)(r, i).times(ch.decay_last(r, i))),
                r < ch.rows,
                kd.shaped(ch.rows, ch.kd),
                forall|a: int, c: int|
                    0 <= c < ch.kd && (0 <= a < r || (a == r && c < i)) ==> #[trigger] kd.at(a, c)
                        == kd_of(a, c),
        {
            let decay = g_cum.get(n - 1, i).sub(g_cum.get(r, i)).exp();
            kd.set(r, i, k.get(r, i).mul(decay));
        }
    }
    assert(s.wf());
    let kv = linalg::product_cols_of(&kd, v_new, Ghost(ch.rows), Ghost(kd_of), Ghost(v));
    let mut r = s.copy();
    for i in 0..s.rows
        invariant
            1 <= ch.n <= ch.rows,
            n == ch.n,
            gamma.holds(ch.rows, ch.kd, |r: int, i: int| ch.e(r, i)),
            s.holds(ch.kd, ch.vd, ch.s),
            kd_of == (|r: int, i: int| (ch.k)(r, i).times(ch.decay_last(r, i))),
            kv.holds(
                ch.kd,
                ch.vd,
                |i: int, j: int| scalar::total(ch.rows, |l: int| kd_of(l, i).times(v(l, j))),
            ),
            r.shaped(ch.kd, ch.vd),
            forall|a: int, c: int|
                0 <= a < i && 0 <= c < ch.vd ==> #[trigger] r.at(a, c) == ch.next_with(v, a, c),
    {
        for j in 0..s.cols
            invariant
                1 <= ch.n <= ch.rows,
                n == ch.n,
                gamma.holds(ch.rows, ch.kd, |r: int, i: int| ch.e(r, i)),
                s.holds(ch.kd, ch.vd, ch.s),
                kd_of == (|r: int, i: int| (ch.k)(r, i).times(ch.decay_last(r, i))),
                kv.holds(
                    ch.kd,
                    ch.vd,
                    |i: int, j: int|
                        scalar::total(ch.rows, |l: int| kd_of(l, i).times(v(l, j))),
                ),
                i < ch.kd,
                r.shaped(ch.kd, ch.vd),
                forall|a: int, c: int|
                    0 <= c < ch.vd && (0 <= a < i || (a == i && c < j)) ==> #[trigger] r.at(a, c)
                        == ch.next_with(v, a, c),
        {
            let x = s.get(i, j).mul(gamma.get(n - 1, i)).add(kv.get(i, j));
            proof {
                let f = |l: int| kd_of(l, i as int).times(v(l, j as int));
                let f2 = |l: int|
                    (ch.k)(l, i as int).times(ch.decay_last(l, i as int)).times(
                        v(l, j as int),
                    );
                algebra::lemma_total_eq(ch.rows, f, f2);
            }
            r.set(i, j, x);
        }
    }
    r
}

/// One chunk of one head. `saved` is an inverse to use in place of the chunk's own.
fn chunk_head<F: Scalar>(
    x: &ChunkInputs<F>,
    n: usize,
    scale: F,
    scaled_causal: &Matrix<F>,
    strict: &Matrix<F>,
    saved: Option<Matrix<F>>,
    Ghost(ch): Ghost<Chunk<F>>,
    Ghost(m): Ghost<spec_fn(int, int) -> F>,
) -> (r: ChunkOutputs<F>)
    requires
        x.hold(ch),
        1 <= ch.n <= ch.rows,
        n == ch.n,
        ch.tile == TILE,
        scale == ch.scale,
        scaled_causal.holds(
            ch.rows,
            ch.rows,
            |r: int, s: int| wy::scaled_causal(ch.scale, r, s),
        ),
        strict.holds(ch.rows, ch.rows, |r: int, s: int| wy::strictly_causal::<F>(r, s)),
        match saved {
            Some(given) => given.holds(ch.rows, ch.rows, m),
            None => m == ch.solver(),
        },
    ensures
        r.hold(ch, m),
{
    let sc = chunk_scores(x, n, scaled_causal, strict, Ghost(ch));
    let ghost a = |r: int, s: int| ch.akk(r, s);
    let m_inv = match saved {
        Some(given) => given,
        None => invert_unit_lower(&sc.akk, Ghost(a)),
    };
    assert(m_inv.holds(ch.rows, ch.rows, m));
    let v_new = chunk_writes(&m_inv, &sc.rhs_k, &sc.rhs_v, &x.s, Ghost(ch), Ghost(m));
    let ghost v_of = |r: int, j: int| ch.v_new(m, r, j);
    let ghost qg = |r: int, i: int| ch.qg(r, i);
    let ghost qk = |r: int, s: int| ch.aqk(r, s);
    assert(x.v.wf());
    let intra = linalg::product_of(&sc.aqk, &v_new, Ghost(ch.rows), Ghost(qk), Ghost(v_of));
    let inter = linalg::scale(
        &linalg::product_of(&sc.q_gated, &x.s, Ghost(ch.kd), Ghost(qg), Ghost(ch.s)),
        scale,
    );
    let out = linalg::elementwise(Op::Add, &intra, &inter);
    assert forall|r: int, j: int| 0 <= r < ch.rows && 0 <= j < ch.vd implies #[trigger] out.at(
        r,
        j,
    ) == ch.out(m, r, j) by {
        let f = |l: int| qk(r, l).times(v_of(l, j));
        let f2 = |l: int| ch.aqk(r, l).times(ch.v_new(m, l, j));
        algebra::lemma_total_eq(ch.rows, f, f2);
        let h = |i: int| qg(r, i).times((ch.s)(i, j));
        let h2 = |i: int| ch.qg(r, i).times((ch.s)(i, j));
        algebra::lemma_total_eq(ch.kd, h, h2);
    }
    let next = chunk_state(&x.k, &sc.g_cum, &sc.gamma, &v_new, &x.s, n, Ghost(ch), Ghost(v_of));
    assert forall|i: int, j: int| 0 <= i < ch.kd && 0 <= j < ch.vd implies #[trigger] next.at(i, j)
        == ch.next(m, i, j) by {
        let f = |l: int| (ch.k)(l, i).times(ch.decay_last(l, i)).times(v_of(l, j));
        let f2 = |l: int| (ch.k)(l, i).times(ch.decay_last(l, i)).times(ch.v_new(m, l, j));
        algebra::lemma_total_eq(ch.rows, f, f2);
    }
    ChunkOutputs { g_exp: sc.gamma, q_gated: sc.q_gated, aqk: sc.aqk, m_inv, out, next }
}

/// Intermediates of one chunk that the backward pass needs.
pub struct ChunkScratch<F> {
    /// `exp(cumsum(g))` over the chunk, `[batch, heads, rows, k]`.
    pub g_exp: Tensor4<F>,
    /// `q * g_exp`, `[batch, heads, rows, k]`.
    pub q_gated: Tensor4<F>,
    /// The query-key scores, `[batch, heads, rows, rows]`.
    pub aqk: Tensor4<F>,
    /// The inverse of `I + akk`, `[batch, heads, rows, rows]`.
    pub m_inv: Tensor4<F>,
}

/// Intermediates of all chunks.
pub struct ChunkWyScratch<F> {
    pub chunks: Vec<ChunkScratch<F>>,
}

impl<F: Scalar> ChunkScratch<F> {
    /// The extents are those of a chunk of `rows` rows.
    pub open spec fn shaped(self, batch: int, heads: int, rows: int, kd: int) -> bool {
        &&& self.g_exp.shaped(batch, heads, rows, kd)
        &&& self.q_gated.shaped(batch, heads, rows, kd)
        &&& self.aqk.shaped(batch, heads, rows, rows)
        &&& self.m_inv.shaped(batch, heads, rows, rows)
    }

    /// Whether the intermediates of head `hi` in batch `bi` are those of the chunk `ch` with the
    /// inverse `m`.
    pub open spec fn head_is(self, ch: Chunk<F>, m: spec_fn(int, int) -> F, bi: int, hi: int) -> bool {
        &&& forall|r: int, i: int|
            0 <= r < ch.rows && 0 <= i < ch.kd ==> #[trigger] self.g_exp.at(bi, hi, r, i) == ch.e(
                r,
                i,
            )
        &&& forall|r: int, i: int|
            0 <= r < ch.rows && 0 <= i < ch.kd ==> #[trigger] self.q_gated.at(bi, hi, r, i)
                == ch.qg(r, i)
        &&& forall|r: int, s: int|
            0 <= r < ch.rows && 0 <= s < ch.rows ==> #[trigger] self.aqk.at(bi, hi, r, s) == ch.aqk(
                r,
                s,
            )
        &&& forall|r: int, s: int|
            0 <= r < ch.rows && 0 <= s < ch.rows ==> #[trigger] self.m_inv.at(bi, hi, r, s) == m(
                r,
                s,
            )
    }

    /// Whether these are the intermediates of chunk `c` of the pass.
    pub open spec fn is_of(self, p: Pass<F>, c: int) -> bool {
        &&& self.shaped(p.x.batch(), p.x.heads(), p.rows(c), p.x.kd())
        &&& forall|bi: int, hi: int|
            0 <= bi < p.x.batch() && 0 <= hi < p.x.heads() ==> #[trigger] self.head_is(
                p.head(bi, hi).chunk(c),
                p.head(bi, hi).inverse(c),
                bi,
                hi,
            )
    }
}

/// Rows `start .. start + n` of head `hi` in batch `bi`, followed by rows of zeros.
pub(crate) fn slice_padded<F: Scalar>(
    t: &Tensor4<F>,
    bi: usize,
    hi: usize,
    start: usize,
    n: usize,
    rows: usize,
    cols: usize,
) -> (r: Matrix<F>)
    requires
        t.wf(),
        bi < t.d0,
        hi < t.d1,
        start + n <= t.d2,
        n <= rows,
        cols == t.d3 || t.d3 == 1,
        rows * cols <= usize::MAX,
    ensures
        r.holds(
            rows as int,
            cols as int,
            |x: int, i: int|
                if x < n {
                    t.at(bi as int, hi as int, start + x, streams::channel_of(*t, i))
                } else {
                    F::nil()
                },
        ),
{
    let mut r = Matrix::zeros(rows, cols);
    for x in 0..n
        invariant
            t.wf(),
            bi < t.d0,
            hi < t.d1,
            start + n <= t.d2,
            n <= rows,
            cols == t.d3 || t.d3 == 1,
            r.shaped(rows as int, cols as int),
            forall|a: int, i: int|
                0 <= a < rows && 0 <= i < cols ==> #[trigger] r.at(a, i) == (if a < x {
                    t.at(bi as int, hi as int, start + a, streams::channel_of(*t, i))
                } else {
                    F::nil()
                }),
    {
        for i in 0..cols
            invariant
                t.wf(),
                bi < t.d0,
                hi < t.d1,
                start + n <= t.d2,
                n <= rows,
                x < n,
                cols == t.d3 || t.d3 == 1,
                r.shaped(rows as int, cols as int),
                forall|a: int, c: int|
                    0 <= a < rows && 0 <= c < cols ==> #[trigger] r.at(a, c) == (if a < x || (a == x
                        && c < i) {
                        t.at(bi as int, hi as int, start + a, streams::channel_of(*t, c))
                    } else {
                        F::nil()
                    }),
        {
            let c: usize = streams::channel(t, i);
            r.set(x, i, t.get(bi, hi, start + x, c));
        }
    }
    r
}

/// The chunks before chunk `c` end where it starts, and it ends with the tokens or before.
pub proof fn lemma_chunk_span(p: int, size: int, tokens: int, c: int)
    requires
        size > 0,
        tokens >= 0,
        p == (tokens + size - 1) / size,
    ensures
        0 <= c < p ==> 0 <= c * size < tokens,
        0 <= c && c * size < tokens ==> c < p,
        (c + 1) * size == c * size + size,
{
    assert((c + 1) * size == c * size + size) by (nonlinear_arith);
    if 0 <= c < p {
        assert(0 <= c * size < tokens) by (nonlinear_arith)
            requires
                size > 0,
                0 <= c < p,
                p == (tokens + size - 1) / size,
        ;
    }
    if 0 <= c && c * size < tokens {
        assert(c < p) by (nonlinear_arith)
            requires
                size > 0,
                c * size < tokens,
                p == (tokens + size - 1) / size,
        ;
    }
}

/// Token `t` of chunk `c` is found there by division.
pub proof fn lemma_token_of(size: int, c: int, t: int)
    requires
        size > 0,
        c * size <= t < c * size + size,
    ensures
        t / size == c,
        t % size == t - c * size,
{
    assert(t / size == c && t % size == t - c * size) by (nonlinear_arith)
        requires
            size > 0,
            c * size <= t < c * size + size,
    ;
}

/// Number of rows for `n` tokens.
pub(crate) fn rows_for(n: usize) -> (r: usize)
    requires
        wy::padded_rows(TILE as int, n as int) <= usize::MAX,
    ensures
        r == wy::padded_rows(TILE as int, n as int),
        n <= r,
{
    if n <= TILE {
        n
    } else {
        let rest: usize = n % TILE;
        if rest == 0 {
            n
        } else {
            n - rest + TILE
        }
    }
}

/// Where the pass stands: the heads before `(bi, hi)` have been through chunk `c`.
pub open spec fn passed(bi: int, hi: int, a: int, h: int) -> bool {
    a < bi || (a == bi && h < hi)
}

/// Chunk `c` of one head: the state and the outputs of the head change, and its intermediates are
/// written to `sc`.
fn chunk_one<F: Scalar>(
    x: &Streams<F>,
    scale: F,
    bi: usize,
    hi: usize,
    start: usize,
    n: usize,
    rows: usize,
    scaled_causal: &Matrix<F>,
    strict: &Matrix<F>,
    saved: Option<&Tensor4<F>>,
    state: &mut Tensor4<F>,
    out: &mut Tensor4<F>,
    sc: &mut ChunkScratch<F>,
    Ghost(p): Ghost<Pass<F>>,
    Ghost(c): Ghost<int>,
)
    requires
        p.wf(),
        p.addressable(),
        *x == p.x,
        scale == p.scale,
        0 <= c < p.count(),
        start == c * p.size,
        n == p.len(c),
        1 <= n,
        start + n <= x.tokens(),
        n <= rows,
        rows == p.rows(c),
        bi < x.batch(),
        hi < x.heads(),
        scaled_causal.holds(
            rows as int,
            rows as int,
            |r: int, s: int| wy::scaled_causal(scale, r, s),
        ),
        strict.holds(
            rows as int,
            rows as int,
            |r: int, s: int| wy::strictly_causal::<F>(r, s),
        ),
        match saved {
            Some(m) => p.saved.is_some() && *m == p.saved.unwrap()[c],
            None => p.saved.is_none(),
        },
        x.carries(*old(state)),
        forall|i: int, j: int|
            0 <= i < x.kd() && 0 <= j < x.vd() ==> #[trigger] old(state).at(
                bi as int,
                hi as int,
                i,
                j,
            ) == p.head(bi as int, hi as int).state(c)(i, j),
        old(out).shaped(x.batch(), x.heads(), x.tokens(), x.vd()),
        old(sc).shaped(x.batch(), x.heads(), rows as int, x.kd()),
    ensures
        x.carries(*final(state)),
        final(out).shaped(x.batch(), x.heads(), x.tokens(), x.vd()),
        final(sc).shaped(x.batch(), x.heads(), rows as int, x.kd()),
        forall|a: int, h: int, i: int, j: int|
            0 <= a < x.batch() && 0 <= h < x.heads() && 0 <= i < x.kd() && 0 <= j < x.vd()
                ==> #[trigger] final(state).at(a, h, i, j) == (if a == bi && h == hi {
                p.head(bi as int, hi as int).state(c + 1)(i, j)
            } else {
                old(state).at(a, h, i, j)
            }),
        forall|a: int, h: int, t: int, j: int|
            0 <= a < x.batch() && 0 <= h < x.heads() && 0 <= t < x.tokens() && 0 <= j < x.vd()
                ==> #[trigger] final(out).at(a, h, t, j) == (if a == bi && h == hi && start <= t
                < start + n {
                p.head(bi as int, hi as int).output(t, j)
            } else {
                old(out).at(a, h, t, j)
            }),
        final(sc).head_is(
            p.head(bi as int, hi as int).chunk(c),
            p.head(bi as int, hi as int).inverse(c),
            bi as int,
            hi as int,
        ),
        forall|a: int, h: int, ch: Chunk<F>, m: spec_fn(int, int) -> F|
            0 <= a < x.batch() && 0 <= h < x.heads() && !(a == bi && h == hi) && ch.rows == rows
                && ch.kd == x.kd() && old(sc).head_is(ch, m, a, h) ==> #[trigger] final(sc).head_is(
                ch,
                m,
                a,
                h,
            ),
{
    let ghost ck = p.head(bi as int, hi as int);
    let ghost ch = ck.chunk(c);
    let ghost m = ck.inverse(c);
    let kd: usize = x.q.d3;
    let vd: usize = x.v.d3;
    assert(p.rows(c) == rows);
    let y = ChunkInputs {
        q: slice_padded(x.q, bi, hi, start, n, rows, kd),
        k: slice_padded(x.k, bi, hi, start, n, rows, kd),
        v: slice_padded(x.v, bi, hi, start, n, rows, vd),
        g: slice_padded(x.g, bi, hi, start, n, rows, kd),
        b: slice_padded(x.b, bi, hi, start, n, rows, kd),
        w: slice_padded(x.w, bi, hi, start, n, rows, vd),
        s: state.head_matrix(bi, hi),
    };
    assert(y.hold(ch));
    let given: Option<Matrix<F>> = match saved {
        Some(t) => Some(t.head_matrix(bi, hi)),
        None => None,
    };
    let r = chunk_head(&y, n, scale, scaled_causal, strict, given, Ghost(ch), Ghost(m));
    state.set_head(bi, hi, &r.next);
    out.set_rows(bi, hi, start, n, &r.out);
    sc.g_exp.set_head(bi, hi, &r.g_exp);
    sc.q_gated.set_head(bi, hi, &r.q_gated);
    sc.aqk.set_head(bi, hi, &r.aqk);
    sc.m_inv.set_head(bi, hi, &r.m_inv);
    assert forall|a: int, h: int, t: int, j: int|
        0 <= a < x.batch() && 0 <= h < x.heads() && 0 <= t < x.tokens() && 0 <= j
            < x.vd() implies #[trigger] out.at(a, h, t, j) == (if a == bi && h == hi && start <= t
        < start + n {
        ck.output(t, j)
    } else {
        old(out).at(a, h, t, j)
    }) by {
        if start <= t < start + n {
            lemma_chunk_span(p.count(), p.size, x.tokens(), c);
            lemma_token_of(p.size, c, t);
        }
    }
}

/// Chunk `c` of every head.
fn chunk_all<F: Scalar>(
    x: &Streams<F>,
    scale: F,
    start: usize,
    n: usize,
    rows: usize,
    scaled_causal: &Matrix<F>,
    strict: &Matrix<F>,
    saved: Option<&Tensor4<F>>,
    state: &mut Tensor4<F>,
    out: &mut Tensor4<F>,
    Ghost(p): Ghost<Pass<F>>,
    Ghost(c): Ghost<int>,
) -> (sc: ChunkScratch<F>)
    requires
        p.wf(),
        p.addressable(),
        *x == p.x,
        scale == p.scale,
        0 <= c < p.count(),
        start == c * p.size,
        n == p.len(c),
        1 <= n,
        start + n <= x.tokens(),
        n <= rows,
        rows == p.rows(c),
        scaled_causal.holds(
            rows as int,
            rows as int,
            |r: int, s: int| wy::scaled_causal(scale, r, s),
        ),
        strict.holds(
            rows as int,
            rows as int,
            |r: int, s: int| wy::strictly_causal::<F>(r, s),
        ),
        match saved {
            Some(m) => p.saved.is_some() && *m == p.saved.unwrap()[c],
            None => p.saved.is_none(),
        },
        x.carries(*old(state)),
        forall|a: int, h: int, i: int, j: int|
            0 <= a < x.batch() && 0 <= h < x.heads() && 0 <= i < x.kd() && 0 <= j < x.vd()
                ==> #[trigger] old(state).at(a, h, i, j) == p.head(a, h).state(c)(i, j),
        old(out).shaped(x.batch(), x.heads(), x.tokens(), x.vd()),
    ensures
        x.carries(*final(state)),
        final(out).shaped(x.batch(), x.heads(), x.tokens(), x.vd()),
        sc.is_of(p, c),
        forall|a: int, h: int, i: int, j: int|
            0 <= a < x.batch() && 0 <= h < x.heads() && 0 <= i < x.kd() && 0 <= j < x.vd()
                ==> #[trigger] final(state).at(a, h, i, j) == p.head(a, h).state(c + 1)(i, j),
        forall|a: int, h: int, t: int, j: int|
            0 <= a < x.batch() && 0 <= h < x.heads() && 0 <= t < x.tokens() && 0 <= j < x.vd()
                ==> #[trigger] final(out).at(a, h, t, j) == (if start <= t < start + n {
                p.head(a, h).output(t, j)
            } else {
                old(out).at(a, h, t, j)
            }),
{
    let batch: usize = x.q.d0;
    let heads: usize = x.q.d1;
    let kd: usize = x.q.d3;
    assert(p.rows(c) == rows);
    let mut sc = ChunkScratch {
        g_exp: Tensor4::zeros(batch, heads, rows, kd),
        q_gated: Tensor4::zeros(batch, heads, rows, kd),
        aqk: Tensor4::zeros(batch, heads, rows, rows),
        m_inv: Tensor4::zeros(batch, heads, rows, rows),
    };
    for bi in 0..batch
        invariant
            p.wf(),
            p.addressable(),
            *x == p.x,
            scale == p.scale,
            0 <= c < p.count(),
            start == c * p.size,
            n == p.len(c),
            1 <= n,
            start + n <= x.tokens(),
            n <= rows,
            rows == p.rows(c),
            batch == x.batch(),
            heads == x.heads(),
            scaled_causal.holds(
                rows as int,
                rows as int,
                |r: int, s: int| wy::scaled_causal(scale, r, s),
            ),
            strict.holds(
                rows as int,
                rows as int,
                |r: int, s: int| wy::strictly_causal::<F>(r, s),
            ),
            match saved {
                Some(m) => p.saved.is_some() && *m == p.saved.unwrap()[c],
                None => p.saved.is_none(),
            },
            x.carries(*state),
            out.shaped(x.batch(), x.heads(), x.tokens(), x.vd()),
            sc.shaped(x.batch(), x.heads(), rows as int, x.kd()),
            forall|a: int, h: int, i: int, j: int|
                0 <= a < x.batch() && 0 <= h < x.heads() && 0 <= i < x.kd() && 0 <= j < x.vd()
                    ==> #[trigger] state.at(a, h, i, j) == (if a < bi {
                    p.head(a, h).state(c + 1)(i, j)
                } else {
                    p.head(a, h).state(c)(i, j)
                }),
            forall|a: int, h: int, t: int, j: int|
                0 <= a < x.batch() && 0 <= h < x.heads() && 0 <= t < x.tokens() && 0 <= j < x.vd()
                    ==> #[trigger] out.at(a, h, t, j) == (if a < bi && start <= t < start + n {
                    p.head(a, h).output(t, j)
                } else {
                    old(out).at(a, h, t, j)
                }),
            forall|a: int, h: int|
                0 <= a < bi && 0 <= h < x.heads() ==> #[trigger] sc.head_is(
                    p.head(a, h).chunk(c),
                    p.head(a, h).inverse(c),
                    a,
                    h,
                ),
    {
        for hi in 0..heads
            invariant
                p.wf(),
                p.addressable(),
                *x == p.x,
                scale == p.scale,
                0 <= c < p.count(),
                start == c * p.size,
                n == p.len(c),
                1 <= n,
                start + n <= x.tokens(),
                n <= rows,
                rows == p.rows(c),
                batch == x.batch(),
                heads == x.heads(),
                bi < batch,
                scaled_causal.holds(
                    rows as int,
                    rows as int,
                    |r: int, s: int| wy::scaled_causal(scale, r, s),
                ),
                strict.holds(
                    rows as int,
                    rows as int,
                    |r: int, s: int| wy::strictly_causal::<F>(r, s),
                ),
                match saved {
                    Some(m) => p.saved.is_some() && *m == p.saved.unwrap()[c],
                    None => p.saved.is_none(),
                },
                x.carries(*state),
                out.shaped(x.batch(), x.heads(), x.tokens(), x.vd()),
                sc.shaped(x.batch(), x.heads(), rows as int, x.kd()),
                forall|a: int, h: int, i: int, j: int|
                    0 <= a < x.batch() && 0 <= h < x.heads() && 0 <= i < x.kd() && 0 <= j < x.vd()
                        ==> #[trigger] state.at(a, h, i, j) == (if passed(
                        bi as int,
                        hi as int,
                        a,
                        h,
                    ) {
                        p.head(a, h).state(c + 1)(i, j)
                    } else {
                        p.head(a, h).state(c)(i, j)
                    }),
                forall|a: int, h: int, t: int, j: int|
                    0 <= a < x.batch() && 0 <= h < x.heads() && 0 <= t < x.tokens() && 0 <= j
                        < x.vd() ==> #[trigger] out.at(a, h, t, j) == (if passed(
                        bi as int,
                        hi as int,
                        a,
                        h,
                    ) && start <= t < start + n {
                        p.head(a, h).output(t, j)
                    } else {
                        old(out).at(a, h, t, j)
                    }),
                forall|a: int, h: int|
                    0 <= a < x.batch() && 0 <= h < x.heads() && passed(bi as int, hi as int, a, h)
                        ==> #[trigger] sc.head_is(
                        p.head(a, h).chunk(c),
                        p.head(a, h).inverse(c),
                        a,
                        h,
                    ),
        {
            let ghost before = sc;
            chunk_one(
                x,
                scale,
                bi,
                hi,
                start,
                n,
                rows,
                scaled_causal,
                strict,
                saved,
                state,
                out,
                &mut sc,
                Ghost(p),
                Ghost(c),
            );
            assert forall|a: int, h: int|
                0 <= a < x.batch() && 0 <= h < x.heads() && passed(
                    bi as int,
                    hi + 1,
                    a,
                    h,
                ) implies #[trigger] sc.head_is(
                p.head(a, h).chunk(c),
                p.head(a, h).inverse(c),
                a,
                h,
            ) by {
                if !(a == bi && h == hi) {
                    assert(before.head_is(p.head(a, h).chunk(c), p.head(a, h).inverse(c), a, h));
                }
            }
        }
    }
    sc
}

/// Whether `out`, `next` and `scratch` are the results of the pass: in every batch and head the
/// outputs, the state after the last chunk, and the intermediates of each chunk.
pub open spec fn chunked<F: Scalar>(
    p: Pass<F>,
    out: Tensor4<F>,
    next: Tensor4<F>,
    scratch: ChunkWyScratch<F>,
) -> bool {
    &&& chunked_outputs(p, out, next)
    &&& scratch.chunks@.len() == p.count()
    &&& forall|c: int|
        0 <= c < p.count() ==> (#[trigger] scratch.chunks@[c]).is_of(p, c)
}

/// Whether `out` and `next` are the outputs of the pass and the state after its last chunk.
pub open spec fn chunked_outputs<F: Scalar>(
    p: Pass<F>,
    out: Tensor4<F>,
    next: Tensor4<F>,
) -> bool {
    &&& out.shaped(p.x.batch(), p.x.heads(), p.x.tokens(), p.x.vd())
    &&& p.x.carries(next)
    &&& forall|a: int, h: int, t: int, j: int|
        0 <= a < p.x.batch() && 0 <= h < p.x.heads() && 0 <= t < p.x.tokens() && 0 <= j < p.x.vd()
            ==> #[trigger] out.at(a, h, t, j) == p.head(a, h).output(t, j)
    &&& forall|a: int, h: int, i: int, j: int|
        0 <= a < p.x.batch() && 0 <= h < p.x.heads() && 0 <= i < p.x.kd() && 0 <= j < p.x.vd()
            ==> #[trigger] next.at(a, h, i, j) == p.head(a, h).state(p.count())(i, j)
}

/// Chunked forward pass, with the intermediates of each chunk. `m_invs` are inverses from an
/// earlier pass, used in place of the row-by-row inversions.
pub fn chunk_wy_forward_impl<F: Scalar>(
    q: &Tensor4<F>,
    k: &Tensor4<F>,
    v: &Tensor4<F>,
    g: &Tensor4<F>,
    b: &Tensor4<F>,
    w_gate: &Tensor4<F>,
    state: &Tensor4<F>,
    scale: F,
    chunk_size: usize,
    m_invs: Option<&Vec<Tensor4<F>>>,
) -> (r: (Tensor4<F>, Tensor4<F>, ChunkWyScratch<F>))
    requires
        pass_of(q, k, v, g, b, w_gate, *state, scale, chunk_size as int, m_invs).wf(),
        pass_of(q, k, v, g, b, w_gate, *state, scale, chunk_size as int, m_invs).addressable(),
    ensures
        chunked(
            pass_of(q, k, v, g, b, w_gate, *state, scale, chunk_size as int, m_invs),
            r.0,
            r.1,
            r.2,
        ),
{
    let ghost p = pass_of(q, k, v, g, b, w_gate, *state, scale, chunk_size as int, m_invs);
    let x = Streams { q, k, v, g, b, w: w_gate };
    let tokens: usize = q.d2;
    let mut s = state.copy();
    let mut out = v.zeros_like();
    let mut chunks: Vec<ChunkScratch<F>> = Vec::new();
    if tokens == 0 {
        proof {
            assert((chunk_size - 1) / (chunk_size as int) == 0) by (nonlinear_arith)
                requires
                    chunk_size > 0,
            ;
        }
        return (out, s, ChunkWyScratch { chunks });
    }
    let first: usize = if chunk_size <= tokens {
        chunk_size
    } else {
        tokens
    };
    proof {
        lemma_chunk_span(p.count(), p.size, tokens as int, 0);
        assert(p.len(0) == first);
        assert(p.rows(0) == wy::padded_rows(TILE as int, first as int));
        lemma_rows_fit(p, 0);
    }
    let full_rows: usize = rows_for(first);
    let (full_causal, full_strict) = chunk_masks::<F>(full_rows);
    let full_scaled = linalg::scale(&full_causal, scale);
    let mut start: usize = 0;
    let mut c: usize = 0;
    while start < tokens
        invariant
            p == pass_of(q, k, v, g, b, w_gate, *state, scale, chunk_size as int, m_invs),
            p.wf(),
            p.addressable(),
            x == p.x,
            tokens == x.tokens(),
            scale == p.scale,
            chunk_size == p.size,
            full_scaled.holds(
                full_rows as int,
                full_rows as int,
                |r: int, s: int| wy::scaled_causal(scale, r, s),
            ),
            full_strict.holds(
                full_rows as int,
                full_rows as int,
                |r: int, s: int| wy::strictly_causal::<F>(r, s),
            ),
            start <= tokens,
            0 <= c <= p.count(),
            c <= start,
            start < tokens ==> start == c * p.size,
            start == tokens ==> c == p.count(),
            x.carries(s),
            out.shaped(x.batch(), x.heads(), x.tokens(), x.vd()),
            forall|a: int, h: int, i: int, j: int|
                0 <= a < x.batch() && 0 <= h < x.heads() && 0 <= i < x.kd() && 0 <= j < x.vd()
                    ==> #[trigger] s.at(a, h, i, j) == p.head(a, h).state(c as int)(i, j),
            forall|a: int, h: int, t: int, j: int|
                0 <= a < x.batch() && 0 <= h < x.heads() && 0 <= t < start && 0 <= j < x.vd()
                    ==> #[trigger] out.at(a, h, t, j) == p.head(a, h).output(t, j),
            chunks@.len() == c,
            forall|e: int| 0 <= e < c ==> (#[trigger] chunks@[e]).is_of(p, e),
        decreases tokens - start,
    {
        let n: usize = if tokens - start < chunk_size {
            tokens - start
        } else {
            chunk_size
        };
        proof {
            lemma_chunk_span(p.count(), p.size, tokens as int, c as int);
            lemma_chunk_span(p.count(), p.size, tokens as int, c + 1);
            lemma_rows_fit(p, c as int);
            assert(n == p.len(c as int));
        }
        let rows: usize = rows_for(n);
        let saved: Option<&Tensor4<F>> = match m_invs {
            Some(m) => Some(&m[c]),
            None => None,
        };
        let sc = if rows == full_rows {
            chunk_all(
                &x,
                scale,
                start,
                n,
                rows,
                &full_scaled,
                &full_strict,
                saved,
                &mut s,
                &mut out,
                Ghost(p),
                Ghost(c as int),
            )
        } else {
            let (causal, strict) = chunk_masks::<F>(rows);
            let scaled = linalg::scale(&causal, scale);
            chunk_all(
                &x,
                scale,
                start,
                n,
                rows,
                &scaled,
                &strict,
                saved,
                &mut s,
                &mut out,
                Ghost(p),
                Ghost(c as int),
            )
        };
        chunks.push(sc);
        start = start + n;
        c = c + 1;
        proof {
            if start == tokens {
                lemma_chunk_span(p.count(), p.size, tokens as int, c as int);
                lemma_last_chunk(p.size, tokens as int, c as int);
            }
        }
    }
    (out, s, ChunkWyScratch { chunks })
}

/// The pass that these inputs describe.
pub open spec fn pass_of<'a, F: Scalar>(
    q: &'a Tensor4<F>,
    k: &'a Tensor4<F>,
    v: &'a Tensor4<F>,
    g: &'a Tensor4<F>,
    b: &'a Tensor4<F>,
    w: &'a Tensor4<F>,
    state: Tensor4<F>,
    scale: F,
    size: int,
    saved: Option<&Vec<Tensor4<F>>>,
) -> Pass<'a, F> {
    Pass {
        x: Streams { q, k, v, g, b, w },
        scale,
        size,
        state,
        saved: match saved {
            Some(m) => Some(m@),
            None => None,
        },
    }
}

/// The rows of a chunk can be counted.
pub proof fn lemma_rows_fit<F: Scalar>(p: Pass<F>, c: int)
    requires
        p.addressable(),
        0 <= c < p.count(),
        p.len(c) >= 1,
    ensures
        wy::padded_rows(TILE as int, p.len(c)) == p.rows(c),
        p.rows(c) <= usize::MAX,
        p.rows(c) * p.rows(c) <= usize::MAX,
{
    let r = p.rows(c);
    assert(r * r <= usize::MAX);
    assert(r <= r * r) by (nonlinear_arith)
        requires
            r >= 1,
    ;
}

/// The chunk that ends with the tokens is the last.
pub proof fn lemma_last_chunk(size: int, tokens: int, c: int)
    requires
        size > 0,
        c >= 1,
        (c - 1) * size < tokens <= c * size,
    ensures
        c == (tokens + size - 1) / size,
{
    assert(c == (tokens + size - 1) / size) by (nonlinear_arith)
        requires
            size > 0,
            c >= 1,
            (c - 1) * size < tokens <= c * size,
    ;
}

/// Chunked forward pass: the outputs, and the state after the last token.
pub fn chunk_wy_forward<F: Scalar>(
    q: &Tensor4<F>,
    k: &Tensor4<F>,
    v: &Tensor4<F>,
    g: &Tensor4<F>,
    b: &Tensor4<F>,
    w_gate: &Tensor4<F>,
    state: &Tensor4<F>,
    scale: F,
    chunk_size: usize,
) -> (r: (Tensor4<F>, Tensor4<F>))
    requires
        pass_of(q, k, v, g, b, w_gate, *state, scale, chunk_size as int, None).wf(),
        pass_of(q, k, v, g, b, w_gate, *state, scale, chunk_size as int, None).addressable(),
    ensures
        chunked_outputs(
            pass_of(q, k, v, g, b, w_gate, *state, scale, chunk_size as int, None),
            r.0,
            r.1,
        ),
{
    let (output, new_state, _scratch) = chunk_wy_forward_impl(
        q,
        k,
        v,
        g,
        b,
        w_gate,
        state,
        scale,
        chunk_size,
        None,
    );
    (output, new_state)
}

} // verus!
