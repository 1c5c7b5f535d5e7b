//! The chunked forward pass in two kernels over contiguous buffers.
//!
//! The first computes all chunks independently: decays, scores, the inverse of the solve, and the
//! pseudo-keys and pseudo-values. The second runs the recurrence over the chunks, one value column
//! at a time. Buffers hold one block per (batch, head, chunk); those marked transposed have the
//! rows of the chunk last.

use vstd::prelude::*;

use crate::forward;
use crate::grid;
use crate::grid::Grid;
use crate::linalg;
use crate::linalg::Op;
use crate::scalar;
use crate::scalar::Scalar;
use crate::tensor::{Matrix, Tensor3};
use crate::wy::Chunk;

verus! {

/// The matrix of block `n`.
pub open spec fn block<F: Scalar>(t: Tensor3<F>, n: int) -> Grid<F> {
    |i: int, j: int| t.at(n, i, j)
}

/// The matrix of block `n`, transposed.
pub open spec fn block_t<F: Scalar>(t: Tensor3<F>, n: int) -> Grid<F> {
    |i: int, j: int| t.at(n, j, i)
}

/// Inputs of the first kernel: `[blocks, c, k]`, or `[blocks, c, v]` for the values and the write
/// gates.
pub struct IntraIn<'a, F> {
    pub q: &'a Tensor3<F>,
    pub k: &'a Tensor3<F>,
    pub g: &'a Tensor3<F>,
    pub b: &'a Tensor3<F>,
    pub v: &'a Tensor3<F>,
    pub wg: &'a Tensor3<F>,
}

impl<'a, F: Scalar> IntraIn<'a, F> {
    pub open spec fn blocks(self) -> int {
        self.q.d0 as int
    }

    /// Number of tokens in a chunk.
    pub open spec fn c(self) -> int {
        self.q.d1 as int
    }

    pub open spec fn kd(self) -> int {
        self.q.d2 as int
    }

    pub open spec fn vd(self) -> int {
        self.v.d2 as int
    }

    pub open spec fn wf(self) -> bool {
        let (n, c) = (self.blocks(), self.c());
        &&& self.q.wf()
        &&& self.k.shaped(n, c, self.kd())
        &&& self.g.shaped(n, c, self.kd())
        &&& self.b.shaped(n, c, self.kd())
        &&& self.v.shaped(n, c, self.vd())
        &&& self.wg.shaped(n, c, self.vd())
    }
}

/// Buffers that the first kernel fills.
pub struct IntraBuffers<F> {
    /// `[blocks, c, k]`: decays from the start of the chunk.
    pub gexp: Tensor3<F>,
    /// `[blocks, k, c]`: keys with the decay divided out, transposed.
    pub kgt: Tensor3<F>,
    /// `[blocks, k, c]`: decayed queries, transposed.
    pub qgt: Tensor3<F>,
    /// `[blocks, k, c]`: decayed gated keys, transposed.
    pub bkt: Tensor3<F>,
    /// `[blocks, v, c]`: gated values, transposed.
    pub wvt: Tensor3<F>,
    /// `[blocks, c, c]`: query-key scores, transposed.
    pub aqk: Tensor3<F>,
    /// `[blocks, c, c]`: key-key scores.
    pub akk: Tensor3<F>,
    /// `[blocks, c, c]`: the inverse of `I + akk`.
    pub m_inv: Tensor3<F>,
    /// `[blocks, k, c]`: pseudo-keys, transposed.
    pub w: Tensor3<F>,
    /// `[blocks, v, c]`: pseudo-values, transposed.
    pub u: Tensor3<F>,
    /// `[blocks, c, k]`: keys decayed to the end of the chunk.
    pub kgd: Tensor3<F>,
    /// `[blocks, k]`: decays through the last token.
    pub glast: Matrix<F>,
}

impl<F: Scalar> IntraBuffers<F> {
    pub open spec fn shaped(self, n: int, c: int, kd: int, vd: int) -> bool {
        &&& self.gexp.shaped(n, c, kd)
        &&& self.kgt.shaped(n, kd, c)
        &&& self.qgt.shaped(n, kd, c)
        &&& self.bkt.shaped(n, kd, c)
        &&& self.wvt.shaped(n, vd, c)
        &&& self.aqk.shaped(n, c, c)
        &&& self.akk.shaped(n, c, c)
        &&& self.m_inv.shaped(n, c, c)
        &&& self.w.shaped(n, kd, c)
        &&& self.u.shaped(n, vd, c)
        &&& self.kgd.shaped(n, c, kd)
        &&& self.glast.shaped(n, kd)
    }

    /// Phase 1 of block `n`: the decays.
    pub open spec fn decays_are(self, x: IntraIn<F>, n: int) -> bool {
        forall|r: int, i: int|
            0 <= r < x.c() && 0 <= i < x.kd() ==> #[trigger] self.gexp.at(n, r, i)
                == scalar::compensated(r + 1, |y: int| x.g.at(n, y, i)).0.raised()
    }

    /// Phase 2 of block `n`: the inputs with their decays and gates, from the decays in `gexp`.
    pub open spec fn gates_are(self, x: IntraIn<F>, n: int) -> bool {
        &&& forall|i: int, r: int|
            0 <= i < x.kd() && 0 <= r < x.c() ==> #[trigger] self.kgt.at(n, i, r) == x.k.at(
                n,
                r,
                i,
            ).over(self.gexp.at(n, r, i))
        &&& forall|i: int, r: int|
            0 <= i < x.kd() && 0 <= r < x.c() ==> #[trigger] self.bkt.at(n, i, r) == x.b.at(
                n,
                r,
                i,
            ).times(x.k.at(n, r, i)).times(self.gexp.at(n, r, i))
        &&& forall|i: int, r: int|
            0 <= i < x.kd() && 0 <= r < x.c() ==> #[trigger] self.qgt.at(n, i, r) == x.q.at(
                n,
                r,
                i,
            ).times(self.gexp.at(n, r, i))
        &&& forall|r: int, i: int|
            0 <= r < x.c() && 0 <= i < x.kd() ==> #[trigger] self.kgd.at(n, r, i) == x.k.at(
                n,
                r,
                i,
            ).times(self.gexp.at(n, x.c() - 1, i)).over(self.gexp.at(n, r, i))
        &&& forall|i: int|
            0 <= i < x.kd() ==> #[trigger] self.glast.at(n, i) == self.gexp.at(n, x.c() - 1, i)
        &&& forall|j: int, r: int|
            0 <= j < x.vd() && 0 <= r < x.c() ==> #[trigger] self.wvt.at(n, j, r) == x.wg.at(
                n,
                r,
                j,
            ).times(x.v.at(n, r, j))
    }

    /// Phase 3 of block `n`: the masked scores, from the transposed inputs.
    pub open spec fn scores_are(self, x: IntraIn<F>, scale: F, n: int) -> bool {
        &&& forall|s: int, r: int|
            0 <= s < x.c() && 0 <= r < x.c() ==> #[trigger] self.aqk.at(n, s, r) == (if s <= r {
                grid::t_prod(x.kd(), block(self.qgt, n), block(self.kgt, n))(r, s).times(scale)
            } else {
                F::nil()
            })
        &&& forall|r: int, s: int|
            0 <= r < x.c() && 0 <= s < x.c() ==> #[trigger] self.akk.at(n, r, s) == (if s < r {
                grid::t_prod(x.kd(), block(self.bkt, n), block(self.kgt, n))(r, s)
            } else {
                F::nil()
            })
    }

    /// Phase 4 of block `n`: the inverse, from the key-key scores.
    pub open spec fn inverse_is(self, x: IntraIn<F>, n: int) -> bool {
        forall|r: int, s: int|
            0 <= r < x.c() && 0 <= s < x.c() ==> #[trigger] self.m_inv.at(n, r, s)
                == Chunk::inverse(block(self.akk, n), r, s)
    }

    /// Phase 5 of block `n`: the pseudo-keys and pseudo-values, from the inverse.
    pub open spec fn pseudo_are(self, x: IntraIn<F>, n: int) -> bool {
        &&& forall|i: int, r: int|
            0 <= i < x.kd() && 0 <= r < x.c() ==> #[trigger] self.w.at(n, i, r) == grid::prod_t(
                x.c(),
                block(self.m_inv, n),
                block(self.bkt, n),
            )(r, i)
        &&& forall|j: int, r: int|
            0 <= j < x.vd() && 0 <= r < x.c() ==> #[trigger] self.u.at(n, j, r) == grid::prod_t(
                x.c(),
                block(self.m_inv, n),
                block(self.wvt, n),
            )(r, j)
    }
}

/// Phase 1: the decays.
fn decay_phase<F: Scalar>(x: &IntraIn<F>, y: &mut IntraBuffers<F>)
    requires
        x.wf(),
        old(y).shaped(x.blocks(), x.c(), x.kd(), x.vd()),
    ensures
        final(y).shaped(x.blocks(), x.c(), x.kd(), x.vd()),
        *final(y) == (IntraBuffers { gexp: final(y).gexp, ..*old(y) }),
        forall|n: int| 0 <= n < x.blocks() ==> #[trigger] final(y).decays_are(*x, n),
{
    for n in 0..x.q.d0
        invariant
            x.wf(),
            y.shaped(x.blocks(), x.c(), x.kd(), x.vd()),
            *y == (IntraBuffers { gexp: y.gexp, ..*old(y) }),
            forall|a: int, r: int, i: int|
                0 <= a < n && 0 <= r < x.c() && 0 <= i < x.kd() ==> #[trigger] y.gexp.at(a, r, i)
                    == scalar::compensated(r + 1, |l: int| x.g.at(a, l, i)).0.raised(),
    {
        let g = x.g.block_matrix(n);
        let e = linalg::raise(&linalg::cumulate_compensated(&g));
        assert forall|r: int, i: int| 0 <= r < x.c() && 0 <= i < x.kd() implies #[trigger] e.at(
            r,
            i,
        ) == scalar::compensated(r + 1, |l: int| x.g.at(n as int, l, i)).0.raised() by {
            let f = |l: int| g.at(l, i);
            let f2 = |l: int| x.g.at(n as int, l, i);
            assert forall|l: int| 0 <= l < r + 1 implies #[trigger] f(l) == f2(l) by {
                assert(g.at(l, i) == x.g.at(n as int, l, i));
            }
            crate::algebra::lemma_compensated_eq(r + 1, f, f2);
        }
        y.gexp.set_block(n, &e);
    }
}

/// Phase 2: the inputs with their decays and gates.
fn gate_phase<F: Scalar>(x: &IntraIn<F>, y: &mut IntraBuffers<F>)
    requires
        x.wf(),
        x.c() >= 1,
        old(y).shaped(x.blocks(), x.c(), x.kd(), x.vd()),
    ensures
        final(y).shaped(x.blocks(), x.c(), x.kd(), x.vd()),
        *final(y) == (IntraBuffers {
            kgt: final(y).kgt,
            bkt: final(y).bkt,
            qgt: final(y).qgt,
            kgd: final(y).kgd,
            glast: final(y).glast,
            wvt: final(y).wvt,
            ..*old(y)
        }),
        forall|n: int| 0 <= n < x.blocks() ==> #[trigger] final(y).gates_are(*x, n),
{
    let c: usize = x.q.d1;
    let kd: usize = x.q.d2;
    for n in 0..x.q.d0
        invariant
            x.wf(),
            x.c() >= 1,
            c == x.c(),
            kd == x.kd(),
            y.shaped(x.blocks(), x.c(), x.kd(), x.vd()),
            *y == (IntraBuffers {
                kgt: y.kgt,
                bkt: y.bkt,
                qgt: y.qgt,
                kgd: y.kgd,
                glast: y.glast,
                wvt: y.wvt,
                ..*old(y)
            }),
            forall|a: int| 0 <= a < n ==> #[trigger] y.gates_are(*x, a),
    {
        let ghost before = *y;
        let e = y.gexp.block_matrix(n);
        let k = x.k.block_matrix(n);
        let kg = linalg::elementwise(Op::Div, &k, &e);
        let bk = linalg::elementwise(
            Op::Mul,
            &linalg::elementwise(Op::Mul, &x.b.block_matrix(n), &k),
            &e,
        );
        let qg = linalg::elementwise(Op::Mul, &x.q.block_matrix(n), &e);
        let wv = linalg::elementwise(Op::Mul, &x.wg.block_matrix(n), &x.v.block_matrix(n));
        let mut kgd = k.copy();
        for r in 0..c
            invariant
                c == x.c(),
                kd == x.kd(),
                c >= 1,
                k.shaped(x.c(), x.kd()),
                e.shaped(x.c(), x.kd()),
                kgd.shaped(x.c(), x.kd()),
                forall|a: int, i: int|
                    0 <= a < r && 0 <= i < kd ==> #[trigger] kgd.at(a, i) == k.at(a, i).times(
                        e.at(c - 1, i),
                    ).over(e.at(a, i)),
        {
            for i in 0..kd
                invariant
                    c == x.c(),
                    kd == x.kd(),
                    r < c,
                    k.shaped(x.c(), x.kd()),
                    e.shaped(x.c(), x.kd()),
                    kgd.shaped(x.c(), x.kd()),
                    forall|a: int, l: int|
                        0 <= l < kd && (0 <= a < r || (a == r && l < i)) ==> #[trigger] kgd.at(a, l)
                            == k.at(a, l).times(e.at(c - 1, l)).over(e.at(a, l)),
            {
                kgd.set(r, i, k.get(r, i).mul(e.get(c - 1, i)).div(e.get(r, i)));
            }
        }
        y.kgt.set_block(n, &kg.transposed());
        y.bkt.set_block(n, &bk.transposed());
        y.qgt.set_block(n, &qg.transposed());
        y.wvt.set_block(n, &wv.transposed());
        y.kgd.set_block(n, &kgd);
        let ghost old_last = y.glast;
        for i in 0..kd
            invariant
                c == x.c(),
                kd == x.kd(),
                c >= 1,
                n < x.blocks(),
                e.shaped(x.c(), x.kd()),
                y.shaped(x.blocks(), x.c(), x.kd(), x.vd()),
                y.gexp == before.gexp,
                *y == (IntraBuffers {
                    glast: y.glast,
                    kgt: y.kgt,
                    bkt: y.bkt,
                    qgt: y.qgt,
                    kgd: y.kgd,
                    wvt: y.wvt,
                    ..*old(y)
                }),
                forall|a: int, l: int|
                    0 <= a < x.blocks() && 0 <= l < kd ==> #[trigger] y.glast.at(a, l) == (if a == n
                        && l < i {
                        e.at(c - 1, l)
                    } else {
                        old_last.at(a, l)
                    }),
                forall|a: int, l: int, r: int|
                    0 <= a < x.blocks() && 0 <= l < kd && 0 <= r < c ==> #[trigger] y.kgt.at(
                        a,
                        l,
                        r,
                    ) == (if a == n {
                        kg.at(r, l)
                    } else {
                        before.kgt.at(a, l, r)
                    }),
                forall|a: int, l: int, r: int|
                    0 <= a < x.blocks() && 0 <= l < kd && 0 <= r < c ==> #[trigger] y.bkt.at(
                        a,
                        l,
                        r,
                    ) == (if a == n {
                        bk.at(r, l)
                    } else {
                        before.bkt.at(a, l, r)
                    }),
                forall|a: int, l: int, r: int|
                    0 <= a < x.blocks() && 0 <= l < kd && 0 <= r < c ==> #[trigger] y.qgt.at(
                        a,
                        l,
                        r,
                    ) == (if a == n {
                        qg.at(r, l)
                    } else {
                        before.qgt.at(a, l, r)
                    }),
                forall|a: int, l: int, r: int|
                    0 <= a < x.blocks() && 0 <= l < x.vd() && 0 <= r < c ==> #[trigger] y.wvt.at(
                        a,
                        l,
                        r,
                    ) == (if a == n {
                        wv.at(r, l)
                    } else {
                        before.wvt.at(a, l, r)
                    }),
                forall|a: int, r: int, l: int|
                    0 <= a < x.blocks() && 0 <= l < kd && 0 <= r < c ==> #[trigger] y.kgd.at(
                        a,
                        r,
                        l,
                    ) == (if a == n {
                        kgd.at(r, l)
                    } else {
                        before.kgd.at(a, r, l)
                    }),
        {
            y.glast.set(n, i, e.get(c - 1, i));
        }
        assert forall|a: int| 0 <= a < n + 1 implies #[trigger] y.gates_are(*x, a) by {
            if a < n {
                assert(before.gates_are(*x, a));
            }
        }
    }
}

/// Phase 3: the masked scores.
fn score_phase<F: Scalar>(x: &IntraIn<F>, y: &mut IntraBuffers<F>, scale: F)
    requires
        x.wf(),
        old(y).shaped(x.blocks(), x.c(), x.kd(), x.vd()),
    ensures
        final(y).shaped(x.blocks(), x.c(), x.kd(), x.vd()),
        *final(y) == (IntraBuffers { aqk: final(y).aqk, akk: final(y).akk, ..*old(y) }),
        forall|n: int| 0 <= n < x.blocks() ==> #[trigger] final(y).scores_are(*x, scale, n),
{
    let c: usize = x.q.d1;
    for n in 0..x.q.d0
        invariant
            x.wf(),
            c == x.c(),
            y.shaped(x.blocks(), x.c(), x.kd(), x.vd()),
            *y == (IntraBuffers { aqk: y.aqk, akk: y.akk, ..*old(y) }),
            forall|a: int| 0 <= a < n ==> #[trigger] y.scores_are(*x, scale, a),
    {
        let ghost before = *y;
        let qg = y.qgt.block_matrix(n);
        let kg = y.kgt.block_matrix(n);
        let bk = y.bkt.block_matrix(n);
        let old_qk = y.aqk.block_matrix(n);
        let ghost qf = block(y.qgt, n as int);
        let ghost kf = block(y.kgt, n as int);
        let ghost bf = block(y.bkt, n as int);
        let qk = linalg::product_cols_of(&qg, &kg, Ghost(x.kd()), Ghost(qf), Ghost(kf));
        let kk = linalg::product_cols_of(&bk, &kg, Ghost(x.kd()), Ghost(bf), Ghost(kf));
        let mut aqk = old_qk.copy();
        let mut akk = old_qk.copy();
        for r in 0..c
            invariant
                c == x.c(),
                qk.holds(x.c(), x.c(), grid::t_prod(x.kd(), qf, kf)),
                kk.holds(x.c(), x.c(), grid::t_prod(x.kd(), bf, kf)),
                aqk.shaped(x.c(), x.c()),
                akk.shaped(x.c(), x.c()),
                forall|s: int, a: int|
                    0 <= s < c && 0 <= a < r ==> #[trigger] aqk.at(s, a) == (if s <= a {
                        grid::t_prod(x.kd(), qf, kf)(a, s).times(scale)
                    } else {
                        F::nil()
                    }),
                forall|a: int, s: int|
                    0 <= s < c && 0 <= a < r ==> #[trigger] akk.at(a, s) == (if s < a {
                        grid::t_prod(x.kd(), bf, kf)(a, s)
                    } else {
                        F::nil()
                    }),
        {
            for s in 0..c
                invariant
                    c == x.c(),
                    r < c,
                    qk.holds(x.c(), x.c(), grid::t_prod(x.kd(), qf, kf)),
                    kk.holds(x.c(), x.c(), grid::t_prod(x.kd(), bf, kf)),
                    aqk.shaped(x.c(), x.c()),
                    akk.shaped(x.c(), x.c()),
                    forall|l: int, a: int|
                        0 <= l < c && (0 <= a < r || (a == r && l < s)) ==> #[trigger] aqk.at(l, a)
                            == (if l <= a {
                            grid::t_prod(x.kd(), qf, kf)(a, l).times(scale)
                        } else {
                            F::nil()
                        }),
                    forall|a: int, l: int|
                        0 <= l < c && (0 <= a < r || (a == r && l < s)) ==> #[trigger] akk.at(a, l)
                            == (if l < a {
                            grid::t_prod(x.kd(), bf, kf)(a, l)
                        } else {
                            F::nil()
                        }),
            {
                let (p, q) = if s <= r {
                    (qk.get(r, s).mul(scale), if s < r { kk.get(r, s) } else { F::zero() })
                } else {
                    (F::zero(), F::zero())
                };
                aqk.set(s, r, p);
                akk.set(r, s, q);
            }
        }
        y.aqk.set_block(n, &aqk);
        y.akk.set_block(n, &akk);
        assert forall|a: int| 0 <= a < n + 1 implies #[trigger] y.scores_are(*x, scale, a) by {
            if a < n {
                assert(before.scores_are(*x, scale, a));
            }
        }
    }
}

/// Phase 4: the inverse of `I + akk`.
fn inverse_phase<F: Scalar>(x: &IntraIn<F>, y: &mut IntraBuffers<F>)
    requires
        x.wf(),
        old(y).shaped(x.blocks(), x.c(), x.kd(), x.vd()),
    ensures
        final(y).shaped(x.blocks(), x.c(), x.kd(), x.vd()),
        *final(y) == (IntraBuffers { m_inv: final(y).m_inv, ..*old(y) }),
        forall|n: int| 0 <= n < x.blocks() ==> #[trigger] final(y).inverse_is(*x, n),
{
    for n in 0..x.q.d0
        invariant
            x.wf(),
            y.shaped(x.blocks(), x.c(), x.kd(), x.vd()),
            *y == (IntraBuffers { m_inv: y.m_inv, ..*old(y) }),
            forall|a: int| 0 <= a < n ==> #[trigger] y.inverse_is(*x, a),
    {
        let ghost before = *y;
        let kk = y.akk.block_matrix(n);
        let m = forward::invert_unit_lower(&kk, Ghost(block(y.akk, n as int)));
        y.m_inv.set_block(n, &m);
        assert forall|a: int| 0 <= a < n + 1 implies #[trigger] y.inverse_is(*x, a) by {
            if a < n {
                assert(before.inverse_is(*x, a));
            }
        }
    }
}

/// Phase 5: the pseudo-keys and pseudo-values.
fn pseudo_phase<F: Scalar>(x: &IntraIn<F>, y: &mut IntraBuffers<F>)
    requires
        x.wf(),
        old(y).shaped(x.blocks(), x.c(), x.kd(), x.vd()),
    ensures
        final(y).shaped(x.blocks(), x.c(), x.kd(), x.vd()),
        *final(y) == (IntraBuffers { w: final(y).w, u: final(y).u, ..*old(y) }),
        forall|n: int| 0 <= n < x.blocks() ==> #[trigger] final(y).pseudo_are(*x, n),
{
    for n in 0..x.q.d0
        invariant
            x.wf(),
            y.shaped(x.blocks(), x.c(), x.kd(), x.vd()),
            *y == (IntraBuffers { w: y.w, u: y.u, ..*old(y) }),
            forall|a: int| 0 <= a < n ==> #[trigger] y.pseudo_are(*x, a),
    {
        let ghost before = *y;
        let m = y.m_inv.block_matrix(n);
        let bk = y.bkt.block_matrix(n);
        let wv = y.wvt.block_matrix(n);
        let ghost mf = block(y.m_inv, n as int);
        let wk = x.k.block_matrix(n);
        let wv2 = x.v.block_matrix(n);
        assert(wk.wf() && wv2.wf());
        let w = linalg::product_rows_of(
            &m,
            &bk,
            Ghost(x.c()),
            Ghost(mf),
            Ghost(block(y.bkt, n as int)),
        );
        let u = linalg::product_rows_of(
            &m,
            &wv,
            Ghost(x.c()),
            Ghost(mf),
            Ghost(block(y.wvt, n as int)),
        );
        y.w.set_block(n, &w.transposed());
        y.u.set_block(n, &u.transposed());
        assert forall|a: int| 0 <= a < n + 1 implies #[trigger] y.pseudo_are(*x, a) by {
            if a < n {
                assert(before.pseudo_are(*x, a));
            }
        }
    }
}

/// Bits of the phases of the first kernel.
pub const STAGE_DECAYS: u32 = 1;

pub const STAGE_SCORES: u32 = 2;

pub const STAGE_INVERSE: u32 = 4;

pub const STAGE_PSEUDO: u32 = 8;

pub const STAGE_GATES: u32 = 16;

/// All phases of the first kernel.
pub const STAGES_INTRA: u32 = 31;

/// The first kernel: the phases in `stages`, in the order decays, gates, scores, inverse,
/// pseudo-keys and pseudo-values, each reading what the buffers hold when its turn comes. Buffers
/// of phases that are left out keep their contents.
pub fn gdn2_chunk_intra_kernel<F: Scalar>(
    x: &IntraIn<F>,
    y: &mut IntraBuffers<F>,
    scale: F,
    stages: u32,
)
    requires
        x.wf(),
        x.c() >= 1,
        old(y).shaped(x.blocks(), x.c(), x.kd(), x.vd()),
    ensures
        final(y).shaped(x.blocks(), x.c(), x.kd(), x.vd()),
        stages & STAGE_DECAYS != 0 ==> forall|n: int|
            0 <= n < x.blocks() ==> #[trigger] final(y).decays_are(*x, n),
        stages & STAGE_DECAYS == 0 ==> final(y).gexp == old(y).gexp,
        stages & STAGE_GATES != 0 ==> forall|n: int|
            0 <= n < x.blocks() ==> #[trigger] final(y).gates_are(*x, n),
        stages & STAGE_GATES == 0 ==> final(y).kgt == old(y).kgt && final(y).bkt == old(y).bkt
            && final(y).qgt == old(y).qgt && final(y).kgd == old(y).kgd && final(y).glast == old(
            y,
        ).glast && final(y).wvt == old(y).wvt,
        stages & STAGE_SCORES != 0 ==> forall|n: int|
            0 <= n < x.blocks() ==> #[trigger] final(y).scores_are(*x, scale, n),
        stages & STAGE_SCORES == 0 ==> final(y).aqk == old(y).aqk && final(y).akk == old(y).akk,
        stages & STAGE_INVERSE != 0 ==> forall|n: int|
            0 <= n < x.blocks() ==> #[trigger] final(y).inverse_is(*x, n),
        stages & STAGE_INVERSE == 0 ==> final(y).m_inv == old(y).m_inv,
        stages & STAGE_PSEUDO != 0 ==> forall|n: int|
            0 <= n < x.blocks() ==> #[trigger] final(y).pseudo_are(*x, n),
        stages & STAGE_PSEUDO == 0 ==> final(y).w == old(y).w && final(y).u == old(y).u,
{
    if stages & STAGE_DECAYS != 0 {
        decay_phase(x, y);
    }
    let ghost y1 = *y;
    if stages & STAGE_GATES != 0 {
        gate_phase(x, y);
    }
    let ghost y2 = *y;
    if stages & STAGE_SCORES != 0 {
        score_phase(x, y, scale);
    }
    let ghost y3 = *y;
    if stages & STAGE_INVERSE != 0 {
        inverse_phase(x, y);
    }
    let ghost y4 = *y;
    if stages & STAGE_PSEUDO != 0 {
        pseudo_phase(x, y);
    }
    proof {
        assert forall|n: int| 0 <= n < x.blocks() && stages & STAGE_DECAYS != 0 implies #[trigger] y.decays_are(
        *x, n) by {
            assert(y1.decays_are(*x, n));
        }
        assert forall|n: int| 0 <= n < x.blocks() && stages & STAGE_GATES != 0 implies #[trigger] y.gates_are(
        *x, n) by {
            assert(y2.gates_are(*x, n));
        }
        assert forall|n: int| 0 <= n < x.blocks() && stages & STAGE_SCORES != 0 implies #[trigger] y.scores_are(
        *x, scale, n) by {
            assert(y3.scores_are(*x, scale, n));
        }
        assert forall|n: int| 0 <= n < x.blocks() && stages & STAGE_INVERSE != 0 implies #[trigger] y.inverse_is(
        *x, n) by {
            assert(y4.inverse_is(*x, n));
        }
    }
}

/// What the second kernel computes: the buffers of the first, the number of chunks of a head, and
/// which of its phases run.
pub struct Inter<F> {
    pub y: IntraBuffers<F>,
    pub nt: int,
    pub c: int,
    pub kd: int,
    pub vd: int,
    pub scale: F,
    /// Whether the state is updated.
    pub update: bool,
}

impl<F: Scalar> Inter<F> {
    /// The values that block `n` writes, from the state `s` before it.
    pub open spec fn v_new(self, n: int, s: Grid<F>) -> Grid<F> {
        grid::minus(block_t(self.y.u, n), grid::t_prod(self.kd, block(self.y.w, n), s))
    }

    /// The outputs of block `n`.
    pub open spec fn out(self, n: int, s: Grid<F>) -> Grid<F> {
        grid::plus(
            grid::t_prod(self.c, block(self.y.aqk, n), self.v_new(n, s)),
            grid::scaled(grid::t_prod(self.kd, block(self.y.qgt, n), s), self.scale),
        )
    }

    /// The state after block `n`.
    pub open spec fn next(self, n: int, s: Grid<F>) -> Grid<F> {
        grid::plus(
            grid::times(s, |i: int, j: int| self.y.glast.at(n, i)),
            grid::t_prod(self.c, block(self.y.kgd, n), self.v_new(n, s)),
        )
    }

    /// The state before chunk `t` of head `h`, from the state `s` before the first.
    pub open spec fn state(self, h: int, s: Grid<F>, t: int) -> Grid<F>
        decreases t,
    {
        if t <= 0 || !self.update {
            s
        } else {
            self.next(h * self.nt + t - 1, self.state(h, s, t - 1))
        }
    }
}

/// Columns `vs ..` of a matrix.
spec fn shifted<F: Scalar>(a: Grid<F>, vs: int) -> Grid<F> {
    |i: int, j: int| a(i, vs + j)
}

/// A product takes columns to columns.
proof fn lemma_shifted_product<F: Scalar>(n: int, a: Grid<F>, b: Grid<F>, vs: int, i: int, j: int)
    ensures
        grid::t_prod(n, a, shifted(b, vs))(i, j) == grid::t_prod(n, a, b)(i, vs + j),
{
    let f = |l: int| a(l, i).times(shifted(b, vs)(l, j));
    let f2 = |l: int| a(l, i).times(b(l, vs + j));
    crate::algebra::lemma_total_eq(n, f, f2);
}

/// `x = x g`, row `i` times element `i` of row `n` of `g`, plus `d`.
pub(crate) fn decay_and_add<F: Scalar>(x: &Matrix<F>, g: &Matrix<F>, n: usize, d: &Matrix<F>) -> (r: Matrix<F>)
    requires
        x.wf(),
        g.wf(),
        n < g.rows,
        g.cols == x.rows,
        d.shaped(x.rows as int, x.cols as int),
    ensures
        r.shaped(x.rows as int, x.cols as int),
        forall|i: int, j: int|
            0 <= i < x.rows && 0 <= j < x.cols ==> #[trigger] r.at(i, j) == x.at(i, j).times(
                g.at(n as int, i),
            ).plus(d.at(i, j)),
{
    let mut r = x.copy();
    for i in 0..x.rows
        invariant
            x.wf(),
            g.wf(),
            n < g.rows,
            g.cols == x.rows,
            d.shaped(x.rows as int, x.cols as int),
            r.shaped(x.rows as int, x.cols as int),
            forall|a: int, j: int|
                0 <= a < i && 0 <= j < x.cols ==> #[trigger] r.at(a, j) == x.at(a, j).times(
                    g.at(n as int, a),
                ).plus(d.at(a, j)),
    {
        for j in 0..x.cols
            invariant
                x.wf(),
                g.wf(),
                n < g.rows,
                g.cols == x.rows,
                i < x.rows,
                d.shaped(x.rows as int, x.cols as int),
                r.shaped(x.rows as int, x.cols as int),
                forall|a: int, l: int|
                    0 <= l < x.cols && (0 <= a < i || (a == i && l < j)) ==> #[trigger] r.at(a, l)
                        == x.at(a, l).times(g.at(n as int, a)).plus(d.at(a, l)),
        {
            r.set(i, j, x.get(i, j).mul(g.get(n, i)).add(d.get(i, j)));
        }
    }
    r
}

/// The second kernel on columns `vs .. vs + width` of head `h`.
fn inter_tile<F: Scalar>(
    y: &IntraBuffers<F>,
    h: usize,
    nt: usize,
    vs: usize,
    width: usize,
    scale: F,
    emit: bool,
    update: bool,
    state: &mut Tensor3<F>,
    out: &mut Tensor3<F>,
    Ghost(p): Ghost<Inter<F>>,
)
    requires
        *y == p.y,
        nt == p.nt,
        scale == p.scale,
        update == p.update,
        0 <= p.c,
        y.shaped(old(out).d0 as int, p.c, p.kd, p.vd),
        vs + width <= p.vd,
        h < old(state).d0,
        old(out).d0 == old(state).d0 * nt,
        old(state).shaped(old(state).d0 as int, p.kd, p.vd),
        old(out).shaped(old(out).d0 as int, p.c, p.vd),
    ensures
        final(state).shaped(old(state).d0 as int, p.kd, p.vd),
        final(out).shaped(old(out).d0 as int, p.c, p.vd),
        forall|a: int, i: int, j: int|
            0 <= a < old(state).d0 && 0 <= i < p.kd && 0 <= j < p.vd ==> #[trigger] final(state).at(a, i, j) == (if a == h && vs <= j < vs + width {
                p.state(h as int, block(*old(state), h as int), nt as int)(i, j)
            } else {
                old(state).at(a, i, j)
            }),
        forall|n: int, r: int, j: int|
            0 <= n < old(out).d0 && 0 <= r < p.c && 0 <= j < p.vd ==> #[trigger] final(out).at(
                n,
                r,
                j,
            ) == (if emit && h * nt <= n < h * nt + nt && vs <= j < vs + width {
                p.out(
                    n,
                    p.state(h as int, block(*old(state), h as int), n - h * nt),
                )(r, j)
            } else {
                old(out).at(n, r, j)
            }),
{
    let ghost s0 = block(*state, h as int);
    let ghost blocks = out.d0 as int;
    proof {
        let (d, hh, k) = (state.d0 as int, h as int, nt as int);
        assert(hh * k + k <= d * k) by (nonlinear_arith)
            requires
                0 <= hh < d,
                0 <= k,
        ;
        assert(0 <= hh * k) by (nonlinear_arith)
            requires
                0 <= hh,
                0 <= k,
        ;
    }
    let mut s = state.columns(h, vs, width);
    for t in 0..nt
        invariant
            *y == p.y,
            nt == p.nt,
            scale == p.scale,
            update == p.update,
            0 <= p.c,
            blocks == out.d0,
            y.shaped(blocks, p.c, p.kd, p.vd),
            vs + width <= p.vd,
            0 <= h * nt,
            h * nt + nt <= blocks,
            blocks <= usize::MAX,
            out.shaped(blocks, p.c, p.vd),
            s.holds(p.kd, width as int, shifted(p.state(h as int, s0, t as int), vs as int)),
            forall|n: int, r: int, j: int|
                0 <= n < blocks && 0 <= r < p.c && 0 <= j < p.vd ==> #[trigger] out.at(n, r, j)
                    == (if emit && h * nt <= n < h * nt + t && vs <= j < vs + width {
                    p.out(n, p.state(h as int, s0, n - h * nt))(r, j)
                } else {
                    old(out).at(n, r, j)
                }),
    {
        let n: usize = h * nt + t;
        let ghost st = p.state(h as int, s0, t as int);
        let ghost sf = shifted(st, vs as int);
        let w = y.w.block_matrix(n);
        let u = y.u.block_matrix(n);
        let ut = u.transposed();
        let ws_room = out.columns(n, vs, width);
        let s_room = s.copy();
        assert(ws_room.wf() && s_room.wf());
        let ws = linalg::product_cols_of(&w, &s, Ghost(p.kd), Ghost(block(p.y.w, n as int)), Ghost(sf));
        let mut vn = ws_room.copy();
        let c: usize = vn.rows;
        for r in 0..c
            invariant
                c == p.c,
                vs + width <= p.vd,
                ut.shaped(p.c, p.vd),
                ws.shaped(p.c, width as int),
                vn.shaped(p.c, width as int),
                forall|a: int, j: int|
                    0 <= a < r && 0 <= j < width ==> #[trigger] vn.at(a, j) == ut.at(
                        a,
                        vs + j,
                    ).minus(ws.at(a, j)),
        {
            for j in 0..width
                invariant
                    c == p.c,
                    vs + width <= p.vd,
                    r < c,
                    ut.shaped(p.c, p.vd),
                    ws.shaped(p.c, width as int),
                    vn.shaped(p.c, width as int),
                    forall|a: int, l: int|
                        0 <= l < width && (0 <= a < r || (a == r && l < j)) ==> #[trigger] vn.at(
                            a,
                            l,
                        ) == ut.at(a, vs + l).minus(ws.at(a, l)),
            {
                vn.set(r, j, ut.get(r, vs + j).sub(ws.get(r, j)));
            }
        }
        let ghost vf = shifted(p.v_new(n as int, st), vs as int);
        assert(vn.holds(p.c, width as int, vf)) by {
            assert forall|r: int, j: int| 0 <= r < p.c && 0 <= j < width implies #[trigger] vn.at(
                r,
                j,
            ) == vf(r, j) by {
                lemma_shifted_product(p.kd, block(p.y.w, n as int), st, vs as int, r, j);
            }
        }
        if emit {
            let aqk = y.aqk.block_matrix(n);
            let qg = y.qgt.block_matrix(n);
            let av = linalg::product_cols_of(
                &aqk,
                &vn,
                Ghost(p.c),
                Ghost(block(p.y.aqk, n as int)),
                Ghost(vf),
            );
            let qs = linalg::product_cols_of(
                &qg,
                &s,
                Ghost(p.kd),
                Ghost(block(p.y.qgt, n as int)),
                Ghost(sf),
            );
            let o = linalg::elementwise(Op::Add, &av, &linalg::scale(&qs, scale));
            assert forall|r: int, j: int| 0 <= r < p.c && 0 <= j < width implies #[trigger] o.at(
                r,
                j,
            ) == p.out(n as int, st)(r, vs + j) by {
                let v = p.v_new(n as int, st);
                lemma_shifted_product(p.c, block(p.y.aqk, n as int), v, vs as int, r, j);
                lemma_shifted_product(p.kd, block(p.y.qgt, n as int), st, vs as int, r, j);
            }
            out.set_columns(n, vs, &o);
        }
        if update {
            let kgd = y.kgd.block_matrix(n);
            let kv = linalg::product_cols_of(
                &kgd,
                &vn,
                Ghost(p.c),
                Ghost(block(p.y.kgd, n as int)),
                Ghost(vf),
            );
            let next = decay_and_add(&s, &y.glast, n, &kv);
            assert forall|i: int, j: int| 0 <= i < p.kd && 0 <= j < width implies #[trigger] next.at(
                i,
                j,
            ) == p.next(n as int, st)(i, vs + j) by {
                let v = p.v_new(n as int, st);
                lemma_shifted_product(p.c, block(p.y.kgd, n as int), v, vs as int, i, j);
            }
            s = next;
        }
    }
    state.set_columns(h, vs, &s);
}

/// Bits of the phases of the second kernel.
pub const STAGE_WRITES: u32 = 1;

pub const STAGE_OUTPUTS: u32 = 2;

pub const STAGE_STATE: u32 = 4;

/// All phases of the second kernel.
pub const STAGES_INTER: u32 = 7;

/// The second kernel: for each head the recurrence over its `nt` chunks, `vtile` value columns at
/// a time. `state` becomes the state after the last chunk where `stages` has the bit of the state,
/// and `out` receives the outputs where it has that of the outputs.
pub fn gdn2_chunk_inter_kernel<F: Scalar>(
    y: &IntraBuffers<F>,
    state: &mut Tensor3<F>,
    out: &mut Tensor3<F>,
    scale: F,
    nt: usize,
    vtile: usize,
    stages: u32,
)
    requires
        vtile > 0,
        stages & STAGE_WRITES != 0,
        old(state).wf(),
        old(out).wf(),
        old(out).d0 == old(state).d0 * nt,
        old(out).d2 == old(state).d2,
        y.shaped(
            old(out).d0 as int,
            old(out).d1 as int,
            old(state).d1 as int,
            old(state).d2 as int,
        ),
    ensures
        final(state).shaped(old(state).d0 as int, old(state).d1 as int, old(state).d2 as int),
        final(out).shaped(old(out).d0 as int, old(out).d1 as int, old(out).d2 as int),
        forall|h: int, i: int, j: int|
            0 <= h < old(state).d0 && 0 <= i < old(state).d1 && 0 <= j < old(state).d2
                ==> #[trigger] final(state).at(h, i, j) == inter_of(
                *y,
                *old(state),
                *old(out),
                scale,
                nt as int,
                stages,
            ).state(h, block(*old(state), h), nt as int)(i, j),
        stages & STAGE_OUTPUTS != 0 ==> forall|h: int, t: int, r: int, j: int|
            0 <= h < old(state).d0 && 0 <= t < nt && 0 <= r < old(out).d1 && 0 <= j < old(out).d2
                ==> #[trigger] final(out).at(h * nt + t, r, j) == inter_of(
                *y,
                *old(state),
                *old(out),
                scale,
                nt as int,
                stages,
            ).out(
                h * nt + t,
                inter_of(*y, *old(state), *old(out), scale, nt as int, stages).state(
                    h,
                    block(*old(state), h),
                    t,
                ),
            )(r, j),
        stages & STAGE_OUTPUTS == 0 ==> forall|n: int, r: int, j: int|
            0 <= n < old(out).d0 && 0 <= r < old(out).d1 && 0 <= j < old(out).d2
                ==> #[trigger] final(out).at(n, r, j) == old(out).at(n, r, j),
{
    let ghost p = inter_of(*y, *state, *out, scale, nt as int, stages);
    let emit: bool = stages & STAGE_OUTPUTS != 0;
    let update: bool = stages & STAGE_STATE != 0;
    let heads: usize = state.d0;
    let vd: usize = state.d2;
    for h in 0..heads
        invariant
            vtile > 0,
            p == inter_of(*y, *old(state), *old(out), scale, nt as int, stages),
            emit == (stages & STAGE_OUTPUTS != 0),
            update == p.update,
            heads == old(state).d0,
            vd == p.vd,
            state.shaped(heads as int, p.kd, p.vd),
            out.shaped(old(out).d0 as int, p.c, p.vd),
            old(out).d0 == heads * nt,
            y.shaped(old(out).d0 as int, p.c, p.kd, p.vd),
            forall|a: int, i: int, j: int|
                0 <= a < heads && 0 <= i < p.kd && 0 <= j < p.vd ==> #[trigger] state.at(a, i, j)
                    == (if a < h {
                    p.state(a, block(*old(state), a), nt as int)(i, j)
                } else {
                    old(state).at(a, i, j)
                }),
            forall|a: int, t: int, r: int, j: int|
                0 <= a < heads && 0 <= t < nt && 0 <= r < p.c && 0 <= j < p.vd
                    ==> #[trigger] out.at(a * nt + t, r, j) == (if emit && a < h {
                    p.out(a * nt + t, p.state(a, block(*old(state), a), t))(r, j)
                } else {
                    old(out).at(a * nt + t, r, j)
                }),
            !emit ==> forall|n: int, r: int, j: int|
                0 <= n < old(out).d0 && 0 <= r < p.c && 0 <= j < p.vd ==> #[trigger] out.at(n, r, j)
                    == old(out).at(n, r, j),
    {
        let mut vs: usize = 0;
        while vs < vd
            invariant
                vtile > 0,
                p == inter_of(*y, *old(state), *old(out), scale, nt as int, stages),
                emit == (stages & STAGE_OUTPUTS != 0),
                update == p.update,
                heads == old(state).d0,
                h < heads,
                vd == p.vd,
                vs <= vd,
                state.shaped(heads as int, p.kd, p.vd),
                out.shaped(old(out).d0 as int, p.c, p.vd),
                old(out).d0 == heads * nt,
                y.shaped(old(out).d0 as int, p.c, p.kd, p.vd),
                forall|a: int, i: int, j: int|
                    0 <= a < heads && 0 <= i < p.kd && 0 <= j < p.vd ==> #[trigger] state.at(
                        a,
                        i,
                        j,
                    ) == (if a < h || (a == h && j < vs) {
                        p.state(a, block(*old(state), a), nt as int)(i, j)
                    } else {
                        old(state).at(a, i, j)
                    }),
                forall|a: int, t: int, r: int, j: int|
                    0 <= a < heads && 0 <= t < nt && 0 <= r < p.c && 0 <= j < p.vd
                        ==> #[trigger] out.at(a * nt + t, r, j) == (if emit && (a < h || (a == h
                        && j < vs)) {
                        p.out(a * nt + t, p.state(a, block(*old(state), a), t))(r, j)
                    } else {
                        old(out).at(a * nt + t, r, j)
                    }),
                !emit ==> forall|n: int, r: int, j: int|
                    0 <= n < old(out).d0 && 0 <= r < p.c && 0 <= j < p.vd ==> #[trigger] out.at(
                        n,
                        r,
                        j,
                    ) == old(out).at(n, r, j),
            decreases vd - vs,
        {
            let width: usize = if vd - vs < vtile {
                vd - vs
            } else {
                vtile
            };
            let ghost state1 = *state;
            let ghost out1 = *out;
            inter_tile(y, h, nt, vs, width, scale, emit, update, state, out, Ghost(p));
            proof {
                // The columns of the tile depend on those columns of the initial state alone.
                let s1 = block(state1, h as int);
                let s0 = block(*old(state), h as int);
                lemma_columns_alone(p, h as int, s1, s0, vs as int, vs + width, nt as int);
                assert forall|a: int, t: int, r: int, j: int|
                    0 <= a < heads && 0 <= t < nt && 0 <= r < p.c && 0 <= j
                        < p.vd implies #[trigger] out.at(a * nt + t, r, j) == (if emit && (a < h
                    || (a == h && j < vs + width)) {
                    p.out(a * nt + t, p.state(a, block(*old(state), a), t))(r, j)
                } else {
                    old(out).at(a * nt + t, r, j)
                }) by {
                    lemma_block_index(heads as int, nt as int, a, t, h as int);
                    if a == h && vs <= j < vs + width {
                        lemma_columns_alone(p, a, s1, s0, vs as int, vs + width, t);
                        lemma_out_columns(
                            p,
                            a * nt + t,
                            p.state(a, s1, t),
                            p.state(a, s0, t),
                            r,
                            j,
                        );
                    }
                }
            }
            vs = vs + width;
        }
    }
}

/// Where block `a nt + t` lies.
proof fn lemma_block_index(heads: int, nt: int, a: int, t: int, h: int)
    requires
        0 <= a < heads,
        0 <= t < nt,
    ensures
        0 <= a * nt + t < heads * nt,
        h * nt <= a * nt + t < h * nt + nt <==> a == h,
{
    crate::index::lemma_flat2_bound(heads, nt, a, t);
    if h * nt <= a * nt + t < h * nt + nt {
        assert(a == h) by (nonlinear_arith)
            requires
                0 <= t < nt,
                h * nt <= a * nt + t < h * nt + nt,
        ;
    }
}

/// The second kernel on these buffers.
pub open spec fn inter_of<F: Scalar>(
    y: IntraBuffers<F>,
    state: Tensor3<F>,
    out: Tensor3<F>,
    scale: F,
    nt: int,
    stages: u32,
) -> Inter<F> {
    Inter {
        y,
        nt,
        c: out.d1 as int,
        kd: state.d1 as int,
        vd: state.d2 as int,
        scale,
        update: stages & STAGE_STATE != 0,
    }
}

/// A column of the written values depends on that column of the state alone.
proof fn lemma_v_new_columns<F: Scalar>(
    p: Inter<F>,
    n: int,
    s1: Grid<F>,
    s2: Grid<F>,
    r: int,
    j: int,
)
    requires
        forall|i: int| 0 <= i < p.kd ==> #[trigger] s1(i, j) == s2(i, j),
    ensures
        p.v_new(n, s1)(r, j) == p.v_new(n, s2)(r, j),
{
    let f = |l: int| block(p.y.w, n)(l, r).times(s1(l, j));
    let f2 = |l: int| block(p.y.w, n)(l, r).times(s2(l, j));
    assert forall|l: int| 0 <= l < p.kd implies #[trigger] f(l) == f2(l) by {
        assert(s1(l, j) == s2(l, j));
    }
    crate::algebra::lemma_total_eq(p.kd, f, f2);
}

/// A column of the outputs depends on that column of the state alone.
pub(crate) proof fn lemma_out_columns<F: Scalar>(
    p: Inter<F>,
    n: int,
    s1: Grid<F>,
    s2: Grid<F>,
    r: int,
    j: int,
)
    requires
        forall|i: int| 0 <= i < p.kd ==> #[trigger] s1(i, j) == s2(i, j),
    ensures
        p.out(n, s1)(r, j) == p.out(n, s2)(r, j),
{
    let f = |l: int| block(p.y.aqk, n)(l, r).times(p.v_new(n, s1)(l, j));
    let f2 = |l: int| block(p.y.aqk, n)(l, r).times(p.v_new(n, s2)(l, j));
    assert forall|l: int| 0 <= l < p.c implies #[trigger] f(l) == f2(l) by {
        lemma_v_new_columns(p, n, s1, s2, l, j);
    }
    crate::algebra::lemma_total_eq(p.c, f, f2);
    let g = |l: int| block(p.y.qgt, n)(l, r).times(s1(l, j));
    let g2 = |l: int| block(p.y.qgt, n)(l, r).times(s2(l, j));
    assert forall|l: int| 0 <= l < p.kd implies #[trigger] g(l) == g2(l) by {
        assert(s1(l, j) == s2(l, j));
    }
    crate::algebra::lemma_total_eq(p.kd, g, g2);
}

/// Columns of the states depend on those columns of the initial state alone.
pub(crate) proof fn lemma_columns_alone<F: Scalar>(
    p: Inter<F>,
    h: int,
    s1: Grid<F>,
    s2: Grid<F>,
    lo: int,
    hi: int,
    t: int,
)
    requires
        forall|i: int, j: int|
            0 <= i < p.kd && lo <= j < hi ==> #[trigger] s1(i, j) == s2(i, j),
    ensures
        forall|i: int, j: int|
            0 <= i < p.kd && lo <= j < hi ==> #[trigger] p.state(h, s1, t)(i, j) == p.state(
                h,
                s2,
                t,
            )(i, j),
    decreases t,
{
    if t > 0 && p.update {
        lemma_columns_alone(p, h, s1, s2, lo, hi, t - 1);
        let (a, b) = (p.state(h, s1, t - 1), p.state(h, s2, t - 1));
        let n = h * p.nt + t - 1;
        assert forall|i: int, j: int| 0 <= i < p.kd && lo <= j < hi implies #[trigger] p.state(
            h,
            s1,
            t,
        )(i, j) == p.state(h, s2, t)(i, j) by {
            assert forall|l: int| 0 <= l < p.kd implies #[trigger] a(l, j) == b(l, j) by {}
            let f = |l: int| block(p.y.kgd, n)(l, i).times(p.v_new(n, a)(l, j));
            let f2 = |l: int| block(p.y.kgd, n)(l, i).times(p.v_new(n, b)(l, j));
            assert forall|l: int| 0 <= l < p.c implies #[trigger] f(l) == f2(l) by {
                lemma_v_new_columns(p, n, a, b, l, j);
            }
            crate::algebra::lemma_total_eq(p.c, f, f2);
            assert(a(i, j) == b(i, j));
        }
    }
}

} // verus!
