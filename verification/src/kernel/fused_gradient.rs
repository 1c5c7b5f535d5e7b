//! The backward kernels return the gradient of the recurrence in exact arithmetic.

use vstd::prelude::*;

use crate::adjoint::{Exports, Tape};
use crate::algebra;
use crate::equivalence;
use crate::gradient;
use crate::gradient::TokenGradients;
use crate::grid;
use crate::grid::Grid;
use crate::index;
use crate::kernel::chunk_adjoint_cube::{BackPass, Chain, FusedBackwardOutput};
use crate::kernel::chunk_cube;
use crate::kernel::fused_chunk;
use crate::kernel::fused_chunk::FusedHead;
use crate::locality;
use crate::pairing;
use crate::recurrence::Head;
use crate::scalar;
use crate::scalar::{ExactScalar, Scalar};
use crate::streams;
use crate::streams::Streams;
use crate::tensor::Tensor4;
use crate::wy::Chunking;

verus! {

impl<F: Scalar> FusedHead<F> {
    /// What the forward kernels leave of chunk `t`.
    pub open spec fn exports(self, t: int) -> Exports<F> {
        let k = self.block(t);
        Exports {
            n: k.c,
            rows: k.c,
            kd: k.kd,
            vd: k.vd,
            k: k.k,
            v: k.v,
            b: k.b,
            w: k.w,
            e: k.e(),
            el: |i: int| k.e()(k.c - 1, i),
            qg: |r: int, i: int| k.qgt()(i, r),
            aqk: |r: int, s: int| k.aqk()(s, r),
            m: k.m(),
            s: self.state(t),
            pk: |r: int, i: int| k.pk()(i, r),
            pv: |r: int, j: int| k.pv()(j, r),
            fresh: k.v_new(self.state(t)),
            scale: k.scale,
        }
    }

    /// The first `n` chunks, with the gradients of their outputs.
    pub open spec fn chain(self, n: int, d_out: Grid<F>) -> Chain<F> {
        Chain {
            nt: n,
            exports: |t: int| self.exports(t),
            d_out: |t: int| (|r: int, j: int| d_out(t * self.c + r, j)),
        }
    }

    /// The first `n` chunks, each a tile.
    pub open spec fn chunking(self, n: int) -> Chunking<F> {
        Chunking {
            head: self.head,
            tokens: n * self.c,
            size: self.c,
            tile: self.c,
            s: self.s,
            saved: None,
        }
    }
}

/// The chunks of a tape.
pub open spec fn tape_chain<F: Scalar>(tape: Tape<F>) -> Chain<F> {
    Chain {
        nt: tape.count(),
        exports: |t: int| tape.replay(t, tape.state(t)).exports(),
        d_out: |t: int| tape.padded(tape.d_out, t),
    }
}

/// A tape and its chunks pass back the same gradients.
proof fn lemma_tape_chain<F: Scalar>(tape: Tape<F>, t: int)
    ensures
        tape_chain(tape).passed_back(t) == tape.passed_back(t),
        tape_chain(tape).adjoint(t) == tape.adjoint(t),
    decreases tape.count() - t,
{
    if t + 1 < tape.count() {
        lemma_tape_chain(tape, t + 1);
    }
}

/// Whole chunks are as long as all others.
pub proof fn lemma_whole_chunks<F: Scalar>(f: FusedHead<F>, n: int)
    requires
        f.c >= 1,
        n >= 0,
    ensures
        f.chunking(n).count() == n,
        f.chunking(n).tokens >= 0,
        forall|t: int| 0 <= t < n ==> #[trigger] f.chunking(n).len(t) == f.c,
        f.chunking(n).tiles_decay(),
{
    let c = f.c;
    assert((n * c + c - 1) / c == n && n * c >= 0) by (nonlinear_arith)
        requires
            c >= 1,
            n >= 0,
    ;
    assert forall|t: int| 0 <= t < n implies #[trigger] f.chunking(n).len(t) == f.c by {
        assert((t + 1) * c <= n * c) by (nonlinear_arith)
            requires
                t + 1 <= n,
                c >= 1,
        ;
    }
    let ck = f.chunking(n);
    assert forall|t: int| 0 <= t < ck.count() implies (#[trigger] ck.chunk(t)).tiles_decay() by {
        assert(ck.len(t) == f.c);
    }
}

/// What the kernels leave of a chunk is what the matrix form computes.
pub proof fn lemma_exports<F: ExactScalar>(f: FusedHead<F>, n: int, t: int)
    requires
        f.c >= 1,
        0 <= t < n,
    ensures
        f.exports(t).agrees(gradient::replay_of(f.chunking(n).chunk(t)).exports()),
{
    lemma_whole_chunks(f, n);
    let ck = f.chunking(n);
    let ch = ck.chunk(t);
    let k = f.block(t);
    let (c, kd, vd) = (f.c, k.kd, k.vd);
    let (x, y) = (f.exports(t), gradient::replay_of(ch).exports());
    assert(ck.len(t) == c);
    assert(ch.n == c && ch.rows == c);
    assert forall|r: int, i: int| 0 <= r < c implies #[trigger] k.e()(r, i) == ch.e(r, i) by {
        let g = |l: int| (k.g)(l, i);
        let g2 = |l: int| (ch.g)(l, i);
        algebra::lemma_compensated(r + 1, g);
        algebra::lemma_total_eq(r + 1, g, g2);
    }
    let (st, su) = (f.state(t), ck.state(t));
    assert(pairing::agree(kd, vd, st, su)) by {
        fused_chunk::kernels_are_recurrence(f, t);
        equivalence::lemma_chunks_agree(ck, t);
        assert(equivalence::chunk_start(ck, t) == t * c);
        assert forall|i: int, j: int| 0 <= i < kd && 0 <= j < vd implies #[trigger] st(i, j) == su(
            i,
            j,
        ) by {
            assert(f.state(t)(i, j) == f.head.run(f.s, 0, t * c)(i, j));
            assert(ck.state(t)(i, j) == ck.head.run(ck.s, 0, t * c)(i, j));
        }
    }
    let (akk, akk2) = (k.akk(), |a: int, b: int| ch.akk(a, b));
    assert forall|r: int, s: int| 0 <= r < c && 0 <= s < c implies #[trigger] akk(r, s) == akk2(
        r,
        s,
    ) by {
        let h = |i: int| k.bkt()(i, r).times(k.kgt()(i, s));
        let h2 = |i: int| ch.rhs_k(r, i).times(ch.kg(s, i));
        algebra::lemma_total_eq(kd, h, h2);
        let z = scalar::total(kd, h2);
        if s < r {
            F::times_unit(z);
        } else {
            F::times_commutes(z, F::nil());
            algebra::lemma_times_nil(z);
        }
    }
    assert forall|r: int, s: int| 0 <= r < c && 0 <= s < c implies #[trigger] (x.aqk)(r, s)
        == (y.aqk)(r, s) by {
        let h = |i: int| k.qgt()(i, r).times(k.kgt()(i, s));
        let h2 = |i: int| ch.qg(r, i).times(ch.kg(s, i));
        algebra::lemma_total_eq(kd, h, h2);
        let z = scalar::total(kd, h2);
        if s <= r {
            algebra::lemma_unit_times(ch.scale);
        } else {
            algebra::lemma_times_nil(ch.scale);
            F::times_commutes(z, F::nil());
            algebra::lemma_times_nil(z);
        }
    }
    assert forall|r: int, s: int| 0 <= r < c && 0 <= s < c implies #[trigger] (x.m)(r, s) == (y.m)(
        r,
        s,
    ) by {
        locality::lemma_inverse_local(akk, akk2, c, r, s);
    }
    assert(pairing::agree(c, kd, x.e, y.e));
    assert(pairing::agree(c, kd, x.qg, y.qg));
    let bke = |l: int, i: int| k.bkt()(i, l);
    let wv = |l: int, j: int| k.wvt()(j, l);
    let rp = gradient::replay_of(ch);
    assert(pairing::agree(c, kd, bke, rp.rhs_k()));
    assert(pairing::agree(c, vd, wv, rp.rhs_v()));
    locality::lemma_prod(c, c, kd, x.m, bke, rp.m, rp.rhs_k());
    locality::lemma_prod(c, c, vd, x.m, wv, rp.m, rp.rhs_v());
    assert forall|r: int, i: int| 0 <= r < c && 0 <= i < kd implies #[trigger] (x.pk)(r, i)
        == (y.pk)(r, i) by {
        let h = |l: int| (x.m)(r, l).times(k.bkt()(i, l));
        let h2 = |l: int| (x.m)(r, l).times(bke(l, i));
        algebra::lemma_total_eq(c, h, h2);
        assert(grid::prod(c, x.m, bke)(r, i) == grid::prod(c, rp.m, rp.rhs_k())(r, i));
    }
    assert forall|r: int, j: int| 0 <= r < c && 0 <= j < vd implies #[trigger] (x.pv)(r, j)
        == (y.pv)(r, j) by {
        let h = |l: int| (x.m)(r, l).times(k.wvt()(j, l));
        let h2 = |l: int| (x.m)(r, l).times(wv(l, j));
        algebra::lemma_total_eq(c, h, h2);
        assert(grid::prod(c, x.m, wv)(r, j) == grid::prod(c, rp.m, rp.rhs_v())(r, j));
    }
    locality::lemma_prod(c, kd, vd, x.pk, st, y.pk, su);
    assert forall|r: int, j: int| 0 <= r < c && 0 <= j < vd implies #[trigger] (x.fresh)(r, j)
        == (y.fresh)(r, j) by {
        let h = |i: int| k.pk()(i, r).times(st(i, j));
        let h2 = |i: int| (x.pk)(r, i).times(st(i, j));
        algebra::lemma_total_eq(kd, h, h2);
        assert(grid::prod(kd, x.pk, st)(r, j) == grid::prod(kd, y.pk, su)(r, j));
        assert((x.pv)(r, j) == (y.pv)(r, j));
    }
}

/// What `fused_chunk_backward` returns for head `h` of batch `a`, token by token.
pub open spec fn returned<F: Scalar>(
    r: FusedBackwardOutput<F>,
    a: int,
    h: int,
) -> TokenGradients<F> {
    TokenGradients {
        d_q: streams::state_of(r.d_q, a, h),
        d_k: streams::state_of(r.d_k, a, h),
        d_v: streams::state_of(r.d_v, a, h),
        d_g: streams::state_of(r.d_g, a, h),
        d_b: streams::state_of(r.d_b, a, h),
        d_w: streams::state_of(r.d_w, a, h),
    }
}

/// The gradients of chunks that hold what the forward kernels leave of a head.
proof fn lemma_chain_gradient<F: ExactScalar>(
    x: BackPass<F>,
    f: FusedHead<F>,
    r: FusedBackwardOutput<F>,
    a: int,
    h: int,
    dir: Head<F>,
    dir_s: Grid<F>,
)
    requires
        x.wf(),
        f.c == x.c,
        f.head.kd == x.k.d3,
        f.head.vd == x.v.d3,
        x.chain(a, h).agrees(f.chain(x.nt(), streams::state_of(*x.d_out, a, h))),
        r.head_is(x, x.chain(a, h), a, h),
    ensures
        ({
            let hd = gradient::lifted_head(f.head, dir);
            let s = gradient::lifted(f.s, dir_s);
            pairing::pair(
                x.k.d2 as int,
                f.head.vd,
                streams::state_of(*x.d_out, a, h),
                |t: int, j: int| hd.output(s, t, j).eps,
            ) == pairing::pair(
                f.head.kd,
                f.head.vd,
                streams::state_of(r.d_s, a, h),
                dir_s,
            ).plus(
                scalar::total(x.k.d2 as int, |t: int| gradient::change(returned(r, a, h), hd, t)),
            )
        }),
{
    let (n, c, kd, vd) = (x.nt(), f.c, f.head.kd, f.head.vd);
    let tokens = x.k.d2 as int;
    assert(n * c == tokens && n >= 1) by (nonlinear_arith)
        requires
            c >= 1,
            tokens % c == 0,
            tokens >= c,
            n == tokens / c,
    ;
    let d = streams::state_of(*x.d_out, a, h);
    let ck = f.chunking(n);
    lemma_whole_chunks(f, n);
    let lift = gradient::lifted_chunking(ck, dir, dir_s);
    gradient::lemma_lifted(ck, dir, dir_s);
    gradient::backward_is_gradient(lift, d);
    let tape = gradient::tape_of(ck, d);
    let (y, z, w) = (x.chain(a, h), f.chain(n, d), tape_chain(tape));
    assert(z.agrees(w)) by {
        assert forall|t: int| 0 <= t < n implies #[trigger] z.chunk_agrees(w, t) by {
            lemma_exports(f, n, t);
            gradient::lemma_tape_state(lift, d, t);
            assert(ck.len(t) == c);
        }
    }
    assert forall|t: int| 0 <= t < n implies #[trigger] y.adjoint(t).agrees(z.adjoint(t)) by {
        y.lemma_adjoint_local(z, t);
    }
    assert forall|t: int| 0 <= t < n implies #[trigger] z.adjoint(t).agrees(w.adjoint(t)) by {
        z.lemma_adjoint_local(w, t);
    }
    let hd = lift.head;
    let (e, g) = (returned(r, a, h), gradient::tape_gradients(tape));
    let f1 = |t: int| gradient::change(e, hd, t);
    let f2 = |t: int| gradient::change(g, hd, t);
    assert forall|t: int| 0 <= t < tokens implies #[trigger] f1(t) == f2(t) by {
        let (m, q) = (t / c, t % c);
        assert(0 <= m < n && 0 <= q < c && t == m * c + q) by (nonlinear_arith)
            requires
                c >= 1,
                n * c == tokens,
                0 <= t < tokens,
                m == t / c,
                q == t % c,
        ;
        assert(y.adjoint(m).agrees(z.adjoint(m)));
        assert(z.adjoint(m).agrees(w.adjoint(m)));
        y.adjoint(m).lemma_local(z.adjoint(m));
        z.adjoint(m).lemma_local(w.adjoint(m));
        lemma_tape_chain(tape, m);
        assert forall|i: int| 0 <= i < kd implies #[trigger] (e.d_q)(t, i) == (g.d_q)(t, i) by {
            assert(y.adjoint(m).d_q()(q, i) == r.d_q.at(a, h, m * c + q, i));
            assert(y.adjoint(m).d_q()(q, i) == z.adjoint(m).d_q()(q, i));
            assert(z.adjoint(m).d_q()(q, i) == w.adjoint(m).d_q()(q, i));
        }
        assert forall|i: int| 0 <= i < kd implies #[trigger] (e.d_k)(t, i) == (g.d_k)(t, i) by {
            assert(y.adjoint(m).d_k()(q, i) == r.d_k.at(a, h, m * c + q, i));
            assert(y.adjoint(m).d_k()(q, i) == z.adjoint(m).d_k()(q, i));
            assert(z.adjoint(m).d_k()(q, i) == w.adjoint(m).d_k()(q, i));
        }
        assert forall|j: int| 0 <= j < vd implies #[trigger] (e.d_v)(t, j) == (g.d_v)(t, j) by {
            assert(y.adjoint(m).d_v()(q, j) == r.d_v.at(a, h, m * c + q, j));
            assert(y.adjoint(m).d_v()(q, j) == z.adjoint(m).d_v()(q, j));
            assert(z.adjoint(m).d_v()(q, j) == w.adjoint(m).d_v()(q, j));
        }
        assert forall|i: int| 0 <= i < kd implies #[trigger] (e.d_g)(t, i) == (g.d_g)(t, i) by {
            assert(y.adjoint(m).d_g()(q, i) == r.d_g.at(a, h, m * c + q, i));
            assert(y.adjoint(m).d_g()(q, i) == z.adjoint(m).d_g()(q, i));
            assert(z.adjoint(m).d_g()(q, i) == w.adjoint(m).d_g()(q, i));
        }
        assert forall|i: int| 0 <= i < kd implies #[trigger] (e.d_b)(t, i) == (g.d_b)(t, i) by {
            assert(y.adjoint(m).d_b()(q, i) == r.d_b.at(a, h, m * c + q, i));
            assert(y.adjoint(m).d_b()(q, i) == z.adjoint(m).d_b()(q, i));
            assert(z.adjoint(m).d_b()(q, i) == w.adjoint(m).d_b()(q, i));
        }
        assert forall|j: int| 0 <= j < vd implies #[trigger] (e.d_w)(t, j) == (g.d_w)(t, j) by {
            assert(y.adjoint(m).d_w()(q, j) == r.d_w.at(a, h, m * c + q, j));
            assert(y.adjoint(m).d_w()(q, j) == z.adjoint(m).d_w()(q, j));
            assert(z.adjoint(m).d_w()(q, j) == w.adjoint(m).d_w()(q, j));
        }
        gradient::lemma_change_same(e, g, hd, t);
    }
    algebra::lemma_total_eq(tokens, f1, f2);
    let (s1, s2) = (streams::state_of(r.d_s, a, h), |i: int, j: int| tape.d_s(i, j));
    assert(pairing::agree(kd, vd, s1, s2)) by {
        assert(y.adjoint(0).agrees(z.adjoint(0)));
        assert(z.adjoint(0).agrees(w.adjoint(0)));
        y.adjoint(0).lemma_local(z.adjoint(0));
        z.adjoint(0).lemma_local(w.adjoint(0));
        lemma_tape_chain(tape, -1);
        assert forall|i: int, j: int| 0 <= i < kd && 0 <= j < vd implies #[trigger] s1(i, j) == s2(
            i,
            j,
        ) by {
            assert(r.d_s.at(a, h, i, j) == y.passed_back(-1)(i, j));
            assert(y.adjoint(0).d_s()(i, j) == z.adjoint(0).d_s()(i, j));
            assert(z.adjoint(0).d_s()(i, j) == w.adjoint(0).d_s()(i, j));
        }
    }
    assert(gradient::eps(lift.s) =~= dir_s);
    pairing::lemma_pair_eq(kd, vd, s1, dir_s, s2, dir_s);
    let outs = |t: int, j: int| lift.head.output(lift.s, t, j).eps;
    let outs2 = |t: int, j: int|
        gradient::lifted_head(f.head, dir).output(gradient::lifted(f.s, dir_s), t, j).eps;
    pairing::lemma_pair_eq(tokens, vd, d, outs, d, outs2);
}

/// What the backward pass gets is what the forward pass on these inputs left.
pub open spec fn follows<F: Scalar>(
    x: BackPass<F>,
    inputs: Streams<F>,
    scale: F,
    state: Tensor4<F>,
) -> bool {
    &&& inputs.wf()
    &&& *x.k == *inputs.k
    &&& *x.v == *inputs.v
    &&& *x.b == *inputs.b
    &&& *x.wg == *inputs.w
    &&& x.scale == scale
    &&& fused_chunk::exported(inputs, scale, state, x.c as int, *x.fwd)
}

/// Whether dividing the decayed keys out gives the decays of head `h` of batch `a` back. A key
/// that is zero leaves nothing to divide by.
pub open spec fn decays_recovered<F: Scalar>(x: BackPass<F>, f: FusedHead<F>, a: int, h: int) -> bool {
    forall|t: int, r: int, i: int|
        0 <= t < x.nt() && 0 <= r < f.c && 0 <= i < f.head.kd ==> (#[trigger] f.block(t).e()(r, i))
            == ((x.chain(a, h).exports)(t).e)(r, i)
}

/// In exact arithmetic `fused_chunk_backward`, run on what the forward kernels left, returns the
/// gradient of the outputs wherever the decays are recovered: for every direction in which the
/// tokens and the initial state of a head change, the change of its outputs weighted by `d_out` is
/// the change of its inputs weighted by what was returned.
pub proof fn fused_backward_is_gradient<F: ExactScalar>(
    x: BackPass<F>,
    inputs: Streams<F>,
    scale: F,
    state: Tensor4<F>,
    r: FusedBackwardOutput<F>,
    a: int,
    h: int,
    dir: Head<F>,
    dir_s: Grid<F>,
)
    requires
        x.wf(),
        follows(x, inputs, scale, state),
        inputs.b.d3 == inputs.kd(),
        0 <= a < inputs.batch(),
        0 <= h < inputs.heads(),
        decays_recovered(x, fused_chunk::fused_head(inputs, scale, state, x.c as int, a, h), a, h),
        r.head_is(x, x.chain(a, h), a, h),
    ensures
        ({
            let hd = gradient::lifted_head(inputs.head(scale, a, h), dir);
            let s = gradient::lifted(streams::state_of(state, a, h), dir_s);
            pairing::pair(
                inputs.tokens(),
                inputs.vd(),
                streams::state_of(*x.d_out, a, h),
                |t: int, j: int| hd.output(s, t, j).eps,
            ) == pairing::pair(
                inputs.kd(),
                inputs.vd(),
                streams::state_of(r.d_s, a, h),
                dir_s,
            ).plus(
                scalar::total(
                    inputs.tokens(),
                    |t: int| gradient::change(returned(r, a, h), hd, t),
                ),
            )
        }),
{
    let c = x.c as int;
    let f = fused_chunk::fused_head(inputs, scale, state, c, a, h);
    let d = streams::state_of(*x.d_out, a, h);
    let (y, z) = (x.chain(a, h), f.chain(x.nt(), d));
    assert(y.agrees(z)) by {
        assert forall|t: int| 0 <= t < y.nt implies #[trigger] y.chunk_agrees(z, t) by {
            let n = index::flat2(x.nt(), index::flat2(inputs.heads(), a, h), t);
            let k = f.block(t);
            let (e, g) = ((y.exports)(t), (z.exports)(t));
            assert(fused_chunk::block_exports(*x.fwd, f, t, n));
            let lo = t * c;
            let tokens = x.k.d2 as int;
            let nt = x.nt();
            assert(0 <= lo && lo + c <= tokens) by (nonlinear_arith)
                requires
                    c >= 1,
                    nt == tokens / c,
                    0 <= t < nt,
                    lo == t * c,
            ;
            assert forall|q: int, i: int| 0 <= q < c && 0 <= i < k.kd implies #[trigger] (e.qg)(q, i)
                == (g.qg)(q, i) by {
                assert(chunk_cube::block(x.fwd.qgt, n)(i, q) == k.qgt()(i, q));
            }
            assert forall|q: int, l: int| 0 <= q < c && 0 <= l < c implies #[trigger] (e.aqk)(q, l)
                == (g.aqk)(q, l) by {
                assert(chunk_cube::block(x.fwd.aqk, n)(l, q) == k.aqk()(l, q));
            }
            assert forall|q: int, i: int| 0 <= q < c && 0 <= i < k.kd implies #[trigger] (e.pk)(q, i)
                == (g.pk)(q, i) by {
                assert(chunk_cube::block(x.fwd.w, n)(i, q) == k.pk()(i, q));
            }
            assert forall|q: int, j: int| 0 <= q < c && 0 <= j < k.vd implies #[trigger] (e.pv)(q, j)
                == (g.pv)(q, j) by {
                assert(chunk_cube::block(x.fwd.u, n)(j, q) == k.pv()(j, q));
            }
            assert forall|q: int, i: int| 0 <= q < c && 0 <= i < k.kd implies #[trigger] (e.e)(q, i)
                == (g.e)(q, i) by {
                assert(f.block(t).e()(q, i) == ((x.chain(a, h).exports)(t).e)(q, i));
            }
            assert forall|q: int, i: int| 0 <= q < c && 0 <= i < k.kd implies #[trigger] (e.b)(q, i)
                == (g.b)(q, i) by {}
        }
    }
    lemma_chain_gradient(x, f, r, a, h, dir, dir_s);
}

} // verus!
