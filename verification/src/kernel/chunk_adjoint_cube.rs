//! The chunked backward pass in two kernels over the buffers that the forward kernels leave.
//!
//! The first goes through the chunks of a head last to first and carries the gradient of the state;
//! the second computes the gradients of the tokens of each chunk.

use vstd::prelude::*;

use crate::adjoint::{Adjoint, Exports};
use crate::autodiff;
use crate::autodiff::{HeadGradients, ReplayInputs, Replayed, StateGradients};
use crate::forward;
use crate::grid;
use crate::grid::Grid;
use crate::index;
use crate::kernel::chunk_cube;
use crate::linalg;
use crate::linalg::Op;
use crate::pairing;
use crate::scalar::Scalar;
use crate::tensor::{Matrix, Tensor3, Tensor4};
use crate::wy;

verus! {

/// Buffers of the forward kernels that the backward kernels read.
pub struct FusedBackwardInputs<F> {
    /// `[blocks, c, c]`: the inverses.
    pub m_inv: Tensor3<F>,
    /// `[blocks, c, c]`: query-key scores, transposed.
    pub aqk: Tensor3<F>,
    /// `[blocks, k, c]`: decayed queries, transposed.
    pub qgt: Tensor3<F>,
    /// `[blocks, c, k]`: keys decayed to the end of the chunk.
    pub kgd: Tensor3<F>,
    /// `[blocks, k]`: decays through the last token.
    pub glast: Matrix<F>,
    /// `[blocks, c, v]`: the values that the chunks write.
    pub v_new: Tensor3<F>,
    /// `[blocks, k, v]`: the states before the chunks.
    pub states: Tensor3<F>,
    /// `[blocks, k, c]`: pseudo-keys, transposed.
    pub w: Tensor3<F>,
    /// `[blocks, v, c]`: pseudo-values, transposed.
    pub u: Tensor3<F>,
}

impl<F: Scalar> FusedBackwardInputs<F> {
    pub open spec fn shaped(self, n: int, c: int, kd: int, vd: int) -> bool {
        &&& self.m_inv.shaped(n, c, c)
        &&& self.aqk.shaped(n, c, c)
        &&& self.qgt.shaped(n, kd, c)
        &&& self.kgd.shaped(n, c, kd)
        &&& self.glast.shaped(n, kd)
        &&& self.v_new.shaped(n, c, vd)
        &&& self.states.shaped(n, kd, vd)
        &&& self.w.shaped(n, kd, c)
        &&& self.u.shaped(n, vd, c)
    }
}

/// Gradients of the chunked forward pass, each with the extents of its input.
pub struct FusedBackwardOutput<F> {
    pub d_q: Tensor4<F>,
    pub d_k: Tensor4<F>,
    pub d_v: Tensor4<F>,
    pub d_g: Tensor4<F>,
    pub d_b: Tensor4<F>,
    pub d_w: Tensor4<F>,
    pub d_s: Tensor4<F>,
}

/// The chunks of a head with what their forward pass left, and the gradients of their outputs.
pub struct Chain<F> {
    /// Number of chunks.
    pub nt: int,
    pub exports: spec_fn(int) -> Exports<F>,
    pub d_out: spec_fn(int) -> Grid<F>,
}

impl<F: Scalar> Chain<F> {
    /// Chunk `t`, with the gradients of its outputs and, as `d_acc`, of the state after it.
    pub open spec fn adjoint_from(self, t: int, d_acc: Grid<F>) -> Adjoint<F> {
        Adjoint { c: (self.exports)(t), d_out: (self.d_out)(t), d_acc }
    }

    /// Gradient of the state after chunk `t`.
    pub open spec fn passed_back(self, t: int) -> Grid<F>
        decreases self.nt - t,
    {
        if t + 1 >= self.nt {
            grid::zero()
        } else {
            self.adjoint_from(t + 1, self.passed_back(t + 1)).d_s()
        }
    }

    /// Chunk `t`, with the gradients of its outputs and of the state after it.
    pub open spec fn adjoint(self, t: int) -> Adjoint<F> {
        self.adjoint_from(t, self.passed_back(t))
    }

    /// Whether the two agree in range.
    pub open spec fn agrees(self, o: Self) -> bool {
        &&& self.nt == o.nt
        &&& forall|t: int| 0 <= t < self.nt ==> #[trigger] self.chunk_agrees(o, t)
    }

    /// Whether chunk `t` is the same in both, in range.
    pub open spec fn chunk_agrees(self, o: Self, t: int) -> bool {
        let e = (self.exports)(t);
        &&& e.kd == (self.exports)(0).kd
        &&& e.vd == (self.exports)(0).vd
        &&& e.agrees((o.exports)(t))
        &&& pairing::agree(e.rows, e.vd, (self.d_out)(t), (o.d_out)(t))
    }

    /// Chains that agree have chunks with gradients that agree.
    pub proof fn lemma_adjoint_local(self, o: Self, t: int)
        requires
            self.agrees(o),
            0 <= t < self.nt,
        ensures
            self.adjoint(t).agrees(o.adjoint(t)),
        decreases self.nt - t,
    {
        assert(self.chunk_agrees(o, t));
        if t + 1 < self.nt {
            self.lemma_adjoint_local(o, t + 1);
            assert(self.chunk_agrees(o, t + 1));
            self.adjoint(t + 1).lemma_local(o.adjoint(t + 1));
        }
    }
}

/// What the backward kernels read, in blocks.
pub struct BackIn<'a, F> {
    pub fwd: &'a FusedBackwardInputs<F>,
    pub k: &'a Tensor3<F>,
    pub v: &'a Tensor3<F>,
    pub b: &'a Tensor3<F>,
    pub wg: &'a Tensor3<F>,
    /// Gradient of the outputs.
    pub d_out: &'a Tensor3<F>,
    pub scale: F,
    /// Chunks per head.
    pub nt: usize,
}

impl<'a, F: Scalar> BackIn<'a, F> {
    pub open spec fn blocks(self) -> int {
        self.k.d0 as int
    }

    pub open spec fn c(self) -> int {
        self.k.d1 as int
    }

    pub open spec fn kd(self) -> int {
        self.k.d2 as int
    }

    pub open spec fn vd(self) -> int {
        self.v.d2 as int
    }

    pub open spec fn wf(self) -> bool {
        let (n, c) = (self.blocks(), self.c());
        &&& c >= 1
        &&& self.k.wf()
        &&& self.v.shaped(n, c, self.vd())
        &&& self.b.shaped(n, c, self.kd())
        &&& self.wg.shaped(n, c, self.vd())
        &&& self.d_out.shaped(n, c, self.vd())
        &&& self.fwd.shaped(n, c, self.kd(), self.vd())
        &&& c * c <= usize::MAX
        &&& self.kd() * self.vd() <= usize::MAX
    }

    /// Block `n`. Its decays are `k glast / kgd`.
    pub open spec fn exports(self, n: int) -> Exports<F> {
        Exports {
            n: self.c(),
            rows: self.c(),
            kd: self.kd(),
            vd: self.vd(),
            k: chunk_cube::block(*self.k, n),
            v: chunk_cube::block(*self.v, n),
            b: chunk_cube::block(*self.b, n),
            w: chunk_cube::block(*self.wg, n),
            e: |r: int, i: int|
                self.k.at(n, r, i).times(self.fwd.glast.at(n, i)).over(self.fwd.kgd.at(n, r, i)),
            el: |i: int| self.fwd.glast.at(n, i),
            qg: chunk_cube::block_t(self.fwd.qgt, n),
            aqk: chunk_cube::block_t(self.fwd.aqk, n),
            m: chunk_cube::block(self.fwd.m_inv, n),
            s: chunk_cube::block(self.fwd.states, n),
            pk: chunk_cube::block_t(self.fwd.w, n),
            pv: chunk_cube::block_t(self.fwd.u, n),
            fresh: chunk_cube::block(self.fwd.v_new, n),
            scale: self.scale,
        }
    }

    /// Head `h`.
    pub open spec fn chain(self, h: int) -> Chain<F> {
        Chain {
            nt: self.nt as int,
            exports: |t: int| self.exports(index::flat2(self.nt as int, h, t)),
            d_out: |t: int| chunk_cube::block(*self.d_out, index::flat2(self.nt as int, h, t)),
        }
    }
}

/// The matrices of block `n`.
fn block_inputs<F: Scalar>(x: &BackIn<F>, n: usize) -> (r: ReplayInputs<F>)
    requires
        x.wf(),
        n < x.blocks(),
    ensures
        r.hold(x.exports(n as int)),
{
    let k = x.k.block_matrix(n);
    let kgd = x.fwd.kgd.block_matrix(n);
    let c: usize = k.rows;
    let kd: usize = k.cols;
    let mut e = k.copy();
    let mut last: Vec<F> = Vec::new();
    for i in 0..kd
        invariant
            x.wf(),
            n < x.blocks(),
            kd == x.kd(),
            last@.len() == i,
            forall|l: int| 0 <= l < i ==> #[trigger] last@[l] == x.fwd.glast.at(n as int, l),
    {
        last.push(x.fwd.glast.get(n, i));
    }
    let ghost ef = x.exports(n as int).e;
    for r in 0..c
        invariant
            x.wf(),
            n < x.blocks(),
            c == x.c(),
            kd == x.kd(),
            ef == x.exports(n as int).e,
            k.holds(x.c(), x.kd(), chunk_cube::block(*x.k, n as int)),
            kgd.holds(x.c(), x.kd(), chunk_cube::block(x.fwd.kgd, n as int)),
            last@.len() == kd,
            forall|l: int| 0 <= l < kd ==> #[trigger] last@[l] == x.fwd.glast.at(n as int, l),
            e.shaped(x.c(), x.kd()),
            forall|a: int, l: int|
                0 <= a < r && 0 <= l < kd ==> #[trigger] e.at(a, l) == ef(a, l),
    {
        for i in 0..kd
            invariant
                x.wf(),
                n < x.blocks(),
                c == x.c(),
                kd == x.kd(),
                r < c,
                ef == x.exports(n as int).e,
                k.holds(x.c(), x.kd(), chunk_cube::block(*x.k, n as int)),
                kgd.holds(x.c(), x.kd(), chunk_cube::block(x.fwd.kgd, n as int)),
                last@.len() == kd,
                forall|l: int| 0 <= l < kd ==> #[trigger] last@[l] == x.fwd.glast.at(n as int, l),
                e.shaped(x.c(), x.kd()),
                forall|a: int, l: int|
                    0 <= l < kd && (0 <= a < r || (a == r && l < i)) ==> #[trigger] e.at(a, l)
                        == ef(a, l),
        {
            e.set(r, i, k.get(r, i).mul(last[i]).div(kgd.get(r, i)));
        }
    }
    ReplayInputs {
        k,
        v: x.v.block_matrix(n),
        b: x.b.block_matrix(n),
        w: x.wg.block_matrix(n),
        e,
        last,
        qg: x.fwd.qgt.block_matrix(n).transposed(),
        aqk: x.fwd.aqk.block_matrix(n).transposed(),
        m: x.fwd.m_inv.block_matrix(n),
        s: x.fwd.states.block_matrix(n),
    }
}

/// What the forward kernels left of block `n`.
fn block_replayed<F: Scalar>(x: &BackIn<F>, n: usize, y: &ReplayInputs<F>) -> (r: Replayed<F>)
    requires
        x.wf(),
        n < x.blocks(),
        y.hold(x.exports(n as int)),
    ensures
        r.hold(x.exports(n as int)),
{
    let rhs_k = linalg::elementwise(Op::Mul, &linalg::elementwise(Op::Mul, &y.b, &y.k), &y.e);
    Replayed {
        rhs_k,
        w_wy: x.fwd.w.block_matrix(n).transposed(),
        u_wy: x.fwd.u.block_matrix(n).transposed(),
        v_new: x.fwd.v_new.block_matrix(n),
        decay: autodiff::over_rows(&y.last, &y.e),
    }
}

/// The first backward kernel: for each head, the chunks last to first. Fills the gradients of the
/// written values, and of the states before the chunks.
fn gdn2_chunk_inter_adjoint_kernel<F: Scalar>(
    x: &BackIn<F>,
    heads: usize,
    d_v_new: &mut Tensor3<F>,
    d_s: &mut Tensor3<F>,
)
    requires
        x.wf(),
        x.blocks() == heads * x.nt,
        old(d_v_new).shaped(x.blocks(), x.c(), x.vd()),
        old(d_s).shaped(x.blocks(), x.kd(), x.vd()),
    ensures
        final(d_v_new).shaped(x.blocks(), x.c(), x.vd()),
        final(d_s).shaped(x.blocks(), x.kd(), x.vd()),
        forall|h: int, t: int|
            0 <= h < heads && 0 <= t < x.nt ==> #[trigger] chained(
                *x,
                *final(d_v_new),
                *final(d_s),
                h,
                t,
            ),
{
    for h in 0..heads
        invariant
            x.wf(),
            x.blocks() == heads * x.nt,
            d_v_new.shaped(x.blocks(), x.c(), x.vd()),
            d_s.shaped(x.blocks(), x.kd(), x.vd()),
            forall|a: int, m: int|
                0 <= a < h && 0 <= m < x.nt ==> #[trigger] chained(*x, *d_v_new, *d_s, a, m),
    {
        let mut d_acc = Matrix::<F>::zeros(x.k.d2, x.v.d2);
        let mut t: usize = x.nt;
        while t > 0
            invariant
                x.wf(),
                x.blocks() == heads * x.nt,
                h < heads,
                t <= x.nt,
                d_v_new.shaped(x.blocks(), x.c(), x.vd()),
                d_s.shaped(x.blocks(), x.kd(), x.vd()),
                d_acc.holds(x.kd(), x.vd(), x.chain(h as int).passed_back(t - 1)),
                forall|a: int, m: int|
                    0 <= m < x.nt && (0 <= a < h || (a == h && t <= m)) ==> #[trigger] chained(
                        *x,
                        *d_v_new,
                        *d_s,
                        a,
                        m,
                    ),
            decreases t,
        {
            t = t - 1;
            proof {
                index::lemma_flat2_bound(heads as int, x.nt as int, h as int, t as int);
            }
            let n: usize = h * x.nt + t;
            let ghost a = x.chain(h as int).adjoint(t as int);
            let y = block_inputs(x, n);
            let d = block_replayed(x, n, &y);
            let o = x.d_out.block_matrix(n);
            let (dv, ds) = autodiff::chain_gradients(&y, &d, x.scale, &o, &d_acc, Ghost(a));
            let ghost before_v = *d_v_new;
            let ghost before_s = *d_s;
            d_v_new.set_block(n, &dv);
            d_s.set_block(n, &ds);
            proof {
                assert forall|b: int, m: int|
                    0 <= m < x.nt && (0 <= b < h || (b == h && t <= m)) implies #[trigger] chained(
                    *x,
                    *d_v_new,
                    *d_s,
                    b,
                    m,
                ) by {
                    index::lemma_flat2_bound(heads as int, x.nt as int, b, m);
                    if !(b == h && m == t) {
                        assert(chained(*x, before_v, before_s, b, m));
                        if index::flat2(x.nt as int, b, m) == n {
                            index::lemma_flat2_injective(
                                x.nt as int,
                                b,
                                m,
                                h as int,
                                t as int,
                            );
                        }
                    }
                }
            }
            d_acc = ds;
        }
    }
}

/// Whether the buffers hold the gradients of the written values of chunk `t` of head `h`, and of
/// the state before it.
pub open spec fn chained<F: Scalar>(
    x: BackIn<F>,
    d_v_new: Tensor3<F>,
    d_s: Tensor3<F>,
    h: int,
    t: int,
) -> bool {
    let n = index::flat2(x.nt as int, h, t);
    &&& forall|r: int, j: int|
        0 <= r < x.c() && 0 <= j < x.vd() ==> #[trigger] d_v_new.at(n, r, j) == x.chain(
            h,
        ).adjoint(t).d_v_new()(r, j)
    &&& forall|i: int, j: int|
        0 <= i < x.kd() && 0 <= j < x.vd() ==> #[trigger] d_s.at(n, i, j) == x.chain(h).adjoint(t).d_s()(
            i,
            j,
        )
}

/// The second backward kernel on block `n`: the gradients of its tokens.
fn gdn2_chunk_intra_adjoint_kernel<F: Scalar>(
    x: &BackIn<F>,
    n: usize,
    y: &ReplayInputs<F>,
    d: &Replayed<F>,
    scaled_causal: &Matrix<F>,
    strict: &Matrix<F>,
    d_v_new: &Matrix<F>,
    by_state: &StateGradients<F>,
    Ghost(a): Ghost<Adjoint<F>>,
) -> (r: HeadGradients<F>)
    requires
        x.wf(),
        n < x.blocks(),
        a.c == x.exports(n as int),
        a.d_out == chunk_cube::block(*x.d_out, n as int),
        y.hold(a.c),
        d.hold(a.c),
        scaled_causal.holds(
            x.c(),
            x.c(),
            |r: int, s: int| wy::scaled_causal(x.scale, r, s),
        ),
        strict.holds(x.c(), x.c(), |r: int, s: int| wy::strictly_causal::<F>(r, s)),
        d_v_new.holds(x.c(), x.vd(), a.d_v_new()),
        by_state.hold(a),
    ensures
        r.hold(a),
{
    let o = x.d_out.block_matrix(n);
    autodiff::token_gradients(
        y,
        d,
        x.k.d1,
        x.scale,
        scaled_causal,
        strict,
        &o,
        d_v_new,
        by_state,
        Ghost(a),
    )
}

/// Gradients of the tokens, in blocks.
struct TokenBlocks<F> {
    d_q: Tensor3<F>,
    d_k: Tensor3<F>,
    d_v: Tensor3<F>,
    d_g: Tensor3<F>,
    d_b: Tensor3<F>,
    d_w: Tensor3<F>,
}

impl<F: Scalar> TokenBlocks<F> {
    spec fn shaped(self, n: int, c: int, kd: int, vd: int) -> bool {
        &&& self.d_q.shaped(n, c, kd)
        &&& self.d_k.shaped(n, c, kd)
        &&& self.d_v.shaped(n, c, vd)
        &&& self.d_g.shaped(n, c, kd)
        &&& self.d_b.shaped(n, c, kd)
        &&& self.d_w.shaped(n, c, vd)
    }

    /// Block `n` holds the gradients of `a`.
    spec fn block_is(self, a: Adjoint<F>, n: int) -> bool {
        &&& forall|r: int, i: int|
            0 <= r < a.c.rows && 0 <= i < a.c.kd ==> #[trigger] self.d_q.at(n, r, i) == a.d_q()(
                r,
                i,
            )
        &&& forall|r: int, i: int|
            0 <= r < a.c.rows && 0 <= i < a.c.kd ==> #[trigger] self.d_k.at(n, r, i) == a.d_k()(
                r,
                i,
            )
        &&& forall|r: int, j: int|
            0 <= r < a.c.rows && 0 <= j < a.c.vd ==> #[trigger] self.d_v.at(n, r, j) == a.d_v()(
                r,
                j,
            )
        &&& forall|r: int, i: int|
            0 <= r < a.c.rows && 0 <= i < a.c.kd ==> #[trigger] self.d_g.at(n, r, i) == a.d_g()(
                r,
                i,
            )
        &&& forall|r: int, i: int|
            0 <= r < a.c.rows && 0 <= i < a.c.kd ==> #[trigger] self.d_b.at(n, r, i) == a.d_b()(
                r,
                i,
            )
        &&& forall|r: int, j: int|
            0 <= r < a.c.rows && 0 <= j < a.c.vd ==> #[trigger] self.d_w.at(n, r, j) == a.d_w()(
                r,
                j,
            )
    }
}

/// The gradients of the tokens of all blocks, from what the first kernel left.
fn token_blocks<F: Scalar>(
    x: &BackIn<F>,
    heads: usize,
    d_v_new: &Tensor3<F>,
    d_s: &Tensor3<F>,
) -> (z: TokenBlocks<F>)
    requires
        x.wf(),
        x.blocks() == heads * x.nt,
        d_v_new.shaped(x.blocks(), x.c(), x.vd()),
        d_s.shaped(x.blocks(), x.kd(), x.vd()),
        forall|h: int, t: int|
            0 <= h < heads && 0 <= t < x.nt ==> #[trigger] chained(*x, *d_v_new, *d_s, h, t),
    ensures
        z.shaped(x.blocks(), x.c(), x.kd(), x.vd()),
        forall|h: int, t: int|
            0 <= h < heads && 0 <= t < x.nt ==> #[trigger] z.block_is(
                x.chain(h).adjoint(t),
                index::flat2(x.nt as int, h, t),
            ),
{
    let (causal, strict) = forward::chunk_masks::<F>(x.k.d1);
    let scaled = linalg::scale(&causal, x.scale);
    let mut z = TokenBlocks {
        d_q: x.k.copy(),
        d_k: x.k.copy(),
        d_v: x.v.copy(),
        d_g: x.k.copy(),
        d_b: x.k.copy(),
        d_w: x.v.copy(),
    };
    for h in 0..heads
        invariant
            x.wf(),
            x.blocks() == heads * x.nt,
            d_v_new.shaped(x.blocks(), x.c(), x.vd()),
            d_s.shaped(x.blocks(), x.kd(), x.vd()),
            forall|a: int, m: int|
                0 <= a < heads && 0 <= m < x.nt ==> #[trigger] chained(*x, *d_v_new, *d_s, a, m),
            scaled.holds(x.c(), x.c(), |r: int, s: int| wy::scaled_causal(x.scale, r, s)),
            strict.holds(x.c(), x.c(), |r: int, s: int| wy::strictly_causal::<F>(r, s)),
            z.shaped(x.blocks(), x.c(), x.kd(), x.vd()),
            forall|a: int, m: int|
                0 <= a < h && 0 <= m < x.nt ==> #[trigger] z.block_is(
                    x.chain(a).adjoint(m),
                    index::flat2(x.nt as int, a, m),
                ),
    {
        for t in 0..x.nt
            invariant
                x.wf(),
                x.blocks() == heads * x.nt,
                h < heads,
                d_v_new.shaped(x.blocks(), x.c(), x.vd()),
                d_s.shaped(x.blocks(), x.kd(), x.vd()),
                forall|a: int, m: int|
                    0 <= a < heads && 0 <= m < x.nt ==> #[trigger] chained(
                        *x,
                        *d_v_new,
                        *d_s,
                        a,
                        m,
                    ),
                scaled.holds(x.c(), x.c(), |r: int, s: int| wy::scaled_causal(x.scale, r, s)),
                strict.holds(x.c(), x.c(), |r: int, s: int| wy::strictly_causal::<F>(r, s)),
                z.shaped(x.blocks(), x.c(), x.kd(), x.vd()),
                forall|a: int, m: int|
                    0 <= m < x.nt && (0 <= a < h || (a == h && m < t)) ==> #[trigger] z.block_is(
                        x.chain(a).adjoint(m),
                        index::flat2(x.nt as int, a, m),
                    ),
        {
            proof {
                index::lemma_flat2_bound(heads as int, x.nt as int, h as int, t as int);
                assert(chained(*x, *d_v_new, *d_s, h as int, t as int));
            }
            let n: usize = h * x.nt + t;
            let ghost a = x.chain(h as int).adjoint(t as int);
            let y = block_inputs(x, n);
            let d = block_replayed(x, n, &y);
            let dv = d_v_new.block_matrix(n);
            let d_acc = if t + 1 < x.nt {
                proof {
                    index::lemma_flat2_bound(heads as int, x.nt as int, h as int, t + 1);
                    assert(chained(*x, *d_v_new, *d_s, h as int, t + 1));
                }
                d_s.block_matrix(n + 1)
            } else {
                Matrix::zeros(x.k.d2, x.v.d2)
            };
            assert(d_acc.holds(x.kd(), x.vd(), a.d_acc));
            let by_state = autodiff::state_gradients(&y, &d, &d_acc, Ghost(a));
            let g = gdn2_chunk_intra_adjoint_kernel(
                x,
                n,
                &y,
                &d,
                &scaled,
                &strict,
                &dv,
                &by_state,
                Ghost(a),
            );
            let ghost before = z;
            z.d_q.set_block(n, &g.d_q);
            z.d_k.set_block(n, &g.d_k);
            z.d_v.set_block(n, &g.d_v);
            z.d_g.set_block(n, &g.d_g);
            z.d_b.set_block(n, &g.d_b);
            z.d_w.set_block(n, &g.d_w);
            proof {
                assert forall|b: int, m: int|
                    0 <= m < x.nt && (0 <= b < h || (b == h && m < t + 1)) implies #[trigger] z.block_is(
                x.chain(b).adjoint(m), index::flat2(x.nt as int, b, m)) by {
                    index::lemma_flat2_bound(heads as int, x.nt as int, b, m);
                    if !(b == h && m == t) {
                        assert(before.block_is(
                            x.chain(b).adjoint(m),
                            index::flat2(x.nt as int, b, m),
                        ));
                        if index::flat2(x.nt as int, b, m) == n {
                            index::lemma_flat2_injective(
                                x.nt as int,
                                b,
                                m,
                                h as int,
                                t as int,
                            );
                        }
                    }
                }
            }
        }
    }
    z
}

/// What the forward kernels left of chunk `t` of head `h` of batch `a`.
pub open spec fn exports_of<F: Scalar>(
    x: BackPass<F>,
    a: int,
    h: int,
    t: int,
) -> Exports<F> {
    let n = index::flat2(x.nt(), index::flat2(x.k.d1 as int, a, h), t);
    let lo = t * x.c;
    Exports {
        n: x.c as int,
        rows: x.c as int,
        kd: x.k.d3 as int,
        vd: x.v.d3 as int,
        k: |r: int, i: int| x.k.at(a, h, lo + r, i),
        v: |r: int, j: int| x.v.at(a, h, lo + r, j),
        b: |r: int, i: int| x.b.at(a, h, lo + r, i),
        w: |r: int, j: int| x.wg.at(a, h, lo + r, j),
        e: |r: int, i: int|
            x.k.at(a, h, lo + r, i).times(x.fwd.glast.at(n, i)).over(x.fwd.kgd.at(n, r, i)),
        el: |i: int| x.fwd.glast.at(n, i),
        qg: chunk_cube::block_t(x.fwd.qgt, n),
        aqk: chunk_cube::block_t(x.fwd.aqk, n),
        m: chunk_cube::block(x.fwd.m_inv, n),
        s: chunk_cube::block(x.fwd.states, n),
        pk: chunk_cube::block_t(x.fwd.w, n),
        pv: chunk_cube::block_t(x.fwd.u, n),
        fresh: chunk_cube::block(x.fwd.v_new, n),
        scale: x.scale,
    }
}

/// The inputs of the backward pass by the kernels.
pub struct BackPass<'a, F> {
    pub fwd: &'a FusedBackwardInputs<F>,
    pub k: &'a Tensor4<F>,
    pub v: &'a Tensor4<F>,
    pub b: &'a Tensor4<F>,
    pub wg: &'a Tensor4<F>,
    pub d_out: &'a Tensor4<F>,
    pub scale: F,
    /// Tokens per chunk.
    pub c: usize,
}

impl<'a, F: Scalar> BackPass<'a, F> {
    /// Chunks per head.
    pub open spec fn nt(self) -> int {
        self.k.d2 as int / self.c as int
    }

    /// The extents match, the tokens make whole chunks, and the buffers can be addressed.
    pub open spec fn wf(self) -> bool {
        let (a, h, t, kd, vd, c) = (
            self.k.d0 as int,
            self.k.d1 as int,
            self.k.d2 as int,
            self.k.d3 as int,
            self.v.d3 as int,
            self.c as int,
        );
        &&& c >= 1
        &&& t % c == 0
        &&& t >= c
        &&& self.k.wf()
        &&& self.v.shaped(a, h, t, vd)
        &&& self.b.shaped(a, h, t, kd)
        &&& self.wg.shaped(a, h, t, vd)
        &&& self.d_out.shaped(a, h, t, vd)
        &&& self.fwd.shaped(a * h * self.nt(), c, kd, vd)
        &&& a * h * self.nt() <= usize::MAX
        &&& a * h <= usize::MAX
        &&& c * c <= usize::MAX
        &&& kd * vd <= usize::MAX
    }

    /// Head `h` of batch `a`.
    pub open spec fn chain(self, a: int, h: int) -> Chain<F> {
        Chain {
            nt: self.nt(),
            exports: |t: int| exports_of(self, a, h, t),
            d_out: |t: int| (|r: int, j: int| self.d_out.at(a, h, t * self.c + r, j)),
        }
    }
}

impl<F: Scalar> FusedBackwardOutput<F> {
    /// The outputs have the extents of their inputs.
    pub open spec fn shaped(self, x: BackPass<F>) -> bool {
        let (a, h, t, kd, vd) = (
            x.k.d0 as int,
            x.k.d1 as int,
            x.k.d2 as int,
            x.k.d3 as int,
            x.v.d3 as int,
        );
        &&& self.d_q.shaped(a, h, t, kd)
        &&& self.d_k.shaped(a, h, t, kd)
        &&& self.d_v.shaped(a, h, t, vd)
        &&& self.d_g.shaped(a, h, t, kd)
        &&& self.d_b.shaped(a, h, t, kd)
        &&& self.d_w.shaped(a, h, t, vd)
        &&& self.d_s.shaped(a, h, kd, vd)
    }

    /// Head `h` of batch `a` holds the gradients of the chunks of `y`.
    pub open spec fn head_is(self, x: BackPass<F>, y: Chain<F>, a: int, h: int) -> bool {
        let (n, c, kd, vd) = (x.nt(), x.c as int, x.k.d3 as int, x.v.d3 as int);
        &&& forall|t: int, r: int, i: int|
            0 <= t < n && 0 <= r < c && 0 <= i < kd ==> #[trigger] y.adjoint(t).d_q()(r, i)
                == self.d_q.at(a, h, t * c + r, i)
        &&& forall|t: int, r: int, i: int|
            0 <= t < n && 0 <= r < c && 0 <= i < kd ==> #[trigger] y.adjoint(t).d_k()(r, i)
                == self.d_k.at(a, h, t * c + r, i)
        &&& forall|t: int, r: int, j: int|
            0 <= t < n && 0 <= r < c && 0 <= j < vd ==> #[trigger] y.adjoint(t).d_v()(r, j)
                == self.d_v.at(a, h, t * c + r, j)
        &&& forall|t: int, r: int, i: int|
            0 <= t < n && 0 <= r < c && 0 <= i < kd ==> #[trigger] y.adjoint(t).d_g()(r, i)
                == self.d_g.at(a, h, t * c + r, i)
        &&& forall|t: int, r: int, i: int|
            0 <= t < n && 0 <= r < c && 0 <= i < kd ==> #[trigger] y.adjoint(t).d_b()(r, i)
                == self.d_b.at(a, h, t * c + r, i)
        &&& forall|t: int, r: int, j: int|
            0 <= t < n && 0 <= r < c && 0 <= j < vd ==> #[trigger] y.adjoint(t).d_w()(r, j)
                == self.d_w.at(a, h, t * c + r, j)
        &&& forall|i: int, j: int|
            0 <= i < kd && 0 <= j < vd ==> #[trigger] self.d_s.at(a, h, i, j) == y.passed_back(-1)(
                i,
                j,
            )
    }
}

/// The blocks hold the gradients of head `h` of batch `a`.
proof fn lemma_head_gradients<F: Scalar>(
    p: BackPass<F>,
    x: BackIn<F>,
    z: TokenBlocks<F>,
    d_s: Tensor3<F>,
    r: FusedBackwardOutput<F>,
    a: int,
    h: int,
)
    requires
        p.wf(),
        x.wf(),
        x.nt == p.nt(),
        x.nt >= 1,
        x.c() == p.c,
        x.blocks() == p.k.d0 * p.k.d1 * p.nt(),
        x.kd() == p.k.d3,
        x.vd() == p.v.d3,
        x.fwd == p.fwd,
        x.scale == p.scale,
        z.shaped(x.blocks(), x.c(), x.kd(), x.vd()),
        r.shaped(p),
        0 <= a < p.k.d0,
        0 <= h < p.k.d1,
        blocks_are(*x.k, *p.k, x.nt as int, a, h),
        blocks_are(*x.v, *p.v, x.nt as int, a, h),
        blocks_are(*x.b, *p.b, x.nt as int, a, h),
        blocks_are(*x.wg, *p.wg, x.nt as int, a, h),
        blocks_are(*x.d_out, *p.d_out, x.nt as int, a, h),
        blocks_are(z.d_q, r.d_q, x.nt as int, a, h),
        blocks_are(z.d_k, r.d_k, x.nt as int, a, h),
        blocks_are(z.d_v, r.d_v, x.nt as int, a, h),
        blocks_are(z.d_g, r.d_g, x.nt as int, a, h),
        blocks_are(z.d_b, r.d_b, x.nt as int, a, h),
        blocks_are(z.d_w, r.d_w, x.nt as int, a, h),
        forall|t: int|
            0 <= t < x.nt ==> #[trigger] z.block_is(
                x.chain(index::flat2(p.k.d1 as int, a, h)).adjoint(t),
                index::flat2(x.nt as int, index::flat2(p.k.d1 as int, a, h), t),
            ),
        chained_state(x, d_s, index::flat2(p.k.d1 as int, a, h), 0),
        forall|i: int, j: int|
            0 <= i < x.kd() && 0 <= j < x.vd() ==> #[trigger] r.d_s.at(a, h, i, j) == d_s.at(
                index::flat2(x.nt as int, index::flat2(p.k.d1 as int, a, h), 0),
                i,
                j,
            ),
    ensures
        r.head_is(p, p.chain(a, h), a, h),
{
    let hh = index::flat2(p.k.d1 as int, a, h);
    let (u, y) = (x.chain(hh), p.chain(a, h));
    let (nt, c) = (x.nt as int, x.c());
    assert forall|t: int| 0 <= t < u.nt implies #[trigger] u.chunk_agrees(y, t) by {
        let n = index::flat2(nt, hh, t);
        assert forall|q: int, i: int| 0 <= q < c && 0 <= i < x.kd() implies #[trigger] x.k.at(
            n,
            q,
            i,
        ) == p.k.at(a, h, t * c + q, i) by {}
    }
    assert forall|t: int| 0 <= t < nt implies #[trigger] u.adjoint(t).agrees(y.adjoint(t)) by {
        u.lemma_adjoint_local(y, t);
    }
    assert forall|t: int, q: int, i: int|
        0 <= t < nt && 0 <= q < c && 0 <= i < x.kd() implies #[trigger] y.adjoint(t).d_q()(q, i)
        == r.d_q.at(a, h, t * c + q, i) by {
        let n = index::flat2(nt, hh, t);
        assert(u.adjoint(t).agrees(y.adjoint(t)));
        u.adjoint(t).lemma_local(y.adjoint(t));
        assert(u.adjoint(t).d_q()(q, i) == y.adjoint(t).d_q()(q, i));
        assert(z.block_is(u.adjoint(t), n));
        assert(z.d_q.at(n, q, i) == u.adjoint(t).d_q()(q, i));
    }
    assert forall|t: int, q: int, i: int|
        0 <= t < nt && 0 <= q < c && 0 <= i < x.kd() implies #[trigger] y.adjoint(t).d_k()(q, i)
        == r.d_k.at(a, h, t * c + q, i) by {
        let n = index::flat2(nt, hh, t);
        assert(u.adjoint(t).agrees(y.adjoint(t)));
        u.adjoint(t).lemma_local(y.adjoint(t));
        assert(u.adjoint(t).d_k()(q, i) == y.adjoint(t).d_k()(q, i));
        assert(z.block_is(u.adjoint(t), n));
        assert(z.d_k.at(n, q, i) == u.adjoint(t).d_k()(q, i));
    }
    assert forall|t: int, q: int, j: int|
        0 <= t < nt && 0 <= q < c && 0 <= j < x.vd() implies #[trigger] y.adjoint(t).d_v()(q, j)
        == r.d_v.at(a, h, t * c + q, j) by {
        let n = index::flat2(nt, hh, t);
        assert(u.adjoint(t).agrees(y.adjoint(t)));
        u.adjoint(t).lemma_local(y.adjoint(t));
        assert(u.adjoint(t).d_v()(q, j) == y.adjoint(t).d_v()(q, j));
        assert(z.block_is(u.adjoint(t), n));
        assert(z.d_v.at(n, q, j) == u.adjoint(t).d_v()(q, j));
    }
    assert forall|t: int, q: int, i: int|
        0 <= t < nt && 0 <= q < c && 0 <= i < x.kd() implies #[trigger] y.adjoint(t).d_g()(q, i)
        == r.d_g.at(a, h, t * c + q, i) by {
        let n = index::flat2(nt, hh, t);
        assert(u.adjoint(t).agrees(y.adjoint(t)));
        u.adjoint(t).lemma_local(y.adjoint(t));
        assert(u.adjoint(t).d_g()(q, i) == y.adjoint(t).d_g()(q, i));
        assert(z.block_is(u.adjoint(t), n));
        assert(z.d_g.at(n, q, i) == u.adjoint(t).d_g()(q, i));
    }
    assert forall|t: int, q: int, i: int|
        0 <= t < nt && 0 <= q < c && 0 <= i < x.kd() implies #[trigger] y.adjoint(t).d_b()(q, i)
        == r.d_b.at(a, h, t * c + q, i) by {
        let n = index::flat2(nt, hh, t);
        assert(u.adjoint(t).agrees(y.adjoint(t)));
        u.adjoint(t).lemma_local(y.adjoint(t));
        assert(u.adjoint(t).d_b()(q, i) == y.adjoint(t).d_b()(q, i));
        assert(z.block_is(u.adjoint(t), n));
        assert(z.d_b.at(n, q, i) == u.adjoint(t).d_b()(q, i));
    }
    assert forall|t: int, q: int, j: int|
        0 <= t < nt && 0 <= q < c && 0 <= j < x.vd() implies #[trigger] y.adjoint(t).d_w()(q, j)
        == r.d_w.at(a, h, t * c + q, j) by {
        let n = index::flat2(nt, hh, t);
        assert(u.adjoint(t).agrees(y.adjoint(t)));
        u.adjoint(t).lemma_local(y.adjoint(t));
        assert(u.adjoint(t).d_w()(q, j) == y.adjoint(t).d_w()(q, j));
        assert(z.block_is(u.adjoint(t), n));
        assert(z.d_w.at(n, q, j) == u.adjoint(t).d_w()(q, j));
    }
    assert(u.adjoint(0).agrees(y.adjoint(0)));
    u.adjoint(0).lemma_local(y.adjoint(0));
    assert forall|i: int, j: int|
        0 <= i < x.kd() && 0 <= j < x.vd() implies #[trigger] r.d_s.at(a, h, i, j)
        == y.passed_back(-1)(i, j) by {
        assert(u.adjoint(0).d_s()(i, j) == y.adjoint(0).d_s()(i, j));
        assert(d_s.at(index::flat2(nt, hh, 0), i, j) == u.adjoint(0).d_s()(i, j));
    }
}

/// Whether the buffer holds the gradient of the state before chunk `t` of head `h`.
pub open spec fn chained_state<F: Scalar>(x: BackIn<F>, d_s: Tensor3<F>, h: int, t: int) -> bool {
    forall|i: int, j: int|
        0 <= i < x.kd() && 0 <= j < x.vd() ==> #[trigger] d_s.at(
            index::flat2(x.nt as int, h, t),
            i,
            j,
        ) == x.chain(h).adjoint(t).d_s()(i, j)
}

/// Whether the blocks of head `h` of batch `a` are its chunks.
spec fn blocks_are<F: Scalar>(x: Tensor3<F>, y: Tensor4<F>, nt: int, a: int, h: int) -> bool {
    forall|t: int, r: int, i: int|
        0 <= t < nt && 0 <= r < x.d1 && 0 <= i < x.d2 ==> #[trigger] x.at(
            index::flat2(nt, index::flat2(y.d1 as int, a, h), t),
            r,
            i,
        ) == y.at(a, h, t * x.d1 + r, i)
}

/// The first of the `nt` blocks of each head.
fn first_states<F: Scalar>(d_s: &Tensor3<F>, batch: usize, heads: usize, nt: usize) -> (r: Tensor4<
    F,
>)
    requires
        d_s.wf(),
        nt >= 1,
        d_s.d0 == batch * heads * nt,
        batch * heads <= usize::MAX,
        batch * heads * d_s.d1 <= usize::MAX,
        batch * heads * d_s.d1 * d_s.d2 <= usize::MAX,
        d_s.d1 * d_s.d2 <= usize::MAX,
    ensures
        r.shaped(batch as int, heads as int, d_s.d1 as int, d_s.d2 as int),
        forall|a: int, h: int, i: int, j: int|
            0 <= a < batch && 0 <= h < heads && 0 <= i < d_s.d1 && 0 <= j < d_s.d2 ==> #[trigger] r.at(
                a,
                h,
                i,
                j,
            ) == d_s.at(index::flat2(nt as int, index::flat2(heads as int, a, h), 0), i, j),
{
    let mut r = Tensor4::<F>::zeros(batch, heads, d_s.d1, d_s.d2);
    for a in 0..batch
        invariant
            d_s.wf(),
            nt >= 1,
            d_s.d0 == batch * heads * nt,
            d_s.d1 * d_s.d2 <= usize::MAX,
            r.shaped(batch as int, heads as int, d_s.d1 as int, d_s.d2 as int),
            forall|x: int, y: int, i: int, j: int|
                0 <= x < a && 0 <= y < heads && 0 <= i < d_s.d1 && 0 <= j < d_s.d2
                    ==> #[trigger] r.at(x, y, i, j) == d_s.at(
                    index::flat2(nt as int, index::flat2(heads as int, x, y), 0),
                    i,
                    j,
                ),
    {
        for h in 0..heads
            invariant
                d_s.wf(),
                nt >= 1,
                a < batch,
                d_s.d0 == batch * heads * nt,
                d_s.d1 * d_s.d2 <= usize::MAX,
                r.shaped(batch as int, heads as int, d_s.d1 as int, d_s.d2 as int),
                forall|x: int, y: int, i: int, j: int|
                    0 <= y < heads && (0 <= x < a || (x == a && y < h)) && 0 <= i < d_s.d1 && 0
                        <= j < d_s.d2 ==> #[trigger] r.at(x, y, i, j) == d_s.at(
                        index::flat2(nt as int, index::flat2(heads as int, x, y), 0),
                        i,
                        j,
                    ),
        {
            proof {
                index::lemma_flat2_bound(batch as int, heads as int, a as int, h as int);
                index::lemma_flat2_bound(batch * heads, nt as int, a * heads + h, 0);
                let (x, y, z) = (a * heads, h as int, nt as int);
                assert(0 <= x + y <= (x + y) * z) by (nonlinear_arith)
                    requires
                        0 <= x,
                        0 <= y,
                        1 <= z,
                ;
            }
            let m = d_s.block_matrix((a * heads + h) * nt);
            r.set_head(a, h, &m);
        }
    }
    r
}

/// The chunked backward pass by the two kernels, from the buffers of the forward kernels.
pub fn fused_chunk_backward<F: Scalar>(
    fwd: &FusedBackwardInputs<F>,
    k: &Tensor4<F>,
    v: &Tensor4<F>,
    b: &Tensor4<F>,
    wg: &Tensor4<F>,
    d_out: &Tensor4<F>,
    scale: F,
    chunk_size: usize,
) -> (r: FusedBackwardOutput<F>)
    requires
        (BackPass { fwd, k, v, b, wg, d_out, scale, c: chunk_size }).wf(),
    ensures
        r.shaped((BackPass { fwd, k, v, b, wg, d_out, scale, c: chunk_size })),
        forall|a: int, h: int|
            0 <= a < k.d0 && 0 <= h < k.d1 ==> r.head_is(
                (BackPass { fwd, k, v, b, wg, d_out, scale, c: chunk_size }),
                #[trigger] (BackPass { fwd, k, v, b, wg, d_out, scale, c: chunk_size }).chain(a, h),
                a,
                h,
            ),
{
    let ghost p = BackPass { fwd, k, v, b, wg, d_out, scale, c: chunk_size };
    let c: usize = chunk_size;
    let batch: usize = k.d0;
    let heads: usize = k.d1;
    let nt: usize = k.d2 / c;
    proof {
        let (t, cc, n) = (k.d2 as int, c as int, nt as int);
        assert(n * cc == t && n >= 1) by (nonlinear_arith)
            requires
                t % cc == 0,
                cc >= 1,
                t >= cc,
                n == t / cc,
        ;
    }
    let all: usize = batch * heads;
    let k3 = k.to_blocks(nt, c);
    let v3 = v.to_blocks(nt, c);
    let b3 = b.to_blocks(nt, c);
    let w3 = wg.to_blocks(nt, c);
    let o3 = d_out.to_blocks(nt, c);
    let x = BackIn { fwd, k: &k3, v: &v3, b: &b3, wg: &w3, d_out: &o3, scale, nt };
    let mut d_v_new = v3.copy();
    let mut d_s = fwd.states.copy();
    gdn2_chunk_inter_adjoint_kernel(&x, all, &mut d_v_new, &mut d_s);
    let z = token_blocks(&x, all, &d_v_new, &d_s);
    proof {
        let (bh, t, n, kd, vd) = (all as int, k.d2 as int, nt as int, k.d3 as int, v.d3 as int);
        assert(bh * kd <= bh * t * kd && bh * kd * vd <= bh * n * kd * vd) by (nonlinear_arith)
            requires
                0 <= bh,
                0 <= kd,
                0 <= vd,
                1 <= t,
                1 <= n,
        {
            assert(bh <= bh * t);
            assert(bh <= bh * n);
            assert(bh * kd <= bh * n * kd);
        }
    }
    let first = first_states(&d_s, batch, heads, nt);
    let r = FusedBackwardOutput {
        d_q: Tensor4::from_blocks(&z.d_q, batch, heads, nt),
        d_k: Tensor4::from_blocks(&z.d_k, batch, heads, nt),
        d_v: Tensor4::from_blocks(&z.d_v, batch, heads, nt),
        d_g: Tensor4::from_blocks(&z.d_g, batch, heads, nt),
        d_b: Tensor4::from_blocks(&z.d_b, batch, heads, nt),
        d_w: Tensor4::from_blocks(&z.d_w, batch, heads, nt),
        d_s: first,
    };
    proof {
        assert forall|a: int, h: int| 0 <= a < k.d0 && 0 <= h < k.d1 implies r.head_is(
            p,
            #[trigger] p.chain(a, h),
            a,
            h,
        ) by {
            let hh = index::flat2(heads as int, a, h);
            index::lemma_flat2_bound(batch as int, heads as int, a, h);
            assert(chained(x, d_v_new, d_s, hh, 0));
            lemma_head_gradients(p, x, z, d_s, r, a, h);
        }
    }
    r
}

} // verus!
