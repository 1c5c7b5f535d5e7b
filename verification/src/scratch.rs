//! The forward pass of a training step: the kernels where they apply, else the chunked form, with
//! the intermediates that the backward pass reads either way.

use vstd::prelude::*;

use crate::autodiff::{ChunkWy, ChunkWyGradients};
use crate::forward;
use crate::forward::{chunk_wy_forward, chunk_wy_forward_impl, ChunkScratch, ChunkWyScratch};
use crate::gradient;
use crate::grid::Grid;
use crate::index;
use crate::kernel::chunk_cube;
use crate::kernel::chunk_cube::IntraBuffers;
use crate::kernel::fused_chunk;
use crate::kernel::fused_chunk::{run_kernels, Block};
use crate::kernel::fused_gradient;
use crate::pairing;
use crate::recurrence::Head;
use crate::scalar;
use crate::scalar::{ExactScalar, Scalar};
use crate::streams;
use crate::streams::Streams;
use crate::tensor::{Matrix, Tensor3, Tensor4};
use crate::wy::Pass;

verus! {

/// The decays of block `k`, divided out of what the kernels export.
pub open spec fn recovered<F: Scalar>(k: Block<F>) -> Grid<F> {
    |r: int, i: int| (k.k)(r, i).times(k.e()(k.c - 1, i)).over(k.kgd()(r, i))
}

impl<F: Scalar> ChunkScratch<F> {
    /// Whether the intermediates of head `h` in batch `a` are those that the kernels export for
    /// block `k`.
    pub open spec fn block_is(self, k: Block<F>, a: int, h: int) -> bool {
        &&& forall|r: int, i: int|
            0 <= r < k.c && 0 <= i < k.kd ==> #[trigger] self.g_exp.at(a, h, r, i) == recovered(k)(
                r,
                i,
            )
        &&& forall|r: int, i: int|
            0 <= r < k.c && 0 <= i < k.kd ==> #[trigger] self.q_gated.at(a, h, r, i) == k.qgt()(i, r)
        &&& forall|r: int, s: int|
            0 <= r < k.c && 0 <= s < k.c ==> #[trigger] self.aqk.at(a, h, r, s) == k.aqk()(s, r)
        &&& forall|r: int, s: int|
            0 <= r < k.c && 0 <= s < k.c ==> #[trigger] self.m_inv.at(a, h, r, s) == k.m()(r, s)
    }

    /// Whether these are the intermediates that the kernels export for chunk `t`.
    pub open spec fn exported(self, x: Streams<F>, scale: F, state: Tensor4<F>, c: int, t: int) -> bool {
        &&& self.shaped(x.batch(), x.heads(), c, x.kd())
        &&& forall|a: int, h: int|
            0 <= a < x.batch() && 0 <= h < x.heads() ==> self.block_is(
                #[trigger] fused_chunk::fused_head(x, scale, state, c, a, h).block(t),
                a,
                h,
            )
    }
}

/// The decays of block `n`, from its keys, the keys decayed to its end and its last decays.
fn recovered_decays<F: Scalar>(
    k: &Matrix<F>,
    y: &IntraBuffers<F>,
    n: usize,
    Ghost(b): Ghost<Block<F>>,
) -> (e: Matrix<F>)
    requires
        k.holds(b.c, b.kd, b.k),
        y.glast.wf(),
        y.glast.cols == b.kd,
        n < y.glast.rows,
        y.kgd.shaped(y.kgd.d0 as int, b.c, b.kd),
        n < y.kgd.d0,
        fused_chunk::block_buffers(*y, b, n as int),
    ensures
        e.holds(b.c, b.kd, recovered(b)),
{
    let mut e = k.copy();
    for r in 0..k.rows
        invariant
            k.holds(b.c, b.kd, b.k),
            y.glast.wf(),
            y.glast.cols == b.kd,
            n < y.glast.rows,
            y.kgd.shaped(y.kgd.d0 as int, b.c, b.kd),
            n < y.kgd.d0,
            fused_chunk::block_buffers(*y, b, n as int),
            e.shaped(b.c, b.kd),
            forall|x: int, i: int|
                0 <= x < r && 0 <= i < b.kd ==> #[trigger] e.at(x, i) == recovered(b)(x, i),
    {
        for i in 0..k.cols
            invariant
                k.holds(b.c, b.kd, b.k),
                y.glast.wf(),
                y.glast.cols == b.kd,
                n < y.glast.rows,
                r < b.c,
                y.kgd.shaped(y.kgd.d0 as int, b.c, b.kd),
                n < y.kgd.d0,
                fused_chunk::block_buffers(*y, b, n as int),
                e.shaped(b.c, b.kd),
                forall|x: int, l: int|
                    0 <= l < b.kd && (0 <= x < r || (x == r && l < i)) ==> #[trigger] e.at(x, l)
                        == recovered(b)(x, l),
        {
            assert(chunk_cube::block(y.kgd, n as int)(r as int, i as int) == b.kgd()(
                r as int,
                i as int,
            ));
            e.set(r, i, k.get(r, i).mul(y.glast.get(n, i)).div(y.kgd.get(n, r, i)));
        }
    }
    e
}

/// The intermediates of chunk `t`, from the blocks of the keys and the buffers of the kernels.
fn rebuilt<F: Scalar>(
    k3: &Tensor3<F>,
    y: &IntraBuffers<F>,
    batch: usize,
    heads: usize,
    nt: usize,
    t: usize,
    Ghost(x): Ghost<Streams<F>>,
    Ghost(scale): Ghost<F>,
    Ghost(state): Ghost<Tensor4<F>>,
) -> (sc: ChunkScratch<F>)
    requires
        x.wf(),
        batch == x.batch(),
        heads == x.heads(),
        t < nt,
        k3.d1 >= 1,
        nt == x.tokens() / (k3.d1 as int),
        k3.shaped(batch * heads * nt, k3.d1 as int, x.kd()),
        forall|a: int, h: int, m: int, r: int, i: int|
            0 <= a < batch && 0 <= h < heads && 0 <= m < nt && 0 <= r < k3.d1 && 0 <= i < x.kd()
                ==> #[trigger] k3.at(
                index::flat2(nt as int, index::flat2(heads as int, a, h), m),
                r,
                i,
            ) == x.k.at(a, h, m * k3.d1 + r, i),
        fused_chunk::buffers_of(x, scale, state, k3.d1 as int, *y),
        batch * heads <= usize::MAX,
        batch * heads * k3.d1 <= usize::MAX,
        batch * heads * k3.d1 * x.kd() <= usize::MAX,
        batch * heads * k3.d1 * k3.d1 <= usize::MAX,
    ensures
        sc.exported(x, scale, state, k3.d1 as int, t as int),
{
    let c: usize = k3.d1;
    let kd: usize = k3.d2;
    let mut sc = ChunkScratch {
        g_exp: Tensor4::zeros(batch, heads, c, kd),
        q_gated: Tensor4::zeros(batch, heads, c, kd),
        aqk: Tensor4::zeros(batch, heads, c, c),
        m_inv: Tensor4::zeros(batch, heads, c, c),
    };
    for a in 0..batch
        invariant
            x.wf(),
            batch == x.batch(),
            heads == x.heads(),
            t < nt,
            c == k3.d1,
            c >= 1,
            kd == x.kd(),
            nt == x.tokens() / (c as int),
            k3.shaped(batch * heads * nt, c as int, x.kd()),
            forall|a: int, h: int, m: int, r: int, i: int|
                0 <= a < batch && 0 <= h < heads && 0 <= m < nt && 0 <= r < c && 0 <= i < x.kd()
                    ==> #[trigger] k3.at(
                    index::flat2(nt as int, index::flat2(heads as int, a, h), m),
                    r,
                    i,
                ) == x.k.at(a, h, m * c + r, i),
            fused_chunk::buffers_of(x, scale, state, c as int, *y),
            sc.shaped(batch as int, heads as int, c as int, kd as int),
            forall|p: int, h: int|
                0 <= p < a && 0 <= h < heads ==> sc.block_is(
                    #[trigger] fused_chunk::fused_head(x, scale, state, c as int, p, h).block(
                        t as int,
                    ),
                    p,
                    h,
                ),
    {
        for h in 0..heads
            invariant
                x.wf(),
                batch == x.batch(),
                heads == x.heads(),
                a < batch,
                t < nt,
                c == k3.d1,
                c >= 1,
                kd == x.kd(),
                nt == x.tokens() / (c as int),
                k3.shaped(batch * heads * nt, c as int, x.kd()),
                forall|a: int, h: int, m: int, r: int, i: int|
                    0 <= a < batch && 0 <= h < heads && 0 <= m < nt && 0 <= r < c && 0 <= i
                        < x.kd() ==> #[trigger] k3.at(
                        index::flat2(nt as int, index::flat2(heads as int, a, h), m),
                        r,
                        i,
                    ) == x.k.at(a, h, m * c + r, i),
                fused_chunk::buffers_of(x, scale, state, c as int, *y),
                sc.shaped(batch as int, heads as int, c as int, kd as int),
                forall|p: int, q: int|
                    0 <= q < heads && (0 <= p < a || (p == a && q < h)) ==> sc.block_is(
                        #[trigger] fused_chunk::fused_head(x, scale, state, c as int, p, q).block(
                            t as int,
                        ),
                        p,
                        q,
                    ),
        {
            proof {
                index::lemma_flat2_bound(batch as int, heads as int, a as int, h as int);
                index::lemma_flat2_bound(batch * heads, nt as int, a * heads + h, t as int);
                let (u, v, w, z) = (a as int, heads as int, h as int, nt as int);
                assert(0 <= (u * v + w) * z && u * v + w <= (u * v + w) * z && u * v <= u * v + w)
                    by (nonlinear_arith)
                    requires
                        0 <= u,
                        0 <= v,
                        0 <= w,
                        1 <= z,
                ;
            }
            let n: usize = (a * heads + h) * nt + t;
            let ghost f = fused_chunk::fused_head(x, scale, state, c as int, a as int, h as int);
            let ghost b = f.block(t as int);
            assert(fused_chunk::block_buffers(*y, b, n as int)) by {
                assert(n == index::flat2(
                    nt as int,
                    index::flat2(heads as int, a as int, h as int),
                    t as int,
                ));
            }
            let k = k3.block_matrix(n);
            assert(k.holds(b.c, b.kd, b.k)) by {
                assert forall|r: int, i: int| 0 <= r < c && 0 <= i < kd implies #[trigger] k.at(r, i)
                    == (b.k)(r, i) by {
                    assert(k3.at(
                        index::flat2(
                            nt as int,
                            index::flat2(heads as int, a as int, h as int),
                            t as int,
                        ),
                        r,
                        i,
                    ) == x.k.at(a as int, h as int, t * c + r, i));
                }
            }
            let e = recovered_decays(&k, y, n, Ghost(b));
            let qg = y.qgt.block_matrix(n).transposed();
            let aqk = y.aqk.block_matrix(n).transposed();
            let m_inv = y.m_inv.block_matrix(n);
            let ghost before = sc;
            sc.g_exp.set_head(a, h, &e);
            sc.q_gated.set_head(a, h, &qg);
            sc.aqk.set_head(a, h, &aqk);
            sc.m_inv.set_head(a, h, &m_inv);
            proof {
                assert(sc.block_is(b, a as int, h as int)) by {
                    assert forall|r: int, i: int|
                        0 <= r < b.c && 0 <= i < b.kd implies #[trigger] sc.q_gated.at(
                        a as int,
                        h as int,
                        r,
                        i,
                    ) == b.qgt()(i, r) by {
                        assert(chunk_cube::block(y.qgt, n as int)(i, r) == b.qgt()(i, r));
                    }
                    assert forall|r: int, s: int|
                        0 <= r < b.c && 0 <= s < b.c implies #[trigger] sc.aqk.at(
                        a as int,
                        h as int,
                        r,
                        s,
                    ) == b.aqk()(s, r) by {
                        assert(chunk_cube::block(y.aqk, n as int)(s, r) == b.aqk()(s, r));
                    }
                    assert forall|r: int, s: int|
                        0 <= r < b.c && 0 <= s < b.c implies #[trigger] sc.m_inv.at(
                        a as int,
                        h as int,
                        r,
                        s,
                    ) == b.m()(r, s) by {
                        assert(chunk_cube::block(y.m_inv, n as int)(r, s) == b.m()(r, s));
                    }
                }
                assert forall|p: int, q: int|
                    0 <= q < heads && (0 <= p < a || (p == a && q < h + 1)) implies sc.block_is(
                    #[trigger] fused_chunk::fused_head(x, scale, state, c as int, p, q).block(
                        t as int,
                    ),
                    p,
                    q,
                ) by {
                    if !(p == a && q == h) {
                        assert(before.block_is(
                            fused_chunk::fused_head(x, scale, state, c as int, p, q).block(
                                t as int,
                            ),
                            p,
                            q,
                        ));
                    }
                }
            }
        }
    }
    sc
}

/// Whether the kernels run on inputs of this shape: they are available, and take it.
pub open spec fn by_kernels<F: Scalar>(x: Streams<F>, c: int, kernels: bool) -> bool {
    kernels && fused_chunk::launchable(x.tokens(), x.kd(), x.vd(), c)
}

/// Whether these are the outputs, the state and the intermediates of the training step `p`.
pub open spec fn training_outputs<F: Scalar>(
    p: Pass<F>,
    kernels: bool,
    out: Tensor4<F>,
    next: Tensor4<F>,
    sc: ChunkWyScratch<F>,
) -> bool {
    if by_kernels(p.x, p.size, kernels) {
        &&& fused_chunk::fused_outputs(p.x, p.scale, p.state, p.size, out, next)
        &&& sc.chunks@.len() == p.x.tokens() / p.size
        &&& forall|t: int|
            0 <= t < sc.chunks@.len() ==> (#[trigger] sc.chunks@[t]).exported(
                p.x,
                p.scale,
                p.state,
                p.size,
                t,
            )
    } else {
        forward::chunked(p, out, next, sc)
    }
}

/// The forward pass of a training step, with the intermediates that the backward pass reads.
/// `kernels` says whether the fused kernels are available; where they do not take the shape, the
/// chunked form runs instead.
pub fn chunk_wy_forward_autodiff<F: Scalar>(
    q: &Tensor4<F>,
    k: &Tensor4<F>,
    v: &Tensor4<F>,
    g: &Tensor4<F>,
    b: &Tensor4<F>,
    w: &Tensor4<F>,
    state: &Tensor4<F>,
    scale: F,
    chunk_size: usize,
    kernels: bool,
) -> (r: (Tensor4<F>, Tensor4<F>, ChunkWyScratch<F>))
    requires
        forward::pass_of(q, k, v, g, b, w, *state, scale, chunk_size as int, None).wf(),
        forward::pass_of(q, k, v, g, b, w, *state, scale, chunk_size as int, None).addressable(),
        kernels ==> g.d3 == q.d3 && b.d3 == q.d3 && fused_chunk::addressable(
            (Streams { q, k, v, g, b, w }),
            chunk_size as int,
        ),
    ensures
        training_outputs(
            forward::pass_of(q, k, v, g, b, w, *state, scale, chunk_size as int, None),
            kernels,
            r.0,
            r.1,
            r.2,
        ),
{
    if kernels {
        if let Some((out, next, y)) = run_kernels(q, k, v, g, b, w, state, scale, chunk_size) {
            let chunks = rebuilt_chunks(q, k, v, g, b, w, state, scale, chunk_size, &y);
            return (out, next, ChunkWyScratch { chunks });
        }
    }
    chunk_wy_forward_impl(q, k, v, g, b, w, state, scale, chunk_size, None)
}

/// The forward pass of a training step where the inputs are recorded, with the intermediates that
/// the backward pass reads; else the plain chunked pass.
pub fn chunk_autodiff_or_plain<F: Scalar>(
    q: &Tensor4<F>,
    k: &Tensor4<F>,
    v: &Tensor4<F>,
    g: &Tensor4<F>,
    b: &Tensor4<F>,
    w: &Tensor4<F>,
    state: &Tensor4<F>,
    scale: F,
    chunk_size: usize,
    kernels: bool,
    recorded: bool,
) -> (r: (Tensor4<F>, Tensor4<F>, Option<ChunkWyScratch<F>>))
    requires
        forward::pass_of(q, k, v, g, b, w, *state, scale, chunk_size as int, None).wf(),
        forward::pass_of(q, k, v, g, b, w, *state, scale, chunk_size as int, None).addressable(),
        kernels ==> g.d3 == q.d3 && b.d3 == q.d3 && fused_chunk::addressable(
            (Streams { q, k, v, g, b, w }),
            chunk_size as int,
        ),
    ensures
        r.2.is_some() == recorded,
        r.2 matches Some(sc) ==> training_outputs(
            forward::pass_of(q, k, v, g, b, w, *state, scale, chunk_size as int, None),
            kernels,
            r.0,
            r.1,
            sc,
        ),
        !recorded ==> forward::chunked_outputs(
            forward::pass_of(q, k, v, g, b, w, *state, scale, chunk_size as int, None),
            r.0,
            r.1,
        ),
{
    if recorded {
        let (out, next, sc) = chunk_wy_forward_autodiff(
            q,
            k,
            v,
            g,
            b,
            w,
            state,
            scale,
            chunk_size,
            kernels,
        );
        (out, next, Some(sc))
    } else {
        let (out, next) = chunk_wy_forward(q, k, v, g, b, w, state, scale, chunk_size);
        (out, next, None)
    }
}

/// The intermediates of all chunks, from the buffers of the kernels.
fn rebuilt_chunks<F: Scalar>(
    q: &Tensor4<F>,
    k: &Tensor4<F>,
    v: &Tensor4<F>,
    g: &Tensor4<F>,
    b: &Tensor4<F>,
    w: &Tensor4<F>,
    state: &Tensor4<F>,
    scale: F,
    c: usize,
    y: &IntraBuffers<F>,
) -> (chunks: Vec<ChunkScratch<F>>)
    requires
        (Streams { q, k, v, g, b, w }).wf(),
        c >= 1,
        q.d2 as int % c as int == 0,
        q.d2 > 0,
        fused_chunk::addressable((Streams { q, k, v, g, b, w }), c as int),
        fused_chunk::buffers_of((Streams { q, k, v, g, b, w }), scale, *state, c as int, *y),
    ensures
        chunks@.len() == q.d2 as int / c as int,
        forall|t: int|
            0 <= t < chunks@.len() ==> (#[trigger] chunks@[t]).exported(
                (Streams { q, k, v, g, b, w }),
                scale,
                *state,
                c as int,
                t,
            ),
{
    let ghost x = Streams { q, k, v, g, b, w };
    let nt: usize = q.d2 / c;
    proof {
        let (bh, t, n, cc, kd) = (x.batch() * x.heads(), x.tokens(), nt as int, c as int, x.kd());
        assert(0 <= bh) by (nonlinear_arith)
            requires
                bh == x.q.d0 * x.q.d1,
        ;
        assert(n * cc == t && n >= 1 && n <= t && cc <= t) by (nonlinear_arith)
            requires
                t % cc == 0,
                t > 0,
                cc >= 1,
                n == t / cc,
        ;
        assert(bh * n <= bh * t && bh * cc <= bh * t && bh * cc * kd <= bh * t * kd && bh * cc * cc
            <= bh * t * cc) by (nonlinear_arith)
            requires
                0 <= bh,
                0 <= kd,
                0 <= n <= t,
                1 <= cc <= t,
        {
            assert(bh * cc <= bh * t);
        }
    }
    let k3 = k.to_blocks(nt, c);
    let mut chunks: Vec<ChunkScratch<F>> = Vec::new();
    for t in 0..nt
        invariant
            x == (Streams { q, k, v, g, b, w }),
            x.wf(),
            nt == x.tokens() / (c as int),
            c >= 1,
            k3.shaped(x.batch() * x.heads() * nt, c as int, x.kd()),
            forall|a: int, h: int, m: int, r: int, i: int|
                0 <= a < x.batch() && 0 <= h < x.heads() && 0 <= m < nt && 0 <= r < c && 0 <= i
                    < x.kd() ==> #[trigger] k3.at(
                    index::flat2(nt as int, index::flat2(x.heads(), a, h), m),
                    r,
                    i,
                ) == x.k.at(a, h, m * c + r, i),
            fused_chunk::buffers_of(x, scale, *state, c as int, *y),
            x.batch() * x.heads() <= usize::MAX,
            x.batch() * x.heads() * c <= usize::MAX,
            x.batch() * x.heads() * c * x.kd() <= usize::MAX,
            x.batch() * x.heads() * c * c <= usize::MAX,
            chunks@.len() == t,
            forall|m: int|
                0 <= m < t ==> (#[trigger] chunks@[m]).exported(x, scale, *state, c as int, m),
    {
        chunks.push(
            rebuilt(&k3, y, q.d0, q.d1, nt, t, Ghost(x), Ghost(scale), Ghost(*state)),
        );
    }
    chunks
}

/// What the backward pass gets is what the kernels left of the inputs.
pub open spec fn follows_kernels<F: Scalar>(
    y: ChunkWy<F>,
    x: Streams<F>,
    scale: F,
    state: Tensor4<F>,
) -> bool {
    &&& *y.k == *x.k
    &&& *y.v == *x.v
    &&& *y.b == *x.b
    &&& *y.w == *x.w
    &&& *y.s_in == state
    &&& y.scale == scale
    &&& forall|t: int|
        0 <= t < y.count() ==> (#[trigger] y.scratch.chunks@[t]).exported(
            x,
            scale,
            state,
            y.chunk_size as int,
            t,
        )
}

/// In exact arithmetic `ChunkWy::backward`, run on what the kernels left, returns the gradient of
/// the outputs wherever the decays are recovered: for every direction in which the tokens and the
/// initial state of a head change, the change of its outputs weighted by `d_out` is the change of
/// its inputs weighted by what was returned.
pub proof fn kernel_scratch_is_gradient<F: ExactScalar>(
    y: ChunkWy<F>,
    x: Streams<F>,
    scale: F,
    state: Tensor4<F>,
    d_out: Tensor4<F>,
    r: ChunkWyGradients<F>,
    a: int,
    h: int,
    dir: Head<F>,
    dir_s: Grid<F>,
)
    requires
        x.wf(),
        x.carries(state),
        y.wf(),
        y.tokens() % (y.chunk_size as int) == 0,
        follows_kernels(y, x, scale, state),
        0 <= a < x.batch(),
        0 <= h < x.heads(),
        forall|t: int, q: int, i: int|
            0 <= t < y.count() && 0 <= q < y.chunk_size && 0 <= i < x.kd() ==> #[trigger] recovered(
                fused_chunk::fused_head(x, scale, state, y.chunk_size as int, a, h).block(t),
            )(q, i) == fused_chunk::fused_head(
                x,
                scale,
                state,
                y.chunk_size as int,
                a,
                h,
            ).block(t).e()(q, i),
        r.rows_are(y.head(d_out, a, h), a, h, 0),
        forall|i: int, j: int|
            0 <= i < y.kd() && 0 <= j < y.vd() ==> #[trigger] r.d_s.at(a, h, i, j) == y.head(
                d_out,
                a,
                h,
            ).d_s(i, j),
    ensures
        ({
            let hd = gradient::lifted_head(x.head(scale, a, h), dir);
            let s = gradient::lifted(streams::state_of(state, a, h), dir_s);
            pairing::pair(
                x.tokens(),
                x.vd(),
                streams::state_of(d_out, a, h),
                |t: int, j: int| hd.output(s, t, j).eps,
            ) == pairing::pair(
                x.kd(),
                x.vd(),
                streams::state_of(r.d_s, a, h),
                dir_s,
            ).plus(
                scalar::total(
                    x.tokens(),
                    |t: int| gradient::change(gradient::returned(r, a, h), hd, t),
                ),
            )
        }),
{
    let (c, tokens) = (y.chunk_size as int, x.tokens());
    let n = tokens / c;
    assert(n * c == tokens && n >= 0) by (nonlinear_arith)
        requires
            c >= 1,
            tokens >= 0,
            tokens % c == 0,
            n == tokens / c,
    ;
    let f = fused_chunk::fused_head(x, scale, state, c, a, h);
    let ck = f.chunking(n);
    fused_gradient::lemma_whole_chunks(f, n);
    let d = streams::state_of(d_out, a, h);
    let t1 = y.head(d_out, a, h);
    let t2 = gradient::tape_of(ck, d);
    assert(t1.agrees(t2)) by {
        assert forall|t: int, i: int| 0 <= t < t1.tokens && 0 <= i < t1.kd implies #[trigger] (t1.b)(
            t,
            i,
        ) == (t2.b)(t, i) by {}
        assert forall|t: int| 0 <= t < t1.count() implies #[trigger] t1.chunk_agrees(t2, t) by {
            lemma_kernel_chunk(y, x, scale, state, d_out, a, h, t);
        }
    }
    gradient::lemma_tape_gradient(ck, t1, d, r, a, h, dir, dir_s);
}

/// What the kernels left of chunk `t` is what the tape of the head holds.
proof fn lemma_kernel_chunk<F: ExactScalar>(
    y: ChunkWy<F>,
    x: Streams<F>,
    scale: F,
    state: Tensor4<F>,
    d_out: Tensor4<F>,
    a: int,
    h: int,
    t: int,
)
    requires
        x.wf(),
        y.wf(),
        y.tokens() % (y.chunk_size as int) == 0,
        follows_kernels(y, x, scale, state),
        0 <= a < x.batch(),
        0 <= h < x.heads(),
        0 <= t < y.count(),
        forall|q: int, i: int|
            0 <= q < y.chunk_size && 0 <= i < x.kd() ==> #[trigger] recovered(
                fused_chunk::fused_head(x, scale, state, y.chunk_size as int, a, h).block(t),
            )(q, i) == fused_chunk::fused_head(
                x,
                scale,
                state,
                y.chunk_size as int,
                a,
                h,
            ).block(t).e()(q, i),
    ensures
        y.head(d_out, a, h).chunk_agrees(
            gradient::tape_of(
                fused_chunk::fused_head(x, scale, state, y.chunk_size as int, a, h).chunking(
                    x.tokens() / (y.chunk_size as int),
                ),
                streams::state_of(d_out, a, h),
            ),
            t,
        ),
{
    let (c, tokens) = (y.chunk_size as int, x.tokens());
    let n = tokens / c;
    assert(n * c == tokens && n >= 0) by (nonlinear_arith)
        requires
            c >= 1,
            tokens >= 0,
            tokens % c == 0,
            n == tokens / c,
    ;
    let f = fused_chunk::fused_head(x, scale, state, c, a, h);
    let ck = f.chunking(n);
    fused_gradient::lemma_whole_chunks(f, n);
    assert(ck.len(t) == c);
    fused_gradient::lemma_exports(f, n, t);
    let k = f.block(t);
    let sc = y.scratch.chunks@[t];
    assert(sc.exported(x, scale, state, c, t));
    assert(sc.block_is(k, a, h));
    let t1 = y.head(d_out, a, h);
    let t2 = gradient::tape_of(ck, streams::state_of(d_out, a, h));
    let (u, z) = (f.exports(t), gradient::replay_of(ck.chunk(t)).exports());
    assert forall|r: int, i: int| 0 <= r < c && 0 <= i < t1.kd implies #[trigger] (t1.e)(t, r, i)
        == (t2.e)(t, r, i) by {
        assert(recovered(k)(r, i) == k.e()(r, i));
        assert((u.e)(r, i) == (z.e)(r, i));
    }
    assert forall|r: int, i: int| 0 <= r < c && 0 <= i < t1.kd implies #[trigger] (t1.qg)(t, r, i)
        == (t2.qg)(t, r, i) by {
        assert((u.qg)(r, i) == (z.qg)(r, i));
    }
    assert forall|r: int, l: int| 0 <= r < c && 0 <= l < c implies #[trigger] (t1.aqk)(t, r, l)
        == (t2.aqk)(t, r, l) by {
        assert((u.aqk)(r, l) == (z.aqk)(r, l));
    }
    assert forall|r: int, l: int| 0 <= r < c && 0 <= l < c implies #[trigger] (t1.m)(t, r, l)
        == (t2.m)(t, r, l) by {
        assert((u.m)(r, l) == (z.m)(r, l));
    }
}

} // verus!
