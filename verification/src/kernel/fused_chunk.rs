//! The chunked forward pass by the two kernels: when it applies, how it is launched, and what it
//! returns.

use vstd::prelude::*;

use crate::algebra;
use crate::equivalence;
use crate::forward;
use crate::grid;
use crate::grid::Grid;
use crate::index;
use crate::kernel::chunk_adjoint_cube::FusedBackwardInputs;
use crate::kernel::chunk_cube;
use crate::kernel::chunk_cube::{
    gdn2_chunk_inter_kernel, gdn2_chunk_intra_kernel, Inter, IntraBuffers, IntraIn, STAGES_INTER,
    STAGES_INTRA, STAGE_DECAYS, STAGE_GATES, STAGE_INVERSE, STAGE_OUTPUTS, STAGE_PSEUDO,
    STAGE_SCORES, STAGE_STATE, STAGE_WRITES,
};
use crate::kernel::fused_recurrent;
use crate::linalg;
use crate::linalg::Op;
use crate::locality;
use crate::pairing;
use crate::recurrence;
use crate::recurrence::Head;
use crate::scalar;
use crate::scalar::{ExactScalar, Scalar};
use crate::streams;
use crate::streams::Streams;
use crate::tensor::{Matrix, Tensor3, Tensor4};
use crate::wy::{Chunk, Pass};

verus! {

/// Longest chunk of the kernels.
pub const MAX_CHUNK: usize = 64;

/// Most key or value channels of the kernels.
pub const MAX_CHANNELS: usize = 256;

/// Most key channels with which the second kernel stages its inputs.
pub const MAX_STAGED_CHANNELS: usize = 64;

/// Value columns per lane of the second kernel.
pub const COLUMNS_PER_LANE: usize = 2;

/// How the two kernels are launched.
#[derive(Clone, Copy, Debug, PartialEq, Eq, Structural)]
pub struct ChunkLaunch {
    /// Chunks per head.
    pub nt: usize,
    /// Heads over all batches.
    pub heads: usize,
    /// Cubes of the first kernel, one per head and chunk, each `(chunk, 8)` lanes.
    pub blocks: usize,
    /// Value columns per cube of the second kernel.
    pub vtile: usize,
    /// Lanes per row of the second kernel.
    pub lanes: usize,
    /// Cubes per head of the second kernel.
    pub tiles: usize,
}

/// Whether the kernels take this shape: whole chunks, at least one, and extents within limits.
pub open spec fn launchable(time: int, k_dim: int, v_dim: int, c: int) -> bool {
    time % c == 0 && time != 0 && c <= MAX_CHUNK && k_dim <= MAX_CHANNELS && v_dim <= MAX_CHANNELS
}

/// The launch of the kernels for this shape, if they take it.
pub fn chunk_launch(
    batch: usize,
    heads: usize,
    time: usize,
    k_dim: usize,
    v_dim: usize,
    c: usize,
) -> (r: Option<ChunkLaunch>)
    requires
        c > 0,
        batch * heads * time <= usize::MAX,
        batch * heads <= usize::MAX,
    ensures
        r.is_some() == launchable(time as int, k_dim as int, v_dim as int, c as int),
        r matches Some(l) ==> {
            &&& l.nt * c == time
            &&& l.nt >= 1
            &&& l.heads == batch * heads
            &&& l.blocks == l.heads * l.nt
            &&& l.vtile == (if k_dim <= MAX_STAGED_CHANNELS {
                8int
            } else {
                2int
            })
            &&& l.vtile == l.lanes * COLUMNS_PER_LANE
            &&& (l.tiles - 1) * l.vtile < v_dim <= l.tiles * l.vtile
        },
{
    if time % c != 0 || time == 0 {
        return None;
    }
    if c > MAX_CHUNK || k_dim > MAX_CHANNELS || v_dim > MAX_CHANNELS {
        return None;
    }
    let nt: usize = time / c;
    let (vtile, lanes): (usize, usize) = if k_dim <= MAX_STAGED_CHANNELS {
        (8, 4)
    } else {
        (2, 1)
    };
    let tiles: usize = (v_dim + vtile - 1) / vtile;
    proof {
        let (t, cc, n, bh) = (time as int, c as int, nt as int, batch * heads);
        assert(n * cc == t && n >= 1 && n <= t) by (nonlinear_arith)
            requires
                cc > 0,
                t > 0,
                t % cc == 0,
                n == t / cc,
        ;
        assert(0 <= bh * n <= bh * t) by (nonlinear_arith)
            requires
                0 <= bh,
                0 <= n <= t,
        ;
        assert(0 <= bh) by (nonlinear_arith)
            requires
                bh == batch * heads,
        ;
    }
    proof {
        let (v, w, n) = (v_dim as int, vtile as int, tiles as int);
        assert((n - 1) * w < v <= n * w) by (nonlinear_arith)
            requires
                w > 0,
                v >= 0,
                n == (v + w - 1) / w,
        ;
    }
    let all: usize = batch * heads;
    Some(ChunkLaunch { nt, heads: all, blocks: all * nt, vtile, lanes, tiles })
}

/// One block of the kernels: the inputs of a chunk.
#[verifier::ext_equal]
pub struct Block<F> {
    pub c: int,
    pub kd: int,
    pub vd: int,
    pub q: Grid<F>,
    pub k: Grid<F>,
    pub v: Grid<F>,
    pub g: Grid<F>,
    pub b: Grid<F>,
    pub w: Grid<F>,
    pub scale: F,
}

impl<F: Scalar> Block<F> {
    /// Decays from the start of the chunk.
    pub open spec fn e(self) -> Grid<F> {
        |r: int, i: int| scalar::compensated(r + 1, |y: int| (self.g)(y, i)).0.raised()
    }

    /// Keys with the decay divided out, by channel and row.
    pub open spec fn kgt(self) -> Grid<F> {
        |i: int, r: int| (self.k)(r, i).over(self.e()(r, i))
    }

    /// Decayed gated keys, by channel and row.
    pub open spec fn bkt(self) -> Grid<F> {
        |i: int, r: int| (self.b)(r, i).times((self.k)(r, i)).times(self.e()(r, i))
    }

    /// Decayed queries, by channel and row.
    pub open spec fn qgt(self) -> Grid<F> {
        |i: int, r: int| (self.q)(r, i).times(self.e()(r, i))
    }

    /// Gated values, by channel and row.
    pub open spec fn wvt(self) -> Grid<F> {
        |j: int, r: int| (self.w)(r, j).times((self.v)(r, j))
    }

    /// Keys decayed to the end of the chunk.
    pub open spec fn kgd(self) -> Grid<F> {
        |r: int, i: int| (self.k)(r, i).times(self.e()(self.c - 1, i)).over(self.e()(r, i))
    }

    /// Query-key scores, by key and query.
    pub open spec fn aqk(self) -> Grid<F> {
        |s: int, r: int|
            if s <= r {
                grid::t_prod(self.kd, self.qgt(), self.kgt())(r, s).times(self.scale)
            } else {
                F::nil()
            }
    }

    /// Key-key scores.
    pub open spec fn akk(self) -> Grid<F> {
        |r: int, s: int|
            if s < r {
                grid::t_prod(self.kd, self.bkt(), self.kgt())(r, s)
            } else {
                F::nil()
            }
    }

    /// The inverse of `I + akk`.
    pub open spec fn m(self) -> Grid<F> {
        |r: int, s: int| Chunk::inverse(self.akk(), r, s)
    }

    /// Pseudo-keys, by channel and row.
    pub open spec fn pk(self) -> Grid<F> {
        |i: int, r: int| grid::prod_t(self.c, self.m(), self.bkt())(r, i)
    }

    /// Pseudo-values, by channel and row.
    pub open spec fn pv(self) -> Grid<F> {
        |j: int, r: int| grid::prod_t(self.c, self.m(), self.wvt())(r, j)
    }

    /// The values that the chunk writes, from the state `s` before it.
    pub open spec fn v_new(self, s: Grid<F>) -> Grid<F> {
        grid::minus(|r: int, j: int| self.pv()(j, r), grid::t_prod(self.kd, self.pk(), s))
    }

    /// The outputs of the chunk.
    pub open spec fn out(self, s: Grid<F>) -> Grid<F> {
        grid::plus(
            grid::t_prod(self.c, self.aqk(), self.v_new(s)),
            grid::scaled(grid::t_prod(self.kd, self.qgt(), s), self.scale),
        )
    }

    /// The state after the chunk.
    pub open spec fn next(self, s: Grid<F>) -> Grid<F> {
        grid::plus(
            grid::times(s, |i: int, j: int| self.e()(self.c - 1, i)),
            grid::t_prod(self.c, self.kgd(), self.v_new(s)),
        )
    }

    /// The chunk, with the state `s` before it.
    pub open spec fn chunk(self, s: Grid<F>) -> Chunk<F> {
        Chunk {
            n: self.c,
            rows: self.c,
            tile: self.c,
            kd: self.kd,
            vd: self.vd,
            q: self.q,
            k: self.k,
            v: self.v,
            g: self.g,
            b: self.b,
            w: self.w,
            s,
            scale: self.scale,
        }
    }
}

/// A head cut into whole chunks of `c` tokens.
#[verifier::ext_equal]
pub struct FusedHead<F> {
    pub head: Head<F>,
    pub c: int,
    /// The state before the first token.
    pub s: Grid<F>,
}

impl<F: Scalar> FusedHead<F> {
    /// Chunk `t`.
    pub open spec fn block(self, t: int) -> Block<F> {
        let (h, lo) = (self.head, t * self.c);
        Block {
            c: self.c,
            kd: h.kd,
            vd: h.vd,
            q: |r: int, i: int| (h.q)(lo + r, i),
            k: |r: int, i: int| (h.k)(lo + r, i),
            v: |r: int, j: int| (h.v)(lo + r, j),
            g: |r: int, i: int| (h.g)(lo + r, i),
            b: |r: int, i: int| (h.b)(lo + r, i),
            w: |r: int, j: int| (h.w)(lo + r, j),
            scale: h.scale,
        }
    }

    /// The state before chunk `t`.
    pub open spec fn state(self, t: int) -> Grid<F>
        decreases t,
    {
        if t <= 0 {
            self.s
        } else {
            self.block(t - 1).next(self.state(t - 1))
        }
    }

    /// The output of token `t`.
    pub open spec fn output(self, t: int, j: int) -> F {
        self.block(t / self.c).out(self.state(t / self.c))(t % self.c, j)
    }
}

/// In exact arithmetic a block of the kernels computes what its tokens compute one by one.
pub proof fn block_is_recurrence<F: ExactScalar>(k: Block<F>, s: Grid<F>)
    requires
        k.c >= 1,
    ensures
        forall|t: int, j: int|
            0 <= t < k.c ==> #[trigger] k.out(s)(t, j) == k.chunk(s).head().output(s, t, j),
        forall|i: int, j: int| #[trigger]
            k.next(s)(i, j) == k.chunk(s).head().run(s, 0, k.c)(i, j),
{
    let ch = k.chunk(s);
    assert forall|r: int, i: int| true implies #[trigger] k.e()(r, i) == ch.e(r, i) by {
        let f = |y: int| (k.g)(y, i);
        let f2 = |y: int| (ch.g)(y, i);
        algebra::lemma_compensated(r + 1, f);
        algebra::lemma_total_eq(r + 1, f, f2);
    }
    assert forall|r: int, j: int| 0 <= r < k.c implies #[trigger] k.v_new(s)(r, j) == ch.written(
        r,
        j,
    ) by {
        lemma_block_writes(k, s, r, j);
    }
    assert forall|t: int, j: int| 0 <= t < k.c implies #[trigger] k.out(s)(t, j)
        == ch.head().output(s, t, j) by {
        equivalence::lemma_output_form(ch, t, j);
        let from_s = |i: int| ch.qg(t, i).times(s(i, j));
        let from_s2 = |i: int| k.qgt()(i, t).times(s(i, j));
        algebra::lemma_total_eq(ch.kd, from_s2, from_s);
        let from_v = |r: int| ch.qk(t, r).times(ch.written(r, j));
        let intra = |l: int| k.aqk()(l, t).times(k.v_new(s)(l, j));
        assert forall|l: int| 0 <= l < t + 1 implies #[trigger] intra(l) == from_v(l).times(
            ch.scale,
        ) by {
            let f = |i: int| k.qgt()(i, t).times(k.kgt()(i, l));
            let f2 = |i: int| ch.qg(t, i).times(ch.kg(l, i));
            algebra::lemma_total_eq(ch.kd, f, f2);
            algebra::lemma_times_rotate(ch.qk(t, l), ch.scale, ch.written(l, j));
        }
        assert forall|l: int| t + 1 <= l < k.c implies #[trigger] intra(l) == F::nil() by {
            algebra::lemma_times_nil(k.v_new(s)(l, j));
        }
        algebra::lemma_total_cut(k.c, t + 1, intra);
        algebra::lemma_total_times(t + 1, from_v, ch.scale, intra);
        let (a, c) = (scalar::total(ch.kd, from_s), scalar::total(t + 1, from_v));
        algebra::lemma_plus_times(a, c, ch.scale);
        F::plus_commutes(a.times(ch.scale), c.times(ch.scale));
    }
    assert forall|i: int, j: int| true implies #[trigger] k.next(s)(i, j) == ch.head().run(
        s,
        0,
        k.c,
    )(i, j) by {
        equivalence::lemma_state_form(ch, k.c, i, j);
        let theirs = |r: int| (ch.k)(r, i).times(ch.span(k.c, r, i)).times(ch.written(r, j));
        let mine = |r: int| k.kgd()(r, i).times(k.v_new(s)(r, j));
        assert forall|r: int| 0 <= r < k.c implies #[trigger] mine(r) == theirs(r) by {
            assert(k.v_new(s)(r, j) == ch.written(r, j));
            let (x, el) = ((ch.k)(r, i), ch.e(k.c - 1, i));
            F::over_raised(x.times(el), ch.g_cum(r, i));
            algebra::lemma_raised_minus(ch.g_cum(k.c - 1, i), ch.g_cum(r, i));
            F::times_associates(x, el, ch.g_cum(r, i).negated().raised());
        }
        algebra::lemma_total_eq(k.c, mine, theirs);
    }
}

/// A block writes what its tokens write one by one.
proof fn lemma_block_writes<F: ExactScalar>(k: Block<F>, s: Grid<F>, r: int, j: int)
    requires
        0 <= r < k.c,
        forall|r: int, i: int| #[trigger] k.e()(r, i) == k.chunk(s).e(r, i),
    ensures
        k.v_new(s)(r, j) == k.chunk(s).written(r, j),
{
    let ch = k.chunk(s);
    let a = k.akk();
    let m = k.m();
    assert forall|x: int, y: int| 0 <= y < x < ch.rows implies #[trigger] a(x, y) == ch.kk(
        x,
        y,
    ) by {
        let f = |i: int| k.bkt()(i, x).times(k.kgt()(i, y));
        let f2 = |i: int| ch.rhs_k(x, i).times(ch.kg(y, i));
        assert forall|i: int| 0 <= i < ch.kd implies #[trigger] f(i) == f2(i) by {
            assert(k.e()(x, i) == ch.e(x, i));
            assert(k.e()(y, i) == ch.e(y, i));
        }
        algebra::lemma_total_eq(ch.kd, f, f2);
    }
    equivalence::lemma_solution_is_written(ch, a, r, j);
    equivalence::lemma_v_new_form(ch, m, r, j);
    let f = |l: int| m(r, l).times(ch.target(l, j));
    let f2 = |l: int| Chunk::inverse(a, r, l).times(ch.target(l, j));
    algebra::lemma_total_eq(ch.rows, f, f2);
    let g = |l: int| m(r, l).times(k.wvt()(j, l));
    let g2 = |l: int| m(r, l).times(ch.rhs_v(l, j));
    algebra::lemma_total_eq(ch.rows, g, g2);
    let h = |i: int| k.pk()(i, r).times(s(i, j));
    let h2 = |i: int| ch.w_wy(m, r, i).times((ch.s)(i, j));
    assert forall|i: int| 0 <= i < ch.kd implies #[trigger] h(i) == h2(i) by {
        let p = |l: int| m(r, l).times(k.bkt()(i, l));
        let p2 = |l: int| m(r, l).times(ch.rhs_k(l, i));
        assert forall|l: int| 0 <= l < ch.rows implies #[trigger] p(l) == p2(l) by {
            assert(k.e()(l, i) == ch.e(l, i));
        }
        algebra::lemma_total_eq(ch.rows, p, p2);
    }
    algebra::lemma_total_eq(ch.kd, h, h2);
}

/// The kernels compute the recurrence in exact arithmetic: the outputs of `n` chunks and the state
/// after them are those of their tokens one by one.
pub proof fn kernels_are_recurrence<F: ExactScalar>(f: FusedHead<F>, n: int)
    requires
        f.c >= 1,
        n >= 0,
    ensures
        forall|t: int, j: int|
            0 <= t < n * f.c && 0 <= j < f.head.vd ==> #[trigger] f.output(t, j) == f.head.output(
                f.s,
                t,
                j,
            ),
        forall|i: int, j: int|
            0 <= i < f.head.kd && 0 <= j < f.head.vd ==> #[trigger] f.state(n)(i, j) == f.head.run(
                f.s,
                0,
                n * f.c,
            )(i, j),
    decreases n,
{
    if n > 0 {
        kernels_are_recurrence(f, n - 1);
        let k = f.block(n - 1);
        let s = f.state(n - 1);
        let (lo, c) = ((n - 1) * f.c, f.c);
        assert(lo + c == n * c && lo >= 0) by (nonlinear_arith)
            requires
                lo == (n - 1) * c,
                n >= 1,
                c >= 1,
        ;
        block_is_recurrence(k, s);
        let h = k.chunk(s).head();
        assert forall|t: int| 0 <= t < c implies #[trigger] h.same_token(t, f.head, lo + t) by {}
        recurrence::lemma_run_same(h, s, f.head, f.s, lo, c);
        assert forall|t: int, j: int|
            0 <= t < n * c && 0 <= j < f.head.vd implies #[trigger] f.output(t, j) == f.head.output(
            f.s,
            t,
            j,
        ) by {
            if t >= lo {
                assert(t / c == n - 1 && t % c == t - lo) by (nonlinear_arith)
                    requires
                        c >= 1,
                        lo == (n - 1) * c,
                        lo <= t < lo + c,
                ;
                assert(h.output(s, t - lo, j) == f.head.output(f.s, lo + (t - lo), j));
                assert(k.out(s)(t - lo, j) == h.output(s, t - lo, j));
            }
        }
        assert forall|i: int, j: int|
            0 <= i < f.head.kd && 0 <= j < f.head.vd implies #[trigger] f.state(n)(i, j)
            == f.head.run(f.s, 0, n * c)(i, j) by {
            assert(k.next(s)(i, j) == h.run(s, 0, c)(i, j));
        }
    } else {
        assert(n * f.c == 0) by (nonlinear_arith)
            requires
                n == 0,
        ;
    }
}

/// Whether block `n` of the inputs is `k`.
pub open spec fn input_block<F: Scalar>(x: IntraIn<F>, scale: F, k: Block<F>, n: int) -> bool {
    &&& k.c == x.c()
    &&& k.kd == x.kd()
    &&& k.vd == x.vd()
    &&& k.scale == scale
    &&& pairing::agree(k.c, k.kd, chunk_cube::block(*x.q, n), k.q)
    &&& pairing::agree(k.c, k.kd, chunk_cube::block(*x.k, n), k.k)
    &&& pairing::agree(k.c, k.kd, chunk_cube::block(*x.g, n), k.g)
    &&& pairing::agree(k.c, k.kd, chunk_cube::block(*x.b, n), k.b)
    &&& pairing::agree(k.c, k.vd, chunk_cube::block(*x.v, n), k.v)
    &&& pairing::agree(k.c, k.vd, chunk_cube::block(*x.wg, n), k.w)
}

/// Whether the phases of the first kernel have filled block `n`.
pub open spec fn filled<F: Scalar>(x: IntraIn<F>, y: IntraBuffers<F>, scale: F, n: int) -> bool {
    &&& y.decays_are(x, n)
    &&& y.gates_are(x, n)
    &&& y.scores_are(x, scale, n)
    &&& y.inverse_is(x, n)
    &&& y.pseudo_are(x, n)
}

/// The buffers of a block hold what the block computes.
proof fn lemma_block_buffers<F: Scalar>(
    x: IntraIn<F>,
    y: IntraBuffers<F>,
    scale: F,
    k: Block<F>,
    n: int,
)
    requires
        x.c() >= 1,
        input_block(x, scale, k, n),
        filled(x, y, scale, n),
    ensures
        block_buffers(y, k, n),
{
    let (c, kd, vd) = (k.c, k.kd, k.vd);
    let ge = chunk_cube::block(y.gexp, n);
    assert forall|r: int, i: int| 0 <= r < c && 0 <= i < kd implies #[trigger] ge(r, i) == k.e()(
        r,
        i,
    ) by {
        assert(y.gexp.at(n, r, i) == scalar::compensated(
            r + 1,
            |l: int| x.g.at(n, l, i),
        ).0.raised());
        let f = |l: int| x.g.at(n, l, i);
        let f2 = |l: int| (k.g)(l, i);
        assert forall|l: int| 0 <= l < r + 1 implies #[trigger] f(l) == f2(l) by {
            assert(chunk_cube::block(*x.g, n)(l, i) == (k.g)(l, i));
        }
        algebra::lemma_compensated_eq(r + 1, f, f2);
    }
    let (kgt, bkt, qgt, wvt) = (
        chunk_cube::block(y.kgt, n),
        chunk_cube::block(y.bkt, n),
        chunk_cube::block(y.qgt, n),
        chunk_cube::block(y.wvt, n),
    );
    assert forall|i: int, r: int| 0 <= i < kd && 0 <= r < c implies #[trigger] kgt(i, r) == k.kgt()(
        i,
        r,
    ) by {
        assert(ge(r, i) == k.e()(r, i));
        assert(chunk_cube::block(*x.k, n)(r, i) == (k.k)(r, i));
    }
    assert forall|i: int, r: int| 0 <= i < kd && 0 <= r < c implies #[trigger] bkt(i, r) == k.bkt()(
        i,
        r,
    ) by {
        assert(ge(r, i) == k.e()(r, i));
        assert(chunk_cube::block(*x.k, n)(r, i) == (k.k)(r, i));
        assert(chunk_cube::block(*x.b, n)(r, i) == (k.b)(r, i));
    }
    assert forall|i: int, r: int| 0 <= i < kd && 0 <= r < c implies #[trigger] qgt(i, r) == k.qgt()(
        i,
        r,
    ) by {
        assert(ge(r, i) == k.e()(r, i));
        assert(chunk_cube::block(*x.q, n)(r, i) == (k.q)(r, i));
    }
    assert forall|j: int, r: int| 0 <= j < vd && 0 <= r < c implies #[trigger] wvt(j, r) == k.wvt()(
        j,
        r,
    ) by {
        assert(chunk_cube::block(*x.v, n)(r, j) == (k.v)(r, j));
        assert(chunk_cube::block(*x.wg, n)(r, j) == (k.w)(r, j));
    }
    let kgd = chunk_cube::block(y.kgd, n);
    assert forall|r: int, i: int| 0 <= r < c && 0 <= i < kd implies #[trigger] kgd(r, i) == k.kgd()(
        r,
        i,
    ) by {
        assert(ge(r, i) == k.e()(r, i));
        assert(ge(c - 1, i) == k.e()(c - 1, i));
        assert(chunk_cube::block(*x.k, n)(r, i) == (k.k)(r, i));
    }
    assert forall|i: int| 0 <= i < kd implies #[trigger] y.glast.at(n, i) == k.e()(c - 1, i) by {
        assert(ge(c - 1, i) == k.e()(c - 1, i));
    }
    locality::lemma_t_prod(c, kd, c, qgt, kgt, k.qgt(), k.kgt());
    locality::lemma_t_prod(c, kd, c, bkt, kgt, k.bkt(), k.kgt());
    let (aqk, akk) = (chunk_cube::block(y.aqk, n), chunk_cube::block(y.akk, n));
    assert forall|s: int, r: int| 0 <= s < c && 0 <= r < c implies #[trigger] aqk(s, r) == k.aqk()(
        s,
        r,
    ) by {
        assert(grid::t_prod(kd, qgt, kgt)(r, s) == grid::t_prod(kd, k.qgt(), k.kgt())(r, s));
    }
    assert forall|r: int, s: int| 0 <= r < c && 0 <= s < c implies #[trigger] akk(r, s) == k.akk()(
        r,
        s,
    ) by {
        assert(grid::t_prod(kd, bkt, kgt)(r, s) == grid::t_prod(kd, k.bkt(), k.kgt())(r, s));
    }
    let m = chunk_cube::block(y.m_inv, n);
    assert forall|r: int, s: int| 0 <= r < c && 0 <= s < c implies #[trigger] m(r, s) == k.m()(
        r,
        s,
    ) by {
        locality::lemma_inverse_local(akk, k.akk(), c, r, s);
    }
    locality::lemma_prod_t(c, c, kd, m, bkt, k.m(), k.bkt());
    locality::lemma_prod_t(c, c, vd, m, wvt, k.m(), k.wvt());
    let (w, u) = (chunk_cube::block(y.w, n), chunk_cube::block(y.u, n));
    assert forall|i: int, r: int| 0 <= i < kd && 0 <= r < c implies #[trigger] w(i, r) == k.pk()(
        i,
        r,
    ) by {
        assert(grid::prod_t(c, m, bkt)(r, i) == grid::prod_t(c, k.m(), k.bkt())(r, i));
    }
    assert forall|j: int, r: int| 0 <= j < vd && 0 <= r < c implies #[trigger] u(j, r) == k.pv()(
        j,
        r,
    ) by {
        assert(grid::prod_t(c, m, wvt)(r, j) == grid::prod_t(c, k.m(), k.wvt())(r, j));
    }
}

/// The second kernel does with a block what the block computes.
proof fn lemma_inter_block<F: Scalar>(
    p: Inter<F>,
    k: Block<F>,
    n: int,
    s1: Grid<F>,
    s2: Grid<F>,
)
    requires
        k.c >= 1,
        block_buffers(p.y, k, n),
        p.scale == k.scale,
        p.c == k.c,
        p.kd == k.kd,
        p.vd == k.vd,
        pairing::agree(k.kd, k.vd, s1, s2),
    ensures
        pairing::agree(k.c, k.vd, p.v_new(n, s1), k.v_new(s2)),
        pairing::agree(k.c, k.vd, p.out(n, s1), k.out(s2)),
        pairing::agree(k.kd, k.vd, p.next(n, s1), k.next(s2)),
{
    let (c, kd, vd) = (k.c, k.kd, k.vd);
    locality::lemma_t_prod(c, kd, vd, chunk_cube::block(p.y.w, n), s1, k.pk(), s2);
    let (v1, v2) = (p.v_new(n, s1), k.v_new(s2));
    assert forall|r: int, j: int| 0 <= r < c && 0 <= j < vd implies #[trigger] v1(r, j) == v2(
        r,
        j,
    ) by {
        assert(chunk_cube::block(p.y.u, n)(j, r) == k.pv()(j, r));
        assert(grid::t_prod(kd, chunk_cube::block(p.y.w, n), s1)(r, j) == grid::t_prod(
            kd,
            k.pk(),
            s2,
        )(r, j));
    }
    locality::lemma_t_prod(c, c, vd, chunk_cube::block(p.y.aqk, n), v1, k.aqk(), v2);
    locality::lemma_t_prod(c, kd, vd, chunk_cube::block(p.y.qgt, n), s1, k.qgt(), s2);
    assert(pairing::agree(c, vd, p.out(n, s1), k.out(s2)));
    locality::lemma_t_prod(kd, c, vd, chunk_cube::block(p.y.kgd, n), v1, k.kgd(), v2);
    let (t1, t2) = (p.next(n, s1), k.next(s2));
    assert forall|i: int, j: int| 0 <= i < kd && 0 <= j < vd implies #[trigger] t1(i, j) == t2(
        i,
        j,
    ) by {
        assert(grid::t_prod(c, chunk_cube::block(p.y.kgd, n), v1)(i, j) == grid::t_prod(
            c,
            k.kgd(),
            v2,
        )(i, j));
        assert(s1(i, j) == s2(i, j));
        assert(p.y.glast.at(n, i) == k.e()(c - 1, i));
    }
}

/// Whether all elements are zero.
pub open spec fn blank<F: Scalar>(t: Tensor3<F>) -> bool {
    forall|n: int, i: int, j: int|
        0 <= n < t.d0 && 0 <= i < t.d1 && 0 <= j < t.d2 ==> #[trigger] t.at(n, i, j) == F::nil()
}

/// Zeros for all buffers of the first kernel.
pub fn intra_buffers<F: Scalar>(n: usize, c: usize, kd: usize, vd: usize) -> (y: IntraBuffers<F>)
    requires
        n * c * kd <= usize::MAX,
        n * c * vd <= usize::MAX,
        n * c * c <= usize::MAX,
        n * c <= usize::MAX,
        n * kd <= usize::MAX,
        n * vd <= usize::MAX,
    ensures
        y.shaped(n as int, c as int, kd as int, vd as int),
        blank(y.gexp) && blank(y.kgt) && blank(y.qgt) && blank(y.bkt) && blank(y.wvt),
        blank(y.aqk) && blank(y.akk) && blank(y.m_inv) && blank(y.w) && blank(y.u),
        blank(y.kgd),
        forall|i: int, j: int|
            0 <= i < n && 0 <= j < kd ==> #[trigger] y.glast.at(i, j) == F::nil(),
{
    proof {
        let (a, b, d, e) = (n as int, c as int, kd as int, vd as int);
        assert(a * d * b == a * b * d && a * e * b == a * b * e) by (nonlinear_arith);
    }
    IntraBuffers {
        gexp: Tensor3::zeros(n, c, kd),
        kgt: Tensor3::zeros(n, kd, c),
        qgt: Tensor3::zeros(n, kd, c),
        bkt: Tensor3::zeros(n, kd, c),
        wvt: Tensor3::zeros(n, vd, c),
        aqk: Tensor3::zeros(n, c, c),
        akk: Tensor3::zeros(n, c, c),
        m_inv: Tensor3::zeros(n, c, c),
        w: Tensor3::zeros(n, kd, c),
        u: Tensor3::zeros(n, vd, c),
        kgd: Tensor3::zeros(n, c, kd),
        glast: Matrix::zeros(n, kd),
    }
}

/// Head `hi` of batch `bi`, as the kernels see it.
pub open spec fn fused_head<F: Scalar>(
    x: Streams<F>,
    scale: F,
    state: Tensor4<F>,
    c: int,
    bi: int,
    hi: int,
) -> FusedHead<F> {
    FusedHead { head: x.head(scale, bi, hi), c, s: streams::state_of(state, bi, hi) }
}

/// The buffers that the kernels need for `bh` heads can be addressed.
pub open spec fn buffer_room(bh: int, tokens: int, c: int, kd: int, vd: int) -> bool {
    &&& bh <= usize::MAX
    &&& bh * tokens <= usize::MAX
    &&& bh * tokens * c <= usize::MAX
    &&& bh * tokens * kd <= usize::MAX
    &&& bh * tokens * vd <= usize::MAX
}

/// The buffers that the kernels need for these inputs can be addressed.
pub open spec fn addressable<F: Scalar>(x: Streams<F>, c: int) -> bool {
    buffer_room(x.batch() * x.heads(), x.tokens(), c, x.kd(), x.vd())
}

/// Whether `out` and `next` are the outputs of the kernels, and the state after them, in every
/// batch and head.
pub open spec fn fused_outputs<F: Scalar>(
    x: Streams<F>,
    scale: F,
    state: Tensor4<F>,
    c: int,
    out: Tensor4<F>,
    next: Tensor4<F>,
) -> bool {
    &&& out.shaped(x.batch(), x.heads(), x.tokens(), x.vd())
    &&& x.carries(next)
    &&& forall|a: int, h: int, t: int, j: int|
        0 <= a < x.batch() && 0 <= h < x.heads() && 0 <= t < x.tokens() && 0 <= j < x.vd()
            ==> #[trigger] out.at(a, h, t, j) == fused_head(x, scale, state, c, a, h).output(t, j)
    &&& forall|a: int, h: int, i: int, j: int|
        0 <= a < x.batch() && 0 <= h < x.heads() && 0 <= i < x.kd() && 0 <= j < x.vd()
            ==> #[trigger] next.at(a, h, i, j) == fused_head(x, scale, state, c, a, h).state(
            x.tokens() / c,
        )(i, j)
}

/// Whether the buffers of chunk `n` of head `h` are filled.
spec fn ready<F: Scalar>(p: Inter<F>, f: FusedHead<F>, h: int, n: int) -> bool {
    block_buffers(p.y, f.block(n), index::flat2(p.nt, h, n))
}

/// The states of the second kernel are those of the head.
proof fn lemma_inter_states<F: Scalar>(
    p: Inter<F>,
    f: FusedHead<F>,
    h: int,
    s: Grid<F>,
    t: int,
)
    requires
        f.c >= 1,
        p.update,
        p.scale == f.head.scale,
        p.c == f.c,
        p.kd == f.head.kd,
        p.vd == f.head.vd,
        forall|n: int| 0 <= n < t ==> #[trigger] ready(p, f, h, n),
        pairing::agree(p.kd, p.vd, s, f.s),
    ensures
        pairing::agree(p.kd, p.vd, p.state(h, s, t), f.state(t)),
    decreases t,
{
    if t > 0 {
        lemma_inter_states(p, f, h, s, t - 1);
        let n = h * p.nt + t - 1;
        assert(ready(p, f, h, t - 1));
        lemma_inter_block(p, f.block(t - 1), n, p.state(h, s, t - 1), f.state(t - 1));
    }
}

/// What the first kernel leaves for the second.
pub struct IntraOut<F> {
    /// The inputs, cut into blocks: `[blocks, c, k]`, and `[blocks, c, v]` for `v` and `wg`.
    pub q: Tensor3<F>,
    pub k: Tensor3<F>,
    pub g: Tensor3<F>,
    pub b: Tensor3<F>,
    pub v: Tensor3<F>,
    pub wg: Tensor3<F>,
    pub buffers: IntraBuffers<F>,
}

impl<F: Scalar> IntraOut<F> {
    /// The inputs of the first kernel.
    pub open spec fn input(&self) -> IntraIn<'_, F> {
        IntraIn { q: &self.q, k: &self.k, g: &self.g, b: &self.b, v: &self.v, wg: &self.wg }
    }

    /// Whether the blocks are those of `x` in chunks of `c` tokens.
    pub open spec fn cuts(&self, x: Streams<F>, scale: F, c: int) -> bool {
        let nt = x.tokens() / c;
        &&& self.input().wf()
        &&& self.input().blocks() == x.batch() * x.heads() * nt
        &&& self.input().c() == c
        &&& self.input().kd() == x.kd()
        &&& self.input().vd() == x.vd()
        &&& self.buffers.shaped(self.input().blocks(), c, x.kd(), x.vd())
        &&& forall|state: Tensor4<F>, a: int, h: int, t: int|
            0 <= a < x.batch() && 0 <= h < x.heads() && 0 <= t < nt ==> input_block(
                self.input(),
                scale,
                #[trigger] fused_head(x, scale, state, c, a, h).block(t),
                index::flat2(nt, index::flat2(x.heads(), a, h), t),
            )
    }
}

/// The first kernel alone, with the phases in `stages`, on whole chunks. Buffers of the phases
/// that are left out are zero.
pub fn intra_launch_raw<F: Scalar>(
    q: &Tensor4<F>,
    k: &Tensor4<F>,
    v: &Tensor4<F>,
    g: &Tensor4<F>,
    b: &Tensor4<F>,
    w: &Tensor4<F>,
    scale: F,
    chunk_size: usize,
    stages: u32,
) -> (r: IntraOut<F>)
    requires
        (Streams { q, k, v, g, b, w }).wf(),
        g.d3 == q.d3,
        b.d3 == q.d3,
        chunk_size >= 1,
        q.d2 as int % chunk_size as int == 0,
        addressable((Streams { q, k, v, g, b, w }), chunk_size as int),
    ensures
        r.cuts((Streams { q, k, v, g, b, w }), scale, chunk_size as int),
        stages & STAGE_DECAYS != 0 ==> forall|n: int|
            0 <= n < r.input().blocks() ==> #[trigger] r.buffers.decays_are(r.input(), n),
        stages & STAGE_DECAYS == 0 ==> blank(r.buffers.gexp),
        stages & STAGE_GATES != 0 ==> forall|n: int|
            0 <= n < r.input().blocks() ==> #[trigger] r.buffers.gates_are(r.input(), n),
        stages & STAGE_GATES == 0 ==> blank(r.buffers.kgt) && blank(r.buffers.bkt) && blank(
            r.buffers.qgt,
        ) && blank(r.buffers.kgd) && blank(r.buffers.wvt) && (forall|n: int, i: int|
            0 <= n < r.input().blocks() && 0 <= i < q.d3 ==> #[trigger] r.buffers.glast.at(n, i)
                == F::nil()),
        stages & STAGE_SCORES != 0 ==> forall|n: int|
            0 <= n < r.input().blocks() ==> #[trigger] r.buffers.scores_are(r.input(), scale, n),
        stages & STAGE_SCORES == 0 ==> blank(r.buffers.aqk) && blank(r.buffers.akk),
        stages & STAGE_INVERSE != 0 ==> forall|n: int|
            0 <= n < r.input().blocks() ==> #[trigger] r.buffers.inverse_is(r.input(), n),
        stages & STAGE_INVERSE == 0 ==> blank(r.buffers.m_inv),
        stages & STAGE_PSEUDO != 0 ==> forall|n: int|
            0 <= n < r.input().blocks() ==> #[trigger] r.buffers.pseudo_are(r.input(), n),
        stages & STAGE_PSEUDO == 0 ==> blank(r.buffers.w) && blank(r.buffers.u),
        stages == STAGES_INTRA ==> forall|n: int|
            0 <= n < r.input().blocks() ==> #[trigger] filled(r.input(), r.buffers, scale, n),
{
    let x = Streams { q, k, v, g, b, w };
    let c: usize = chunk_size;
    let nt: usize = q.d2 / c;
    assert(nt * c == q.d2) by (nonlinear_arith)
        requires
            c >= 1,
            q.d2 as int % c as int == 0,
            nt == q.d2 as int / c as int,
    ;
    proof {
        let (bh, t, n, cc, kd, vd) = (
            x.batch() * x.heads(),
            x.tokens(),
            nt as int,
            c as int,
            x.kd(),
            x.vd(),
        );
        assert(0 <= bh) by (nonlinear_arith)
            requires
                bh == x.q.d0 * x.q.d1,
        ;
        assert(bh * n <= bh * t && bh * n * cc == bh * t && bh * n * cc * kd == bh * t * kd && bh * n
            * cc * vd == bh * t * vd && bh * n * cc * cc == bh * t * cc && bh * n * kd <= bh * t
            * kd && bh * n * vd <= bh * t * vd) by (nonlinear_arith)
            requires
                0 <= bh,
                0 <= kd,
                0 <= vd,
                1 <= cc,
                0 <= n,
                t == n * cc,
        {
            assert(n <= t);
            assert(bh * n <= bh * t);
            assert(bh * n * cc == bh * t);
        }
    }
    let (q3, k3, g3) = (q.to_blocks(nt, c), k.to_blocks(nt, c), g.to_blocks(nt, c));
    let (b3, v3, w3) = (b.to_blocks(nt, c), v.to_blocks(nt, c), w.to_blocks(nt, c));
    let mut y = intra_buffers::<F>(q3.d0, c, q.d3, v.d3);
    let i = IntraIn { q: &q3, k: &k3, g: &g3, b: &b3, v: &v3, wg: &w3 };
    gdn2_chunk_intra_kernel(&i, &mut y, scale, stages);
    let r = IntraOut { q: q3, k: k3, g: g3, b: b3, v: v3, wg: w3, buffers: y };
    proof {
        assert(31u32 & 1 != 0 && 31u32 & 2 != 0 && 31u32 & 4 != 0 && 31u32 & 8 != 0 && 31u32 & 16
            != 0) by (bit_vector);
        assert forall|n: int|
            0 <= n < r.input().blocks() && stages == STAGES_INTRA implies #[trigger] filled(
            r.input(),
            r.buffers,
            scale,
            n,
        ) by {
            assert(r.buffers.decays_are(r.input(), n));
            assert(r.buffers.gates_are(r.input(), n));
            assert(r.buffers.scores_are(r.input(), scale, n));
            assert(r.buffers.inverse_is(r.input(), n));
            assert(r.buffers.pseudo_are(r.input(), n));
        }
        assert forall|state: Tensor4<F>, a: int, h: int, t: int|
            0 <= a < x.batch() && 0 <= h < x.heads() && 0 <= t < nt implies input_block(
            r.input(),
            scale,
            #[trigger] fused_head(x, scale, state, c as int, a, h).block(t),
            index::flat2(nt as int, index::flat2(x.heads(), a, h), t),
        ) by {}
    }
    r
}

/// The second kernel on these buffers, for heads of `nt` chunks of `c` tokens.
pub open spec fn inter_pass<F: Scalar>(
    y: IntraBuffers<F>,
    state: Tensor4<F>,
    scale: F,
    c: int,
    nt: int,
    stages: u32,
) -> Inter<F> {
    Inter {
        y,
        nt,
        c,
        kd: state.d2 as int,
        vd: state.d3 as int,
        scale,
        update: stages & STAGE_STATE != 0,
    }
}

/// Whether `out` and `next` are what the second kernel makes of these buffers: the outputs, zero
/// without their phase, and the states after the last chunk.
pub open spec fn inter_outputs<F: Scalar>(
    y: IntraBuffers<F>,
    state: Tensor4<F>,
    scale: F,
    c: int,
    nt: int,
    stages: u32,
    out: Tensor4<F>,
    next: Tensor4<F>,
) -> bool {
    let p = inter_pass(y, state, scale, c, nt, stages);
    let hs = state.d1 as int;
    &&& out.shaped(state.d0 as int, hs, nt * c, state.d3 as int)
    &&& next.shaped(state.d0 as int, hs, state.d2 as int, state.d3 as int)
    &&& forall|a: int, h: int, i: int, j: int|
        0 <= a < state.d0 && 0 <= h < hs && 0 <= i < state.d2 && 0 <= j < state.d3
            ==> #[trigger] next.at(a, h, i, j) == p.state(
            index::flat2(hs, a, h),
            streams::state_of(state, a, h),
            nt,
        )(i, j)
    &&& forall|a: int, h: int, t: int, j: int|
        0 <= a < state.d0 && 0 <= h < hs && 0 <= t < nt * c && 0 <= j < state.d3
            ==> #[trigger] out.at(a, h, t, j) == (if stages & STAGE_OUTPUTS != 0 {
            p.out(
                index::flat2(nt, index::flat2(hs, a, h), t / c),
                p.state(index::flat2(hs, a, h), streams::state_of(state, a, h), t / c),
            )(t % c, j)
        } else {
            F::nil()
        })
}

/// The second kernel alone, with the phases in `stages`, `vtile` value columns at a time. Returns
/// the outputs, zero without their phase, and the states after the last chunk.
pub fn inter_launch_raw<F: Scalar>(
    y: &IntraBuffers<F>,
    state: &Tensor4<F>,
    scale: F,
    chunk_size: usize,
    nt: usize,
    vtile: usize,
    stages: u32,
) -> (r: (Tensor4<F>, Tensor4<F>))
    requires
        state.wf(),
        y.shaped(
            state.d0 * state.d1 * nt,
            chunk_size as int,
            state.d2 as int,
            state.d3 as int,
        ),
        chunk_size >= 1,
        vtile > 0,
        stages & STAGE_WRITES != 0,
        state.d0 * state.d1 <= usize::MAX,
        nt * chunk_size <= usize::MAX,
        state.d0 * state.d1 * nt * chunk_size <= usize::MAX,
        state.d0 * state.d1 * nt * chunk_size * state.d3 <= usize::MAX,
    ensures
        inter_outputs(*y, *state, scale, chunk_size as int, nt as int, stages, r.0, r.1),
{
    let c: usize = chunk_size;
    let (batch, heads): (usize, usize) = (state.d0, state.d1);
    proof {
        let (bh, n, cc) = (batch * heads, nt as int, c as int);
        assert(bh * 1 == bh);
        assert(0 <= bh) by (nonlinear_arith)
            requires
                bh == batch * heads,
        ;
        assert(bh * n <= bh * n * cc) by (nonlinear_arith)
            requires
                0 <= bh,
                0 <= n,
                1 <= cc,
        ;
    }
    let mut s3 = state.to_blocks(1, state.d2);
    let mut o3 = Tensor3::<F>::zeros(batch * heads * nt, c, state.d3);
    let ghost s30 = s3;
    let ghost p = inter_pass(*y, *state, scale, c as int, nt as int, stages);
    gdn2_chunk_inter_kernel(y, &mut s3, &mut o3, scale, nt, vtile, stages);
    let out = Tensor4::from_blocks(&o3, batch, heads, nt);
    let next = Tensor4::from_blocks(&s3, batch, heads, 1);
    proof {
        let hs = heads as int;
        assert forall|a: int, h: int, m: int|
            0 <= a < batch && 0 <= h < hs implies #[trigger] pairing::agree(
            p.kd,
            p.vd,
            p.state(
                index::flat2(hs, a, h),
                chunk_cube::block(s30, index::flat2(hs, a, h)),
                m,
            ),
            p.state(index::flat2(hs, a, h), streams::state_of(*state, a, h), m),
        ) by {
            let hh = index::flat2(hs, a, h);
            let (s1, s2) = (chunk_cube::block(s30, hh), streams::state_of(*state, a, h));
            assert forall|i: int, j: int| 0 <= i < p.kd && 0 <= j < p.vd implies #[trigger] s1(i, j)
                == s2(i, j) by {
                assert(s30.at(index::flat2(1, hh, 0), i, j) == state.at(a, h, 0 * p.kd + i, j));
            }
            chunk_cube::lemma_columns_alone(p, hh, s1, s2, 0, p.vd, m);
        }
        assert forall|a: int, h: int, i: int, j: int|
            0 <= a < batch && 0 <= h < hs && 0 <= i < p.kd && 0 <= j
                < p.vd implies #[trigger] next.at(a, h, i, j) == p.state(
            index::flat2(hs, a, h),
            streams::state_of(*state, a, h),
            nt as int,
        )(i, j) by {
            let hh = index::flat2(hs, a, h);
            index::lemma_flat2_bound(batch as int, hs, a, h);
            assert(s3.at(index::flat2(1, hh, 0), i, j) == next.at(a, h, 0 * p.kd + i, j));
            let s1 = p.state(hh, chunk_cube::block(s30, hh), nt as int);
            assert(s3.at(hh, i, j) == s1(i, j));
            assert(pairing::agree(
                p.kd,
                p.vd,
                s1,
                p.state(hh, streams::state_of(*state, a, h), nt as int),
            ));
        }
        assert forall|a: int, h: int, t: int, j: int|
            0 <= a < batch && 0 <= h < hs && 0 <= t < nt * c && 0 <= j < p.vd implies ({
            let hh = index::flat2(hs, a, h);
            let m = t / (c as int);
            #[trigger] out.at(a, h, t, j) == if stages & STAGE_OUTPUTS != 0 {
                p.out(
                    index::flat2(nt as int, hh, m),
                    p.state(hh, streams::state_of(*state, a, h), m),
                )(t % (c as int), j)
            } else {
                F::nil()
            }
        }) by {
            let hh = index::flat2(hs, a, h);
            index::lemma_flat2_bound(batch as int, hs, a, h);
            let m = t / (c as int);
            let r = t % (c as int);
            index::lemma_flat2_onto(nt as int, c as int, t);
            let n = index::flat2(nt as int, hh, m);
            index::lemma_flat2_bound(batch * hs, nt as int, hh, m);
            assert(o3.at(n, r, j) == out.at(a, h, m * c + r, j));
            if stages & STAGE_OUTPUTS != 0 {
                let s1 = p.state(hh, chunk_cube::block(s30, hh), m);
                let s2 = p.state(hh, streams::state_of(*state, a, h), m);
                assert(o3.at(hh * nt + m, r, j) == p.out(hh * nt + m, s1)(r, j));
                assert(pairing::agree(p.kd, p.vd, s1, s2));
                chunk_cube::lemma_out_columns(p, n, s1, s2, r, j);
            }
        }
    }
    (out, next)
}

/// The chunked forward pass by the two kernels. Returns `None` where they do not take the shape:
/// the caller then falls back to the tensor form.
pub fn fused_chunk_forward<F: Scalar>(
    q: &Tensor4<F>,
    k: &Tensor4<F>,
    v: &Tensor4<F>,
    g: &Tensor4<F>,
    b: &Tensor4<F>,
    w: &Tensor4<F>,
    state: &Tensor4<F>,
    scale: F,
    chunk_size: usize,
) -> (r: Option<(Tensor4<F>, Tensor4<F>)>)
    requires
        (Streams { q, k, v, g, b, w }).wf(),
        (Streams { q, k, v, g, b, w }).carries(*state),
        g.d3 == q.d3,
        b.d3 == q.d3,
        chunk_size > 0,
        addressable((Streams { q, k, v, g, b, w }), chunk_size as int),
    ensures
        r.is_some() == launchable(q.d2 as int, q.d3 as int, v.d3 as int, chunk_size as int),
        r matches Some(o) ==> fused_outputs(
            (Streams { q, k, v, g, b, w }),
            scale,
            *state,
            chunk_size as int,
            o.0,
            o.1,
        ),
{
    match run_kernels(q, k, v, g, b, w, state, scale, chunk_size) {
        Some((out, next, _buffers)) => Some((out, next)),
        None => None,
    }
}

/// Both kernels on these inputs, where they take the shape, with the buffers of the first.
pub(crate) fn run_kernels<F: Scalar>(
    q: &Tensor4<F>,
    k: &Tensor4<F>,
    v: &Tensor4<F>,
    g: &Tensor4<F>,
    b: &Tensor4<F>,
    w: &Tensor4<F>,
    state: &Tensor4<F>,
    scale: F,
    chunk_size: usize,
) -> (r: Option<(Tensor4<F>, Tensor4<F>, IntraBuffers<F>)>)
    requires
        (Streams { q, k, v, g, b, w }).wf(),
        (Streams { q, k, v, g, b, w }).carries(*state),
        g.d3 == q.d3,
        b.d3 == q.d3,
        chunk_size > 0,
        addressable((Streams { q, k, v, g, b, w }), chunk_size as int),
    ensures
        r.is_some() == launchable(q.d2 as int, q.d3 as int, v.d3 as int, chunk_size as int),
        r matches Some(o) ==> {
            let x = Streams { q, k, v, g, b, w };
            &&& fused_outputs(x, scale, *state, chunk_size as int, o.0, o.1)
            &&& buffers_of(x, scale, *state, chunk_size as int, o.2)
        },
{
    let x = Streams { q, k, v, g, b, w };
    let c: usize = chunk_size;
    let batch: usize = q.d0;
    let heads: usize = q.d1;
    let launch = match chunk_launch(batch, heads, q.d2, q.d3, v.d3, c) {
        Some(l) => l,
        None => {
            return None;
        },
    };
    let nt: usize = launch.nt;
    proof {
        let (bh, t, n, cc, vd) = (x.batch() * x.heads(), x.tokens(), nt as int, c as int, x.vd());
        assert(t / cc == n && t % cc == 0) by (nonlinear_arith)
            requires
                t == n * cc,
                cc >= 1,
        ;
        assert(bh * n * cc == bh * t && bh * n * cc * vd == bh * t * vd) by (nonlinear_arith)
            requires
                t == n * cc,
        ;
        assert(7u32 & 1 != 0) by (bit_vector);
    }
    let intra = intra_launch_raw(q, k, v, g, b, w, scale, c, STAGES_INTRA);
    let (out, next) = inter_launch_raw(
        &intra.buffers,
        state,
        scale,
        c,
        nt,
        launch.vtile,
        STAGES_INTER,
    );
    proof {
        launches_are_fused_pass(x, scale, *state, c as int, intra, out, next);
    }
    Some((out, next, intra.buffers))
}

/// The two launches in turn, with all their phases, are the fused pass: whatever the number of
/// value columns that the second takes at a time, they leave its outputs, its states and its
/// buffers.
pub proof fn launches_are_fused_pass<F: Scalar>(
    x: Streams<F>,
    scale: F,
    state: Tensor4<F>,
    c: int,
    intra: IntraOut<F>,
    out: Tensor4<F>,
    next: Tensor4<F>,
)
    requires
        x.wf(),
        x.carries(state),
        c >= 1,
        x.tokens() % c == 0,
        intra.cuts(x, scale, c),
        forall|n: int|
            0 <= n < intra.input().blocks() ==> #[trigger] filled(
                intra.input(),
                intra.buffers,
                scale,
                n,
            ),
        inter_outputs(
            intra.buffers,
            state,
            scale,
            c,
            x.tokens() / c,
            STAGES_INTER,
            out,
            next,
        ),
    ensures
        fused_outputs(x, scale, state, c, out, next),
        buffers_of(x, scale, state, c, intra.buffers),
{
    let (i, y, nt) = (intra.input(), intra.buffers, x.tokens() / c);
    let p = inter_pass(y, state, scale, c, nt, STAGES_INTER);
    let tokens = x.tokens();
    assert(nt * c == tokens && nt >= 0) by (nonlinear_arith)
        requires
            c >= 1,
            tokens >= 0,
            tokens % c == 0,
            nt == tokens / c,
    ;
    assert(7u32 & 1 != 0 && 7u32 & 2 != 0 && 7u32 & 4 != 0) by (bit_vector);
    let hs = x.heads();
    assert forall|a: int, h: int, t: int|
        0 <= a < x.batch() && 0 <= h < hs && 0 <= t < nt implies #[trigger] block_buffers(
        y,
        fused_head(x, scale, state, c, a, h).block(t),
        index::flat2(nt, index::flat2(hs, a, h), t),
    ) by {
        let f = fused_head(x, scale, state, c, a, h);
        let hh = index::flat2(hs, a, h);
        index::lemma_flat2_bound(x.batch(), hs, a, h);
        index::lemma_flat2_bound(x.batch() * hs, nt, hh, t);
        let n = index::flat2(nt, hh, t);
        assert(filled(i, y, scale, n));
        assert(input_block(i, scale, f.block(t), n));
        lemma_block_buffers(i, y, scale, f.block(t), n);
    }
    assert forall|a: int, h: int, m: int|
        0 <= a < x.batch() && 0 <= h < hs && 0 <= m <= nt implies #[trigger] pairing::agree(
        x.kd(),
        x.vd(),
        p.state(index::flat2(hs, a, h), streams::state_of(state, a, h), m),
        fused_head(x, scale, state, c, a, h).state(m),
    ) by {
        let f = fused_head(x, scale, state, c, a, h);
        let hh = index::flat2(hs, a, h);
        assert forall|n: int| 0 <= n < m implies #[trigger] ready(p, f, hh, n) by {
            assert(block_buffers(y, f.block(n), index::flat2(nt, hh, n)));
        }
        lemma_inter_states(p, f, hh, f.s, m);
    }
    assert forall|a: int, h: int, t: int, j: int|
        0 <= a < x.batch() && 0 <= h < hs && 0 <= t < x.tokens() && 0 <= j
            < x.vd() implies #[trigger] out.at(a, h, t, j) == fused_head(
        x,
        scale,
        state,
        c,
        a,
        h,
    ).output(t, j) by {
        let f = fused_head(x, scale, state, c, a, h);
        let hh = index::flat2(hs, a, h);
        let (m, r) = (t / c, t % c);
        index::lemma_flat2_onto(nt, c, t);
        let n = index::flat2(nt, hh, m);
        let s1 = p.state(hh, f.s, m);
        assert(pairing::agree(x.kd(), x.vd(), s1, f.state(m)));
        assert(block_buffers(y, f.block(m), n));
        lemma_inter_block(p, f.block(m), n, s1, f.state(m));
        assert(p.out(n, s1)(r, j) == f.block(m).out(f.state(m))(r, j));
    }
    assert forall|a: int, h: int, l: int, j: int|
        0 <= a < x.batch() && 0 <= h < hs && 0 <= l < x.kd() && 0 <= j
            < x.vd() implies #[trigger] next.at(a, h, l, j) == fused_head(
        x,
        scale,
        state,
        c,
        a,
        h,
    ).state(nt)(l, j) by {
        let f = fused_head(x, scale, state, c, a, h);
        let hh = index::flat2(hs, a, h);
        let s1 = p.state(hh, f.s, nt);
        assert(pairing::agree(x.kd(), x.vd(), s1, f.state(nt)));
        assert(next.at(a, h, l, j) == s1(l, j));
    }
}

/// The raw launches return what `fused_chunk_forward` returns from the same state, for every number
/// of value columns that the second takes at a time.
pub proof fn raw_launches_are_fused_forward<F: Scalar>(
    x: Streams<F>,
    scale: F,
    state: Tensor4<F>,
    c: int,
    intra: IntraOut<F>,
    out: Tensor4<F>,
    next: Tensor4<F>,
    fused_out: Tensor4<F>,
    fused_next: Tensor4<F>,
)
    requires
        x.wf(),
        x.carries(state),
        c >= 1,
        x.tokens() % c == 0,
        intra.cuts(x, scale, c),
        forall|n: int|
            0 <= n < intra.input().blocks() ==> #[trigger] filled(
                intra.input(),
                intra.buffers,
                scale,
                n,
            ),
        inter_outputs(
            intra.buffers,
            state,
            scale,
            c,
            x.tokens() / c,
            STAGES_INTER,
            out,
            next,
        ),
        fused_outputs(x, scale, state, c, fused_out, fused_next),
    ensures
        forall|a: int, h: int, t: int, j: int|
            0 <= a < x.batch() && 0 <= h < x.heads() && 0 <= t < x.tokens() && 0 <= j < x.vd()
                ==> #[trigger] out.at(a, h, t, j) == fused_out.at(a, h, t, j),
        forall|a: int, h: int, i: int, j: int|
            0 <= a < x.batch() && 0 <= h < x.heads() && 0 <= i < x.kd() && 0 <= j < x.vd()
                ==> #[trigger] next.at(a, h, i, j) == fused_next.at(a, h, i, j),
{
    launches_are_fused_pass(x, scale, state, c, intra, out, next);
    assert forall|a: int, h: int, t: int, j: int|
        0 <= a < x.batch() && 0 <= h < x.heads() && 0 <= t < x.tokens() && 0 <= j
            < x.vd() implies #[trigger] out.at(a, h, t, j) == fused_out.at(a, h, t, j) by {
        let f = fused_head(x, scale, state, c, a, h);
        assert(fused_out.at(a, h, t, j) == f.output(t, j));
    }
    assert forall|a: int, h: int, i: int, j: int|
        0 <= a < x.batch() && 0 <= h < x.heads() && 0 <= i < x.kd() && 0 <= j
            < x.vd() implies #[trigger] next.at(a, h, i, j) == fused_next.at(a, h, i, j) by {
        let f = fused_head(x, scale, state, c, a, h);
        assert(fused_next.at(a, h, i, j) == f.state(x.tokens() / c)(i, j));
    }
}

/// Whether block `n` of the buffers that the backward pass reads holds what `k` computes.
pub open spec fn block_buffers<F: Scalar>(y: IntraBuffers<F>, k: Block<F>, n: int) -> bool {
    &&& pairing::agree(k.kd, k.c, chunk_cube::block(y.qgt, n), k.qgt())
    &&& pairing::agree(k.c, k.c, chunk_cube::block(y.aqk, n), k.aqk())
    &&& pairing::agree(k.c, k.c, chunk_cube::block(y.m_inv, n), k.m())
    &&& pairing::agree(k.kd, k.c, chunk_cube::block(y.w, n), k.pk())
    &&& pairing::agree(k.vd, k.c, chunk_cube::block(y.u, n), k.pv())
    &&& pairing::agree(k.c, k.kd, chunk_cube::block(y.kgd, n), k.kgd())
    &&& forall|i: int| 0 <= i < k.kd ==> #[trigger] y.glast.at(n, i) == k.e()(k.c - 1, i)
}

/// Whether the buffers hold what the blocks of all heads compute.
pub open spec fn buffers_of<F: Scalar>(
    x: Streams<F>,
    scale: F,
    state: Tensor4<F>,
    c: int,
    y: IntraBuffers<F>,
) -> bool {
    let nt = x.tokens() / c;
    &&& y.shaped(x.batch() * x.heads() * nt, c, x.kd(), x.vd())
    &&& forall|a: int, h: int, t: int|
        0 <= a < x.batch() && 0 <= h < x.heads() && 0 <= t < nt ==> #[trigger] block_buffers(
            y,
            fused_head(x, scale, state, c, a, h).block(t),
            index::flat2(nt, index::flat2(x.heads(), a, h), t),
        )
}

/// The kernels and the token-by-token pass return the same outputs and states in exact arithmetic.
pub proof fn fused_pass_is_recurrence<F: ExactScalar>(
    x: Streams<F>,
    scale: F,
    state: Tensor4<F>,
    c: int,
    out: Tensor4<F>,
    next: Tensor4<F>,
)
    requires
        c >= 1,
        x.tokens() % c == 0,
        fused_outputs(x, scale, state, c, out, next),
    ensures
        fused_recurrent::recurrence_of(x, scale, state, out, next),
{
    let n = x.tokens() / c;
    let t0 = x.tokens();
    assert(n * c == t0 && n >= 0) by (nonlinear_arith)
        requires
            c >= 1,
            t0 >= 0,
            t0 % c == 0,
            n == t0 / c,
    ;
    assert forall|a: int, h: int, t: int, j: int|
        0 <= a < x.batch() && 0 <= h < x.heads() && 0 <= t < x.tokens() && 0 <= j
            < x.vd() implies #[trigger] out.at(a, h, t, j) == x.head(scale, a, h).output(
        streams::state_of(state, a, h),
        t,
        j,
    ) by {
        let f = fused_head(x, scale, state, c, a, h);
        kernels_are_recurrence(f, n);
        assert(f.output(t, j) == f.head.output(f.s, t, j));
    }
    assert forall|a: int, h: int, i: int, j: int|
        0 <= a < x.batch() && 0 <= h < x.heads() && 0 <= i < x.kd() && 0 <= j
            < x.vd() implies #[trigger] next.at(a, h, i, j) == x.head(scale, a, h).run(
        streams::state_of(state, a, h),
        0,
        x.tokens(),
    )(i, j) by {
        let f = fused_head(x, scale, state, c, a, h);
        kernels_are_recurrence(f, n);
        assert(f.state(n)(i, j) == f.head.run(f.s, 0, n * c)(i, j));
    }
}

/// In exact arithmetic the kernels return the outputs and the states of the chunked pass over the
/// same inputs, where no decay between two tiles of that pass is above 1.
pub proof fn kernels_are_chunked_pass<F: ExactScalar>(
    p: Pass<F>,
    c: int,
    out1: Tensor4<F>,
    next1: Tensor4<F>,
    out2: Tensor4<F>,
    next2: Tensor4<F>,
)
    requires
        p.wf(),
        p.saved is None,
        c >= 1,
        p.x.tokens() % c == 0,
        forall|a: int, h: int|
            0 <= a < p.x.batch() && 0 <= h < p.x.heads() ==> (#[trigger] p.head(
                a,
                h,
            )).tiles_decay(),
        fused_outputs(p.x, p.scale, p.state, c, out1, next1),
        forward::chunked_outputs(p, out2, next2),
    ensures
        forall|a: int, h: int, t: int, j: int|
            0 <= a < p.x.batch() && 0 <= h < p.x.heads() && 0 <= t < p.x.tokens() && 0 <= j
                < p.x.vd() ==> #[trigger] out1.at(a, h, t, j) == out2.at(a, h, t, j),
        forall|a: int, h: int, i: int, j: int|
            0 <= a < p.x.batch() && 0 <= h < p.x.heads() && 0 <= i < p.x.kd() && 0 <= j < p.x.vd()
                ==> #[trigger] next1.at(a, h, i, j) == next2.at(a, h, i, j),
{
    fused_pass_is_recurrence(p.x, p.scale, p.state, c, out1, next1);
    equivalence::chunked_pass_is_recurrence(p, out2, next2);
    assert forall|a: int, h: int, t: int, j: int|
        0 <= a < p.x.batch() && 0 <= h < p.x.heads() && 0 <= t < p.x.tokens() && 0 <= j
            < p.x.vd() implies #[trigger] out1.at(a, h, t, j) == out2.at(a, h, t, j) by {
        let s = streams::state_of(p.state, a, h);
        assert(out2.at(a, h, t, j) == p.x.head(p.scale, a, h).output(s, t, j));
    }
    assert forall|a: int, h: int, i: int, j: int|
        0 <= a < p.x.batch() && 0 <= h < p.x.heads() && 0 <= i < p.x.kd() && 0 <= j
            < p.x.vd() implies #[trigger] next1.at(a, h, i, j) == next2.at(a, h, i, j) by {
        let s = streams::state_of(p.state, a, h);
        assert(next2.at(a, h, i, j) == p.x.head(p.scale, a, h).run(s, 0, p.x.tokens())(i, j));
    }
}

/// Whether block `n` of the exports holds what the forward pass leaves of chunk `t` of `f`.
pub open spec fn block_exports<F: Scalar>(
    y: FusedBackwardInputs<F>,
    f: FusedHead<F>,
    t: int,
    n: int,
) -> bool {
    let k = f.block(t);
    &&& pairing::agree(k.kd, k.c, chunk_cube::block(y.qgt, n), k.qgt())
    &&& pairing::agree(k.c, k.c, chunk_cube::block(y.aqk, n), k.aqk())
    &&& pairing::agree(k.c, k.c, chunk_cube::block(y.m_inv, n), k.m())
    &&& pairing::agree(k.kd, k.c, chunk_cube::block(y.w, n), k.pk())
    &&& pairing::agree(k.vd, k.c, chunk_cube::block(y.u, n), k.pv())
    &&& pairing::agree(k.c, k.kd, chunk_cube::block(y.kgd, n), k.kgd())
    &&& forall|i: int| 0 <= i < k.kd ==> #[trigger] y.glast.at(n, i) == k.e()(k.c - 1, i)
    &&& pairing::agree(k.kd, k.vd, chunk_cube::block(y.states, n), f.state(t))
    &&& pairing::agree(k.c, k.vd, chunk_cube::block(y.v_new, n), k.v_new(f.state(t)))
}

/// Whether the exports hold what the forward pass leaves of all heads.
pub open spec fn exported<F: Scalar>(
    x: Streams<F>,
    scale: F,
    state: Tensor4<F>,
    c: int,
    y: FusedBackwardInputs<F>,
) -> bool {
    let nt = x.tokens() / c;
    &&& y.shaped(x.batch() * x.heads() * nt, c, x.kd(), x.vd())
    &&& forall|a: int, h: int, t: int|
        0 <= a < x.batch() && 0 <= h < x.heads() && 0 <= t < nt ==> #[trigger] block_exports(
            y,
            fused_head(x, scale, state, c, a, h),
            t,
            index::flat2(nt, index::flat2(x.heads(), a, h), t),
        )
}

/// Whether chunk `t` of head `h` is traced: the state before it and the values that it writes.
spec fn traced<F: Scalar>(
    p: Inter<F>,
    s0: Tensor3<F>,
    states: Tensor3<F>,
    v_new: Tensor3<F>,
    h: int,
    t: int,
) -> bool {
    let n = index::flat2(p.nt, h, t);
    let s = p.state(h, chunk_cube::block(s0, h), t);
    &&& pairing::agree(p.kd, p.vd, chunk_cube::block(states, n), s)
    &&& pairing::agree(p.c, p.vd, chunk_cube::block(v_new, n), p.v_new(n, s))
}

/// The states before all blocks and the values that the blocks write, from the states `s0` before
/// the first tokens.
fn trace_states<F: Scalar>(
    y: &IntraBuffers<F>,
    s0: &Tensor3<F>,
    nt: usize,
    Ghost(p): Ghost<Inter<F>>,
) -> (r: (Tensor3<F>, Tensor3<F>))
    requires
        *y == p.y,
        p.nt == nt,
        p.update,
        s0.shaped(s0.d0 as int, p.kd, p.vd),
        y.shaped(s0.d0 * nt, p.c, p.kd, p.vd),
        p.c >= 1,
        s0.d0 * nt * p.kd * p.vd <= usize::MAX,
        s0.d0 * nt * p.kd <= usize::MAX,
        s0.d0 * nt * p.c * p.vd <= usize::MAX,
        s0.d0 * nt * p.c <= usize::MAX,
    ensures
        r.0.shaped(s0.d0 * nt, p.kd, p.vd),
        r.1.shaped(s0.d0 * nt, p.c, p.vd),
        forall|h: int, t: int|
            0 <= h < s0.d0 && 0 <= t < nt ==> #[trigger] traced(p, *s0, r.0, r.1, h, t),
{
    let heads: usize = s0.d0;
    let n: usize = y.w.d0;
    let mut states = Tensor3::<F>::zeros(n, s0.d1, s0.d2);
    let mut v_new = Tensor3::<F>::zeros(n, y.w.d2, s0.d2);
    for h in 0..heads
        invariant
            heads == s0.d0,
            n == heads * nt,
            *y == p.y,
            p.nt == nt,
            p.update,
            s0.shaped(heads as int, p.kd, p.vd),
            y.shaped(n as int, p.c, p.kd, p.vd),
            states.shaped(n as int, p.kd, p.vd),
            v_new.shaped(n as int, p.c, p.vd),
            forall|a: int, m: int|
                0 <= a < h && 0 <= m < nt ==> #[trigger] traced(p, *s0, states, v_new, a, m),
    {
        let mut s = s0.block_matrix(h);
        for t in 0..nt
            invariant
                heads == s0.d0,
                n == heads * nt,
                h < heads,
                *y == p.y,
                p.nt == nt,
                p.update,
                s0.shaped(heads as int, p.kd, p.vd),
                y.shaped(n as int, p.c, p.kd, p.vd),
                states.shaped(n as int, p.kd, p.vd),
                v_new.shaped(n as int, p.c, p.vd),
                s.holds(
                    p.kd,
                    p.vd,
                    p.state(h as int, chunk_cube::block(*s0, h as int), t as int),
                ),
                forall|a: int, m: int|
                    0 <= m < nt && (0 <= a < h || (a == h && m < t)) ==> #[trigger] traced(
                        p,
                        *s0,
                        states,
                        v_new,
                        a,
                        m,
                    ),
        {
            proof {
                index::lemma_flat2_bound(heads as int, nt as int, h as int, t as int);
            }
            let b: usize = h * nt + t;
            let ghost st = p.state(h as int, chunk_cube::block(*s0, h as int), t as int);
            let room = v_new.block_matrix(b);
            assert(room.wf());
            let w = y.w.block_matrix(b);
            let ws = linalg::product_cols_of(
                &w,
                &s,
                Ghost(p.kd),
                Ghost(chunk_cube::block(p.y.w, b as int)),
                Ghost(st),
            );
            let vn = linalg::elementwise(Op::Sub, &y.u.block_matrix(b).transposed(), &ws);
            let kgd = y.kgd.block_matrix(b);
            let kv = linalg::product_cols_of(
                &kgd,
                &vn,
                Ghost(p.c),
                Ghost(chunk_cube::block(p.y.kgd, b as int)),
                Ghost(p.v_new(b as int, st)),
            );
            let ghost (before_s, before_v) = (states, v_new);
            states.set_block(b, &s);
            v_new.set_block(b, &vn);
            s = chunk_cube::decay_and_add(&s, &y.glast, b, &kv);
            proof {
                assert forall|a: int, m: int|
                    0 <= m < nt && (0 <= a < h || (a == h && m < t + 1)) implies #[trigger] traced(
                    p,
                    *s0,
                    states,
                    v_new,
                    a,
                    m,
                ) by {
                    index::lemma_flat2_bound(heads as int, nt as int, a, m);
                    if !(a == h && m == t) {
                        assert(traced(p, *s0, before_s, before_v, a, m));
                        let o = index::flat2(nt as int, a, m);
                        if o == b {
                            index::lemma_flat2_injective(nt as int, a, m, h as int, t as int);
                        }
                        let (x1, x2) = (
                            chunk_cube::block(before_s, o),
                            chunk_cube::block(states, o),
                        );
                        assert forall|i: int, j: int|
                            0 <= i < p.kd && 0 <= j < p.vd implies #[trigger] x2(i, j) == x1(
                            i,
                            j,
                        ) by {}
                        let (y1, y2) = (
                            chunk_cube::block(before_v, o),
                            chunk_cube::block(v_new, o),
                        );
                        assert forall|i: int, j: int|
                            0 <= i < p.c && 0 <= j < p.vd implies #[trigger] y2(i, j) == y1(
                            i,
                            j,
                        ) by {}
                    } else {
                        let (x2, y2) = (
                            chunk_cube::block(states, b as int),
                            chunk_cube::block(v_new, b as int),
                        );
                        assert forall|i: int, j: int|
                            0 <= i < p.kd && 0 <= j < p.vd implies #[trigger] x2(i, j) == st(
                            i,
                            j,
                        ) by {}
                        assert forall|i: int, j: int|
                            0 <= i < p.c && 0 <= j < p.vd implies #[trigger] y2(i, j) == p.v_new(
                            b as int,
                            st,
                        )(i, j) by {}
                    }
                }
            }
        }
    }
    (states, v_new)
}

/// The chunked forward pass by the two kernels, with what the backward pass reads. Returns `None`
/// where the kernels do not take the shape.
pub fn fused_chunk_forward_scratch<F: Scalar>(
    q: &Tensor4<F>,
    k: &Tensor4<F>,
    v: &Tensor4<F>,
    g: &Tensor4<F>,
    b: &Tensor4<F>,
    w: &Tensor4<F>,
    state: &Tensor4<F>,
    scale: F,
    chunk_size: usize,
) -> (r: Option<(Tensor4<F>, Tensor4<F>, FusedBackwardInputs<F>)>)
    requires
        (Streams { q, k, v, g, b, w }).wf(),
        (Streams { q, k, v, g, b, w }).carries(*state),
        g.d3 == q.d3,
        b.d3 == q.d3,
        chunk_size > 0,
        addressable((Streams { q, k, v, g, b, w }), chunk_size as int),
        traceable((Streams { q, k, v, g, b, w }), chunk_size as int),
    ensures
        r.is_some() == launchable(q.d2 as int, q.d3 as int, v.d3 as int, chunk_size as int),
        r matches Some(o) ==> {
            let x = Streams { q, k, v, g, b, w };
            &&& fused_outputs(x, scale, *state, chunk_size as int, o.0, o.1)
            &&& exported(x, scale, *state, chunk_size as int, o.2)
        },
{
    let x = Streams { q, k, v, g, b, w };
    let c: usize = chunk_size;
    let (out, next, y) = match run_kernels(q, k, v, g, b, w, state, scale, c) {
        Some(o) => o,
        None => {
            return None;
        },
    };
    let nt: usize = q.d2 / c;
    proof {
        let (bh, t, n, cc, kd, vd) = (
            x.batch() * x.heads(),
            x.tokens(),
            nt as int,
            c as int,
            x.kd(),
            x.vd(),
        );
        assert(n * cc == t) by (nonlinear_arith)
            requires
                t % cc == 0,
                cc >= 1,
                n == t / cc,
        ;
        assert(bh * 1 == bh);
        assert(bh * n * cc == bh * t && bh * n * cc * vd == bh * t * vd && bh * n * kd <= bh * t
            * kd) by (nonlinear_arith)
            requires
                0 <= bh,
                0 <= kd,
                0 <= n,
                1 <= cc,
                t == n * cc,
        {
            assert(n <= t);
            assert(bh * n <= bh * t);
        }
        assert(0 <= bh) by (nonlinear_arith)
            requires
                bh == x.q.d0 * x.q.d1,
        ;
    }
    let s3 = state.to_blocks(1, q.d3);
    let ghost p = Inter {
        y,
        nt: nt as int,
        c: c as int,
        kd: x.kd(),
        vd: x.vd(),
        scale,
        update: true,
    };
    let (states, v_new) = trace_states(&y, &s3, nt, Ghost(p));
    let e = FusedBackwardInputs {
        m_inv: y.m_inv,
        aqk: y.aqk,
        qgt: y.qgt,
        kgd: y.kgd,
        glast: y.glast,
        v_new,
        states,
        w: y.w,
        u: y.u,
    };
    proof {
        let hs = x.heads();
        assert forall|a: int, h: int, t: int|
            0 <= a < x.batch() && 0 <= h < hs && 0 <= t < nt implies #[trigger] block_exports(
            e,
            fused_head(x, scale, *state, c as int, a, h),
            t,
            index::flat2(nt as int, index::flat2(hs, a, h), t),
        ) by {
            let f = fused_head(x, scale, *state, c as int, a, h);
            let hh = index::flat2(hs, a, h);
            index::lemma_flat2_bound(x.batch(), hs, a, h);
            let n = index::flat2(nt as int, hh, t);
            let s = chunk_cube::block(s3, hh);
            assert forall|l: int, j: int|
                0 <= l < x.kd() && 0 <= j < x.vd() implies #[trigger] s(l, j) == (f.s)(l, j) by {
                assert(s3.at(index::flat2(1, hh, 0), l, j) == state.at(a, h, 0 * x.kd() + l, j));
            }
            assert forall|m: int| 0 <= m < nt implies #[trigger] ready(p, f, hh, m) by {
                assert(block_buffers(y, f.block(m), index::flat2(nt as int, hh, m)));
            }
            lemma_inter_states(p, f, hh, s, t);
            assert(block_buffers(y, f.block(t), n));
            lemma_inter_block(p, f.block(t), n, p.state(hh, s, t), f.state(t));
            assert(traced(p, s3, states, v_new, hh, t));
        }
    }
    Some((out, next, e))
}

/// The states before all chunks can be addressed.
pub open spec fn traceable<F: Scalar>(x: Streams<F>, c: int) -> bool {
    x.batch() * x.heads() * (x.tokens() / c) * x.kd() * x.vd() <= usize::MAX
}

} // verus!
