//! The chunked forward pass with its solves by forward substitution.

use vstd::prelude::*;

use crate::algebra;
use crate::equivalence;
use crate::forward;
use crate::forward::{chunk_masks, chunk_scores, chunk_state, rows_for, slice_padded, ChunkInputs};
use crate::grid::Grid;
use crate::kernel::cubecl_chunk;
use crate::kernel::cubecl_chunk::substitute;
use crate::kernel::fused_recurrent;
use crate::linalg;
use crate::linalg::Op;
use crate::scalar;
use crate::scalar::{ExactScalar, Scalar};
use crate::streams::Streams;
use crate::tensor::{Matrix, Tensor4};
use crate::wy;
use crate::wy::{Chunk, Chunking, Pass};

verus! {

impl<F: Scalar> Chunk<F> {
    /// Pseudo-keys, by substitution.
    pub open spec fn w_sub(self) -> Grid<F> {
        cubecl_chunk::solution(
            |r: int, s: int| self.akk(r, s),
            |r: int, i: int| self.rhs_k(r, i),
        )
    }

    /// Pseudo-values, by substitution.
    pub open spec fn u_sub(self) -> Grid<F> {
        cubecl_chunk::solution(
            |r: int, s: int| self.akk(r, s),
            |r: int, j: int| self.rhs_v(r, j),
        )
    }

    /// The values that the rows write, by substitution.
    pub open spec fn v_sub(self) -> Grid<F> {
        |r: int, j: int|
            self.u_sub()(r, j).minus(
                scalar::total(self.kd, |i: int| self.w_sub()(r, i).times((self.s)(i, j))),
            )
    }

    /// The outputs of the chunk, by substitution.
    pub open spec fn out_sub(self, r: int, j: int) -> F {
        scalar::total(self.rows, |l: int| self.aqk(r, l).times(self.v_sub()(l, j))).plus(
            self.inter(r, j),
        )
    }
}

impl<F: Scalar> Chunking<F> {
    /// The state before chunk `c`, by substitution.
    pub open spec fn state_sub(self, c: int) -> Grid<F>
        decreases c,
    {
        if c <= 0 {
            self.s
        } else {
            let ch = self.piece(c - 1, self.state_sub(c - 1));
            |i: int, j: int| ch.next_with(ch.v_sub(), i, j)
        }
    }

    /// The output of token `t`, by substitution.
    pub open spec fn output_sub(self, t: int, j: int) -> F {
        self.piece(t / self.size, self.state_sub(t / self.size)).out_sub(t % self.size, j)
    }
}

/// In exact arithmetic a chunk by substitution is the chunk by its inverse.
proof fn lemma_chunk_sub<F: ExactScalar>(ch: Chunk<F>)
    requires
        ch.rows >= 0,
    ensures
        forall|r: int, j: int|
            0 <= r < ch.rows ==> #[trigger] ch.out_sub(r, j) == ch.out(ch.solver(), r, j),
        forall|i: int, j: int| #[trigger]
            ch.next_with(ch.v_sub(), i, j) == ch.next(ch.solver(), i, j),
{
    let m = ch.solver();
    let a = |r: int, s: int| ch.akk(r, s);
    let rk = |r: int, i: int| ch.rhs_k(r, i);
    let rv = |r: int, j: int| ch.rhs_v(r, j);
    let v = ch.v_sub();
    assert forall|r: int, j: int| 0 <= r < ch.rows implies #[trigger] v(r, j) == ch.v_new(
        m,
        r,
        j,
    ) by {
        cubecl_chunk::substitution_is_inverse(a, rv, ch.rows, r, j);
        let f = |l: int| Chunk::inverse(a, r, l).times(rv(l, j));
        let f2 = |l: int| m(r, l).times(ch.rhs_v(l, j));
        algebra::lemma_total_eq(ch.rows, f, f2);
        let h = |i: int| ch.w_sub()(r, i).times((ch.s)(i, j));
        let h2 = |i: int| ch.w_wy(m, r, i).times((ch.s)(i, j));
        assert forall|i: int| 0 <= i < ch.kd implies #[trigger] h(i) == h2(i) by {
            cubecl_chunk::substitution_is_inverse(a, rk, ch.rows, r, i);
            let p = |l: int| Chunk::inverse(a, r, l).times(rk(l, i));
            let p2 = |l: int| m(r, l).times(ch.rhs_k(l, i));
            algebra::lemma_total_eq(ch.rows, p, p2);
        }
        algebra::lemma_total_eq(ch.kd, h, h2);
    }
    assert forall|r: int, j: int| 0 <= r < ch.rows implies #[trigger] ch.out_sub(r, j) == ch.out(
        m,
        r,
        j,
    ) by {
        let f = |l: int| ch.aqk(r, l).times(ch.v_sub()(l, j));
        let f2 = |l: int| ch.aqk(r, l).times(ch.v_new(m, l, j));
        assert forall|l: int| 0 <= l < ch.rows implies #[trigger] f(l) == f2(l) by {
            assert(v(l, j) == ch.v_new(m, l, j));
        }
        algebra::lemma_total_eq(ch.rows, f, f2);
    }
    assert forall|i: int, j: int| true implies #[trigger] ch.next_with(v, i, j) == ch.next(
        m,
        i,
        j,
    ) by {
        let f = |r: int| (ch.k)(r, i).times(ch.decay_last(r, i)).times(v(r, j));
        let f2 = |r: int| (ch.k)(r, i).times(ch.decay_last(r, i)).times(ch.v_new(m, r, j));
        assert forall|r: int| 0 <= r < ch.rows implies #[trigger] f(r) == f2(r) by {
            assert(v(r, j) == ch.v_new(m, r, j));
        }
        algebra::lemma_total_eq(ch.rows, f, f2);
    }
}

/// In exact arithmetic the states of a head by substitution are those by inverses.
proof fn lemma_states_sub<F: ExactScalar>(ck: Chunking<F>, c: int)
    requires
        ck.size > 0,
        ck.tile > 0,
        ck.saved is None,
        0 <= c <= ck.count(),
    ensures
        ck.state_sub(c) == ck.state(c),
    decreases c,
{
    if c > 0 {
        lemma_states_sub(ck, c - 1);
        equivalence::lemma_chunk_bounds(ck, c - 1);
        let ch = ck.chunk(c - 1);
        lemma_chunk_sub(ch);
        assert(ck.state_sub(c) =~= ck.state(c));
    }
}

/// Whether `out` and `next` are the outputs of the pass by substitution, and the state after it.
pub open spec fn substituted_outputs<F: Scalar>(
    p: Pass<F>,
    out: Tensor4<F>,
    next: Tensor4<F>,
) -> bool {
    &&& out.shaped(p.x.batch(), p.x.heads(), p.x.tokens(), p.x.vd())
    &&& p.x.carries(next)
    &&& forall|a: int, h: int, t: int, j: int|
        0 <= a < p.x.batch() && 0 <= h < p.x.heads() && 0 <= t < p.x.tokens() && 0 <= j < p.x.vd()
            ==> #[trigger] out.at(a, h, t, j) == p.head(a, h).output_sub(t, j)
    &&& forall|a: int, h: int, i: int, j: int|
        0 <= a < p.x.batch() && 0 <= h < p.x.heads() && 0 <= i < p.x.kd() && 0 <= j < p.x.vd()
            ==> #[trigger] next.at(a, h, i, j) == p.head(a, h).state_sub(p.count())(i, j)
}

/// In exact arithmetic the pass by substitution returns what the pass by inverses returns.
pub proof fn substituted_pass_is_chunked<F: ExactScalar>(p: Pass<F>, out: Tensor4<F>, next: Tensor4<F>)
    requires
        p.wf(),
        p.saved is None,
        substituted_outputs(p, out, next),
    ensures
        forward::chunked_outputs(p, out, next),
{
    assert forall|a: int, h: int, t: int, j: int|
        0 <= a < p.x.batch() && 0 <= h < p.x.heads() && 0 <= t < p.x.tokens() && 0 <= j
            < p.x.vd() implies #[trigger] out.at(a, h, t, j) == p.head(a, h).output(t, j) by {
        let ck = p.head(a, h);
        let (size, tokens, count) = (ck.size, ck.tokens, ck.count());
        let (c, r) = (t / size, t % size);
        assert(0 <= c < count && 0 <= r < size && t == c * size + r && (c + 1) * size == c * size
            + size) by (nonlinear_arith)
            requires
                size > 0,
                0 <= t < tokens,
                count == (tokens + size - 1) / size,
                c == t / size,
                r == t % size,
        ;
        lemma_states_sub(ck, c);
        equivalence::lemma_chunk_bounds(ck, c);
        lemma_chunk_sub(ck.chunk(c));
        assert(ck.chunk(c).out_sub(r, j) == ck.chunk(c).out(ck.chunk(c).solver(), r, j));
    }
    assert forall|a: int, h: int, i: int, j: int|
        0 <= a < p.x.batch() && 0 <= h < p.x.heads() && 0 <= i < p.x.kd() && 0 <= j
            < p.x.vd() implies #[trigger] next.at(a, h, i, j) == p.head(a, h).state(p.count())(
        i,
        j,
    ) by {
        let ck = p.head(a, h);
        let (size, tokens) = (ck.size, ck.tokens);
        assert(0 <= (tokens + size - 1) / size) by (nonlinear_arith)
            requires
                size > 0,
                tokens >= 0,
        ;
        lemma_states_sub(ck, ck.count());
    }
}

/// One chunk of one head: its outputs, and the state after it.
fn chunk_head_sub<F: Scalar>(
    x: &ChunkInputs<F>,
    n: usize,
    rows: usize,
    scale: F,
    Ghost(ch): Ghost<Chunk<F>>,
) -> (r: (Matrix<F>, Matrix<F>))
    requires
        x.hold(ch),
        1 <= ch.n <= ch.rows,
        n == ch.n,
        rows == ch.rows,
        ch.tile == wy::TILE,
        scale == ch.scale,
        rows * rows <= usize::MAX,
    ensures
        r.0.holds(ch.rows, ch.vd, |r: int, j: int| ch.out_sub(r, j)),
        r.1.holds(ch.kd, ch.vd, |i: int, j: int| ch.next_with(ch.v_sub(), i, j)),
{
    let (causal, strict) = chunk_masks::<F>(rows);
    let scaled = linalg::scale(&causal, scale);
    let sc = chunk_scores(x, n, &scaled, &strict, Ghost(ch));
    let ghost a = |r: int, s: int| ch.akk(r, s);
    let ghost rk = |r: int, i: int| ch.rhs_k(r, i);
    let ghost rv = |r: int, j: int| ch.rhs_v(r, j);
    let w = substitute(&sc.akk, &sc.rhs_k, Ghost(a), Ghost(rk));
    let u = substitute(&sc.akk, &sc.rhs_v, Ghost(a), Ghost(rv));
    assert(x.v.wf());
    let ws = linalg::product_of(&w, &x.s, Ghost(ch.kd), Ghost(ch.w_sub()), Ghost(ch.s));
    let v_new = linalg::elementwise(Op::Sub, &u, &ws);
    let ghost v = ch.v_sub();
    assert forall|r: int, j: int| 0 <= r < ch.rows && 0 <= j < ch.vd implies #[trigger] v_new.at(
        r,
        j,
    ) == v(r, j) by {
        let f = |i: int| ch.w_sub()(r, i).times((ch.s)(i, j));
        let f2 = |l: int| ch.w_sub()(r, l).times((ch.s)(l, j));
        algebra::lemma_total_eq(ch.kd, f, f2);
    }
    let ghost qg = |r: int, i: int| ch.qg(r, i);
    let ghost qk = |r: int, s: int| ch.aqk(r, s);
    let intra = linalg::product_of(&sc.aqk, &v_new, Ghost(ch.rows), Ghost(qk), Ghost(v));
    let inter = linalg::scale(
        &linalg::product_of(&sc.q_gated, &x.s, Ghost(ch.kd), Ghost(qg), Ghost(ch.s)),
        scale,
    );
    let out = linalg::elementwise(Op::Add, &intra, &inter);
    assert forall|r: int, j: int| 0 <= r < ch.rows && 0 <= j < ch.vd implies #[trigger] out.at(
        r,
        j,
    ) == ch.out_sub(r, j) by {
        let f = |l: int| qk(r, l).times(v(l, j));
        let f2 = |l: int| ch.aqk(r, l).times(ch.v_sub()(l, j));
        algebra::lemma_total_eq(ch.rows, f, f2);
        let h = |i: int| qg(r, i).times((ch.s)(i, j));
        let h2 = |i: int| ch.qg(r, i).times((ch.s)(i, j));
        algebra::lemma_total_eq(ch.kd, h, h2);
    }
    let next = chunk_state(&x.k, &sc.g_cum, &sc.gamma, &v_new, &x.s, n, Ghost(ch), Ghost(v));
    (out, next)
}

/// All chunks of one head.
fn head_sub<F: Scalar>(
    x: &Streams<F>,
    scale: F,
    chunk_size: usize,
    bi: usize,
    hi: usize,
    state: &mut Tensor4<F>,
    out: &mut Tensor4<F>,
    Ghost(p): Ghost<Pass<F>>,
)
    requires
        p.wf(),
        p.addressable(),
        *x == p.x,
        scale == p.scale,
        chunk_size == p.size,
        bi < x.batch(),
        hi < x.heads(),
        x.carries(*old(state)),
        forall|i: int, j: int|
            0 <= i < x.kd() && 0 <= j < x.vd() ==> #[trigger] old(state).at(
                bi as int,
                hi as int,
                i,
                j,
            ) == p.state.at(bi as int, hi as int, i, j),
        old(out).shaped(x.batch(), x.heads(), x.tokens(), x.vd()),
    ensures
        x.carries(*final(state)),
        final(out).shaped(x.batch(), x.heads(), x.tokens(), x.vd()),
        forall|a: int, h: int, i: int, j: int|
            0 <= a < x.batch() && 0 <= h < x.heads() && 0 <= i < x.kd() && 0 <= j < x.vd()
                ==> #[trigger] final(state).at(a, h, i, j) == (if a == bi && h == hi {
                p.head(a, h).state_sub(p.count())(i, j)
            } else {
                old(state).at(a, h, i, j)
            }),
        forall|a: int, h: int, t: int, j: int|
            0 <= a < x.batch() && 0 <= h < x.heads() && 0 <= t < x.tokens() && 0 <= j < x.vd()
                ==> #[trigger] final(out).at(a, h, t, j) == (if a == bi && h == hi {
                p.head(a, h).output_sub(t, j)
            } else {
                old(out).at(a, h, t, j)
            }),
{
    let ghost ck = p.head(bi as int, hi as int);
    let ghost out0 = *out;
    let tokens: usize = x.q.d2;
    let (kd, vd): (usize, usize) = (x.q.d3, x.v.d3);
    let mut s = state.head_matrix(bi, hi);
    assert(s.holds(x.kd(), x.vd(), ck.s));
    let mut start: usize = 0;
    let mut c: usize = 0;
    proof {
        let (size, all) = (p.size, tokens as int);
        assert(all == 0 ==> (all + size - 1) / size == 0) by (nonlinear_arith)
            requires
                size > 0,
        ;
        forward::lemma_chunk_span(p.count(), size, all, 0);
        assert(0 * size == 0);
    }
    while start < tokens
        invariant
            p.wf(),
            p.addressable(),
            *x == p.x,
            scale == p.scale,
            chunk_size == p.size,
            bi < x.batch(),
            hi < x.heads(),
            ck == p.head(bi as int, hi as int),
            tokens == x.tokens(),
            kd == x.kd(),
            vd == x.vd(),
            start <= tokens,
            c <= start,
            c <= p.count(),
            start == (if c < p.count() {
                c * p.size
            } else {
                tokens as int
            }),
            start == tokens ==> c == p.count(),
            s.holds(x.kd(), x.vd(), ck.state_sub(c as int)),
            out0.shaped(x.batch(), x.heads(), x.tokens(), x.vd()),
            out.shaped(x.batch(), x.heads(), x.tokens(), x.vd()),
            forall|a: int, h: int, t: int, j: int|
                0 <= a < x.batch() && 0 <= h < x.heads() && 0 <= t < x.tokens() && 0 <= j < x.vd()
                    ==> #[trigger] out.at(a, h, t, j) == (if a == bi && h == hi && t < start {
                    p.head(a, h).output_sub(t, j)
                } else {
                    out0.at(a, h, t, j)
                }),
        decreases tokens - start,
    {
        let n: usize = if tokens - start < chunk_size {
            tokens - start
        } else {
            chunk_size
        };
        proof {
            forward::lemma_chunk_span(p.count(), p.size, tokens as int, c as int);
            forward::lemma_chunk_span(p.count(), p.size, tokens as int, c + 1);
            assert(n == p.len(c as int));
            forward::lemma_rows_fit(p, c as int);
            equivalence::lemma_chunk_bounds(ck, c as int);
        }
        let rows: usize = rows_for(n);
        assert(rows == p.rows(c as int));
        let ghost ch = ck.piece(c as int, ck.state_sub(c as int));
        let y = ChunkInputs {
            q: slice_padded(x.q, bi, hi, start, n, rows, kd),
            k: slice_padded(x.k, bi, hi, start, n, rows, kd),
            v: slice_padded(x.v, bi, hi, start, n, rows, vd),
            g: slice_padded(x.g, bi, hi, start, n, rows, kd),
            b: slice_padded(x.b, bi, hi, start, n, rows, kd),
            w: slice_padded(x.w, bi, hi, start, n, rows, vd),
            s,
        };
        assert(y.hold(ch));
        let (o, next) = chunk_head_sub(&y, n, rows, scale, Ghost(ch));
        let ghost before = *out;
        out.set_rows(bi, hi, start, n, &o);
        s = next;
        proof {
            assert forall|a: int, h: int, t: int, j: int|
                0 <= a < x.batch() && 0 <= h < x.heads() && 0 <= t < x.tokens() && 0 <= j
                    < x.vd() implies #[trigger] out.at(a, h, t, j) == (if a == bi && h == hi && t
                < start + n {
                p.head(a, h).output_sub(t, j)
            } else {
                out0.at(a, h, t, j)
            }) by {
                if a == bi && h == hi && start <= t < start + n {
                    forward::lemma_token_of(p.size, c as int, t);
                    assert(out.at(a, h, t, j) == o.at(t - start, j));
                } else {
                    assert(out.at(a, h, t, j) == before.at(a, h, t, j));
                }
            }
            if start + n == tokens {
                forward::lemma_last_chunk(p.size, tokens as int, c + 1);
            } else {
                assert(c + 1 < p.count()) by {
                    forward::lemma_chunk_span(p.count(), p.size, tokens as int, c + 1);
                }
            }
        }
        start = start + n;
        c = c + 1;
    }
    state.set_head(bi, hi, &s);
}

/// The chunked forward pass with each solve by substitution in place of an inverse.
pub fn chunk_wy_forward_cubecl<F: Scalar>(
    q: &Tensor4<F>,
    k: &Tensor4<F>,
    v: &Tensor4<F>,
    g: &Tensor4<F>,
    b: &Tensor4<F>,
    w_gate: &Tensor4<F>,
    state: &Tensor4<F>,
    scale: F,
    chunk_size: usize,
) -> (r: (Tensor4<F>, Tensor4<F>))
    requires
        forward::pass_of(q, k, v, g, b, w_gate, *state, scale, chunk_size as int, None).wf(),
        forward::pass_of(q, k, v, g, b, w_gate, *state, scale, chunk_size as int, None).addressable(),
    ensures
        substituted_outputs(
            forward::pass_of(q, k, v, g, b, w_gate, *state, scale, chunk_size as int, None),
            r.0,
            r.1,
        ),
{
    let ghost p = forward::pass_of(
        q,
        k,
        v,
        g,
        b,
        w_gate,
        *state,
        scale,
        chunk_size as int,
        None,
    );
    let x = Streams { q, k, v, g, b, w: w_gate };
    let mut s = state.copy();
    let mut out = v.zeros_like();
    for bi in 0..q.d0
        invariant
            p == forward::pass_of(q, k, v, g, b, w_gate, *state, scale, chunk_size as int, None),
            p.wf(),
            p.addressable(),
            x == p.x,
            x.carries(s),
            out.shaped(x.batch(), x.heads(), x.tokens(), x.vd()),
            forall|a: int, h: int, t: int, j: int|
                0 <= a < bi && 0 <= h < x.heads() && 0 <= t < x.tokens() && 0 <= j < x.vd()
                    ==> #[trigger] out.at(a, h, t, j) == p.head(a, h).output_sub(t, j),
            forall|a: int, h: int, i: int, j: int|
                0 <= a < x.batch() && 0 <= h < x.heads() && 0 <= i < x.kd() && 0 <= j < x.vd()
                    ==> #[trigger] s.at(a, h, i, j) == (if a < bi {
                    p.head(a, h).state_sub(p.count())(i, j)
                } else {
                    state.at(a, h, i, j)
                }),
    {
        for hi in 0..q.d1
            invariant
                p == forward::pass_of(
                    q,
                    k,
                    v,
                    g,
                    b,
                    w_gate,
                    *state,
                    scale,
                    chunk_size as int,
                    None,
                ),
                p.wf(),
                p.addressable(),
                x == p.x,
                bi < x.batch(),
                x.carries(s),
                out.shaped(x.batch(), x.heads(), x.tokens(), x.vd()),
                forall|a: int, h: int, t: int, j: int|
                    0 <= h < x.heads() && (0 <= a < bi || (a == bi && h < hi)) && 0 <= t
                        < x.tokens() && 0 <= j < x.vd() ==> #[trigger] out.at(a, h, t, j) == p.head(
                        a,
                        h,
                    ).output_sub(t, j),
                forall|a: int, h: int, i: int, j: int|
                    0 <= a < x.batch() && 0 <= h < x.heads() && 0 <= i < x.kd() && 0 <= j < x.vd()
                        ==> #[trigger] s.at(a, h, i, j) == (if forward::passed(
                        bi as int,
                        hi as int,
                        a,
                        h,
                    ) {
                        p.head(a, h).state_sub(p.count())(i, j)
                    } else {
                        state.at(a, h, i, j)
                    }),
        {
            head_sub(&x, scale, chunk_size, bi, hi, &mut s, &mut out, Ghost(p));
        }
    }
    (out, s)
}

/// In exact arithmetic the pass by substitution computes the recurrence.
pub proof fn substituted_pass_is_recurrence<F: ExactScalar>(
    p: Pass<F>,
    out: Tensor4<F>,
    next: Tensor4<F>,
)
    requires
        p.wf(),
        p.saved is None,
        forall|a: int, h: int|
            0 <= a < p.x.batch() && 0 <= h < p.x.heads() ==> (#[trigger] p.head(
                a,
                h,
            )).tiles_decay(),
        substituted_outputs(p, out, next),
    ensures
        fused_recurrent::recurrence_of(p.x, p.scale, p.state, out, next),
{
    substituted_pass_is_chunked(p, out, next);
    equivalence::chunked_pass_is_recurrence(p, out, next);
}

} // verus!
