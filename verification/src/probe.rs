//! Gradients are determined by the changes that they weigh: a direction that changes one input
//! alone reads off one of its gradients. So all backward passes return the same.

use vstd::prelude::*;

use crate::algebra;
use crate::autodiff::{ChunkWy, ChunkWyGradients};
use crate::gradient;
use crate::gradient::TokenGradients;
use crate::grid;
use crate::grid::Grid;
use crate::kernel::chunk_adjoint_cube::{BackPass, FusedBackwardOutput};
use crate::kernel::fused_chunk;
use crate::kernel::fused_gradient;
use crate::pairing;
use crate::recurrence::Head;
use crate::scalar;
use crate::scalar::{ExactScalar, Scalar};
use crate::scratch;
use crate::streams;
use crate::tensor::Tensor4;
use crate::wy::Pass;

verus! {

/// The inputs of a token.
pub enum Input {
    Query,
    Key,
    Value,
    Decay,
    Erase,
    Write,
}

/// One at `(a, b)`, zero elsewhere.
pub open spec fn spike<F: Scalar>(a: int, b: int) -> Grid<F> {
    |i: int, j: int|
        if i == a && j == b {
            F::unit()
        } else {
            F::nil()
        }
}

impl Input {
    /// The matrix `d` where this input is `x`, zero where it is not.
    pub open spec fn only<F: Scalar>(self, x: Input, d: Grid<F>) -> Grid<F> {
        if self == x {
            d
        } else {
            grid::zero()
        }
    }

    /// The direction in which this input alone changes, by `d`.
    pub open spec fn direction<F: Scalar>(self, d: Grid<F>) -> Head<F> {
        Head {
            kd: 0,
            vd: 0,
            q: self.only(Input::Query, d),
            k: self.only(Input::Key, d),
            v: self.only(Input::Value, d),
            g: self.only(Input::Decay, d),
            b: self.only(Input::Erase, d),
            w: self.only(Input::Write, d),
            scale: F::nil(),
        }
    }

    /// The gradient of this input.
    pub open spec fn of<F: Scalar>(self, d: TokenGradients<F>) -> Grid<F> {
        match self {
            Input::Query => d.d_q,
            Input::Key => d.d_k,
            Input::Value => d.d_v,
            Input::Decay => d.d_g,
            Input::Erase => d.d_b,
            Input::Write => d.d_w,
        }
    }

    /// Channels of this input in a head.
    pub open spec fn channels<F: Scalar>(self, h: Head<F>) -> int {
        match self {
            Input::Value | Input::Write => h.vd,
            _ => h.kd,
        }
    }
}

/// The change that a direction makes, by the gradients of the tokens and of the initial state.
pub open spec fn weighed<F: Scalar>(
    h: Head<F>,
    tokens: int,
    d: TokenGradients<F>,
    d_s: Grid<F>,
    dir: Head<F>,
    dir_s: Grid<F>,
) -> F {
    pairing::pair(h.kd, h.vd, d_s, dir_s).plus(
        scalar::total(tokens, |t: int| gradient::change(d, gradient::lifted_head(h, dir), t)),
    )
}

/// A row paired with zeros.
proof fn lemma_row_nil<F: ExactScalar>(n: int, a: Grid<F>, b: Grid<F>, t: int)
    requires
        forall|j: int| 0 <= j < n ==> #[trigger] b(t, j) == F::nil(),
    ensures
        pairing::row_pair(n, a, b, t) == F::nil(),
{
    let f = |j: int| a(t, j).times(b(t, j));
    assert forall|j: int| 0 <= j < n implies #[trigger] f(j) == F::nil() by {
        assert(b(t, j) == F::nil());
        F::times_commutes(a(t, j), F::nil());
        algebra::lemma_times_nil(a(t, j));
    }
    algebra::lemma_total_nil(n, f);
}

/// A row paired with a spike.
proof fn lemma_row_spike<F: ExactScalar>(n: int, a: Grid<F>, t: int, t0: int, i0: int)
    requires
        0 <= i0 < n,
    ensures
        pairing::row_pair(n, a, spike(t0, i0), t) == if t == t0 {
            a(t0, i0)
        } else {
            F::nil()
        },
{
    let b = spike::<F>(t0, i0);
    if t == t0 {
        let f = |j: int| a(t, j).times(b(t, j));
        assert forall|j: int| 0 <= j < n && j != i0 implies #[trigger] f(j) == F::nil() by {
            F::times_commutes(a(t, j), F::nil());
            algebra::lemma_times_nil(a(t, j));
        }
        algebra::lemma_total_single(n, i0, f);
        F::times_unit(a(t0, i0));
    } else {
        lemma_row_nil(n, a, b, t);
    }
}

/// What a token weighs where one input alone changes.
proof fn lemma_token_spike<F: ExactScalar>(
    h: Head<F>,
    d: TokenGradients<F>,
    x: Input,
    t0: int,
    i0: int,
    t: int,
)
    requires
        0 <= i0 < x.channels(h),
    ensures
        gradient::change(d, gradient::lifted_head(h, x.direction(spike(t0, i0))), t) == if t == t0 {
            x.of(d)(t0, i0)
        } else {
            F::nil()
        },
{
    let u = spike::<F>(t0, i0);
    let dir = x.direction(u);
    let l = gradient::lifted_head(h, dir);
    assert(gradient::eps(l.q) =~= dir.q);
    assert(gradient::eps(l.k) =~= dir.k);
    assert(gradient::eps(l.v) =~= dir.v);
    assert(gradient::eps(l.g) =~= dir.g);
    assert(gradient::eps(l.b) =~= dir.b);
    assert(gradient::eps(l.w) =~= dir.w);
    let z = grid::zero::<F>();
    lemma_row_nil(h.kd, d.d_q, z, t);
    lemma_row_nil(h.kd, d.d_k, z, t);
    lemma_row_nil(h.vd, d.d_v, z, t);
    lemma_row_nil(h.kd, d.d_g, z, t);
    lemma_row_nil(h.kd, d.d_b, z, t);
    lemma_row_nil(h.vd, d.d_w, z, t);
    lemma_row_spike(x.channels(h), x.of(d), t, t0, i0);
    algebra::lemma_nil_plus(x.of(d)(t0, i0));
    algebra::lemma_nil_plus(F::nil());
}

/// A direction that changes one input of one token reads off its gradient.
proof fn lemma_spike<F: ExactScalar>(
    h: Head<F>,
    tokens: int,
    d: TokenGradients<F>,
    d_s: Grid<F>,
    x: Input,
    t0: int,
    i0: int,
)
    requires
        0 <= t0 < tokens,
        0 <= i0 < x.channels(h),
    ensures
        weighed(h, tokens, d, d_s, x.direction(spike(t0, i0)), grid::zero()) == x.of(d)(t0, i0),
{
    let dir = x.direction(spike::<F>(t0, i0));
    let f = |t: int| gradient::change(d, gradient::lifted_head(h, dir), t);
    assert forall|t: int| 0 <= t < tokens && t != t0 implies #[trigger] f(t) == F::nil() by {
        lemma_token_spike(h, d, x, t0, i0, t);
    }
    algebra::lemma_total_single(tokens, t0, f);
    lemma_token_spike(h, d, x, t0, i0, t0);
    let z = grid::zero::<F>();
    let p = |i: int| pairing::row_pair(h.vd, d_s, z, i);
    assert forall|i: int| 0 <= i < h.kd implies #[trigger] p(i) == F::nil() by {
        lemma_row_nil(h.vd, d_s, z, i);
    }
    algebra::lemma_total_nil(h.kd, p);
    algebra::lemma_nil_plus(x.of(d)(t0, i0));
}

/// A direction that changes one element of the state reads off its gradient.
proof fn lemma_state_spike<F: ExactScalar>(
    h: Head<F>,
    tokens: int,
    d: TokenGradients<F>,
    d_s: Grid<F>,
    i0: int,
    j0: int,
)
    requires
        0 <= i0 < h.kd,
        0 <= j0 < h.vd,
    ensures
        weighed(
            h,
            tokens,
            d,
            d_s,
            Input::Query.direction(grid::zero()),
            spike(i0, j0),
        ) == d_s(i0, j0),
{
    let z = grid::zero::<F>();
    let dir = Input::Query.direction(z);
    let l = gradient::lifted_head(h, dir);
    assert(gradient::eps(l.q) =~= z);
    assert(gradient::eps(l.k) =~= z);
    assert(gradient::eps(l.v) =~= z);
    assert(gradient::eps(l.g) =~= z);
    assert(gradient::eps(l.b) =~= z);
    assert(gradient::eps(l.w) =~= z);
    let f = |t: int| gradient::change(d, l, t);
    algebra::lemma_nil_plus(F::nil());
    assert forall|t: int| 0 <= t < tokens implies #[trigger] f(t) == F::nil() by {
        lemma_row_nil(h.kd, d.d_q, z, t);
        lemma_row_nil(h.kd, d.d_k, z, t);
        lemma_row_nil(h.vd, d.d_v, z, t);
        lemma_row_nil(h.kd, d.d_g, z, t);
        lemma_row_nil(h.kd, d.d_b, z, t);
        lemma_row_nil(h.vd, d.d_w, z, t);
    }
    algebra::lemma_total_nil(tokens, f);
    let u = spike::<F>(i0, j0);
    let p = |i: int| pairing::row_pair(h.vd, d_s, u, i);
    assert forall|i: int| 0 <= i < h.kd && i != i0 implies #[trigger] p(i) == F::nil() by {
        lemma_row_spike(h.vd, d_s, i, i0, j0);
    }
    algebra::lemma_total_single(h.kd, i0, p);
    lemma_row_spike(h.vd, d_s, i0, i0, j0);
    algebra::lemma_nil_plus(d_s(i0, j0));
}

/// Gradients that weigh every direction alike are the same, element by element.
pub proof fn gradients_are_unique<F: ExactScalar>(
    h: Head<F>,
    tokens: int,
    d1: TokenGradients<F>,
    s1: Grid<F>,
    d2: TokenGradients<F>,
    s2: Grid<F>,
)
    requires
        forall|dir: Head<F>, dir_s: Grid<F>| #[trigger]
            weighed(h, tokens, d1, s1, dir, dir_s) == weighed(h, tokens, d2, s2, dir, dir_s),
    ensures
        pairing::agree(tokens, h.kd, d1.d_q, d2.d_q),
        pairing::agree(tokens, h.kd, d1.d_k, d2.d_k),
        pairing::agree(tokens, h.vd, d1.d_v, d2.d_v),
        pairing::agree(tokens, h.kd, d1.d_g, d2.d_g),
        pairing::agree(tokens, h.kd, d1.d_b, d2.d_b),
        pairing::agree(tokens, h.vd, d1.d_w, d2.d_w),
        pairing::agree(h.kd, h.vd, s1, s2),
{
    assert forall|x: Input, t: int, i: int|
        0 <= t < tokens && 0 <= i < x.channels(h) implies #[trigger] x.of(d1)(t, i) == x.of(d2)(
        t,
        i,
    ) by {
        lemma_spike(h, tokens, d1, s1, x, t, i);
        lemma_spike(h, tokens, d2, s2, x, t, i);
        assert(weighed(h, tokens, d1, s1, x.direction(spike(t, i)), grid::zero()) == weighed(
            h,
            tokens,
            d2,
            s2,
            x.direction(spike(t, i)),
            grid::zero(),
        ));
    }
    assert forall|t: int, i: int| 0 <= t < tokens && 0 <= i < h.kd implies #[trigger] (d1.d_q)(t, i)
        == (d2.d_q)(t, i) by {
        assert(Input::Query.of(d1)(t, i) == Input::Query.of(d2)(t, i));
    }
    assert forall|t: int, i: int| 0 <= t < tokens && 0 <= i < h.kd implies #[trigger] (d1.d_k)(t, i)
        == (d2.d_k)(t, i) by {
        assert(Input::Key.of(d1)(t, i) == Input::Key.of(d2)(t, i));
    }
    assert forall|t: int, i: int| 0 <= t < tokens && 0 <= i < h.vd implies #[trigger] (d1.d_v)(t, i)
        == (d2.d_v)(t, i) by {
        assert(Input::Value.of(d1)(t, i) == Input::Value.of(d2)(t, i));
    }
    assert forall|t: int, i: int| 0 <= t < tokens && 0 <= i < h.kd implies #[trigger] (d1.d_g)(t, i)
        == (d2.d_g)(t, i) by {
        assert(Input::Decay.of(d1)(t, i) == Input::Decay.of(d2)(t, i));
    }
    assert forall|t: int, i: int| 0 <= t < tokens && 0 <= i < h.kd implies #[trigger] (d1.d_b)(t, i)
        == (d2.d_b)(t, i) by {
        assert(Input::Erase.of(d1)(t, i) == Input::Erase.of(d2)(t, i));
    }
    assert forall|t: int, i: int| 0 <= t < tokens && 0 <= i < h.vd implies #[trigger] (d1.d_w)(t, i)
        == (d2.d_w)(t, i) by {
        assert(Input::Write.of(d1)(t, i) == Input::Write.of(d2)(t, i));
    }
    assert forall|i: int, j: int| 0 <= i < h.kd && 0 <= j < h.vd implies #[trigger] s1(i, j) == s2(
        i,
        j,
    ) by {
        lemma_state_spike(h, tokens, d1, s1, i, j);
        lemma_state_spike(h, tokens, d2, s2, i, j);
        let still = Input::Query.direction(grid::zero::<F>());
        assert(weighed(h, tokens, d1, s1, still, spike(i, j)) == weighed(
            h,
            tokens,
            d2,
            s2,
            still,
            spike(i, j),
        ));
    }
}

/// Whether the gradients of head `h` of batch `a` are the same in both.
pub open spec fn same_gradients<F: Scalar>(
    r1: FusedBackwardOutput<F>,
    r2: ChunkWyGradients<F>,
    tokens: int,
    kd: int,
    vd: int,
    a: int,
    h: int,
) -> bool {
    &&& forall|t: int, i: int|
        0 <= t < tokens && 0 <= i < kd ==> #[trigger] r1.d_q.at(a, h, t, i) == r2.d_q.at(a, h, t, i)
    &&& forall|t: int, i: int|
        0 <= t < tokens && 0 <= i < kd ==> #[trigger] r1.d_k.at(a, h, t, i) == r2.d_k.at(a, h, t, i)
    &&& forall|t: int, j: int|
        0 <= t < tokens && 0 <= j < vd ==> #[trigger] r1.d_v.at(a, h, t, j) == r2.d_v.at(a, h, t, j)
    &&& forall|t: int, i: int|
        0 <= t < tokens && 0 <= i < kd ==> #[trigger] r1.d_g.at(a, h, t, i) == r2.d_g.at(a, h, t, i)
    &&& forall|t: int, i: int|
        0 <= t < tokens && 0 <= i < kd ==> #[trigger] r1.d_b.at(a, h, t, i) == r2.d_b.at(a, h, t, i)
    &&& forall|t: int, j: int|
        0 <= t < tokens && 0 <= j < vd ==> #[trigger] r1.d_w.at(a, h, t, j) == r2.d_w.at(a, h, t, j)
    &&& forall|i: int, j: int|
        0 <= i < kd && 0 <= j < vd ==> #[trigger] r1.d_s.at(a, h, i, j) == r2.d_s.at(a, h, i, j)
}

/// What both return is the same where it weighs every direction alike.
proof fn lemma_same_gradients<F: ExactScalar>(
    hd: Head<F>,
    r1: FusedBackwardOutput<F>,
    r2: ChunkWyGradients<F>,
    tokens: int,
    a: int,
    h: int,
)
    requires
        forall|dir: Head<F>, dir_s: Grid<F>| #[trigger]
            weighed(
                hd,
                tokens,
                fused_gradient::returned(r1, a, h),
                streams::state_of(r1.d_s, a, h),
                dir,
                dir_s,
            ) == weighed(
                hd,
                tokens,
                gradient::returned(r2, a, h),
                streams::state_of(r2.d_s, a, h),
                dir,
                dir_s,
            ),
    ensures
        same_gradients(r1, r2, tokens, hd.kd, hd.vd, a, h),
{
    let (d1, d2) = (fused_gradient::returned(r1, a, h), gradient::returned(r2, a, h));
    let (s1, s2) = (streams::state_of(r1.d_s, a, h), streams::state_of(r2.d_s, a, h));
    gradients_are_unique(hd, tokens, d1, s1, d2, s2);
    assert forall|t: int, i: int| 0 <= t < tokens && 0 <= i < hd.kd implies #[trigger] r1.d_q.at(
        a,
        h,
        t,
        i,
    ) == r2.d_q.at(a, h, t, i) by {
        assert((d1.d_q)(t, i) == (d2.d_q)(t, i));
    }
    assert forall|t: int, i: int| 0 <= t < tokens && 0 <= i < hd.kd implies #[trigger] r1.d_k.at(
        a,
        h,
        t,
        i,
    ) == r2.d_k.at(a, h, t, i) by {
        assert((d1.d_k)(t, i) == (d2.d_k)(t, i));
    }
    assert forall|t: int, j: int| 0 <= t < tokens && 0 <= j < hd.vd implies #[trigger] r1.d_v.at(
        a,
        h,
        t,
        j,
    ) == r2.d_v.at(a, h, t, j) by {
        assert((d1.d_v)(t, j) == (d2.d_v)(t, j));
    }
    assert forall|t: int, i: int| 0 <= t < tokens && 0 <= i < hd.kd implies #[trigger] r1.d_g.at(
        a,
        h,
        t,
        i,
    ) == r2.d_g.at(a, h, t, i) by {
        assert((d1.d_g)(t, i) == (d2.d_g)(t, i));
    }
    assert forall|t: int, i: int| 0 <= t < tokens && 0 <= i < hd.kd implies #[trigger] r1.d_b.at(
        a,
        h,
        t,
        i,
    ) == r2.d_b.at(a, h, t, i) by {
        assert((d1.d_b)(t, i) == (d2.d_b)(t, i));
    }
    assert forall|t: int, j: int| 0 <= t < tokens && 0 <= j < hd.vd implies #[trigger] r1.d_w.at(
        a,
        h,
        t,
        j,
    ) == r2.d_w.at(a, h, t, j) by {
        assert((d1.d_w)(t, j) == (d2.d_w)(t, j));
    }
    assert forall|i: int, j: int| 0 <= i < hd.kd && 0 <= j < hd.vd implies #[trigger] r1.d_s.at(
        a,
        h,
        i,
        j,
    ) == r2.d_s.at(a, h, i, j) by {
        assert(s1(i, j) == s2(i, j));
    }
}

/// In exact arithmetic `fused_chunk_backward`, run on what the forward kernels left, returns what
/// `ChunkWy::backward` returns, run on what the chunked pass over the same inputs left, wherever
/// the decays are recovered and no decay between two tiles is above 1.
pub proof fn fused_backward_is_chunked_backward<F: ExactScalar>(
    x: BackPass<F>,
    p: Pass<F>,
    y: ChunkWy<F>,
    r1: FusedBackwardOutput<F>,
    r2: ChunkWyGradients<F>,
    a: int,
    h: int,
)
    requires
        p.wf(),
        p.saved is None,
        p.x.b.d3 == p.x.kd(),
        0 <= a < p.x.batch(),
        0 <= h < p.x.heads(),
        p.head(a, h).tiles_decay(),
        x.wf(),
        fused_gradient::follows(x, p.x, p.scale, p.state),
        fused_gradient::decays_recovered(
            x,
            fused_chunk::fused_head(p.x, p.scale, p.state, x.c as int, a, h),
            a,
            h,
        ),
        r1.head_is(x, x.chain(a, h), a, h),
        y.wf(),
        gradient::follows(y, p),
        r2.rows_are(y.head(*x.d_out, a, h), a, h, 0),
        r2.state_is(y.head(*x.d_out, a, h).passed_back(-1), y.kd(), y.vd(), a, h),
    ensures
        same_gradients(r1, r2, p.x.tokens(), p.x.kd(), p.x.vd(), a, h),
{
    let hd = p.x.head(p.scale, a, h);
    let tokens = p.x.tokens();
    let (d1, d2) = (fused_gradient::returned(r1, a, h), gradient::returned(r2, a, h));
    let (s1, s2) = (streams::state_of(r1.d_s, a, h), streams::state_of(r2.d_s, a, h));
    assert forall|dir: Head<F>, dir_s: Grid<F>| #[trigger]
        weighed(hd, tokens, d1, s1, dir, dir_s) == weighed(hd, tokens, d2, s2, dir, dir_s) by {
        fused_gradient::fused_backward_is_gradient(
            x,
            p.x,
            p.scale,
            p.state,
            r1,
            a,
            h,
            dir,
            dir_s,
        );
        gradient::backward_pass_is_gradient(p, y, *x.d_out, r2, a, h, dir, dir_s);
    }
    lemma_same_gradients(hd, r1, r2, tokens, a, h);
}

/// In exact arithmetic both backward passes over what the forward kernels left return the same
/// wherever both recover the decays.
pub proof fn fused_backward_is_recorded_backward<F: ExactScalar>(
    x: BackPass<F>,
    inputs: streams::Streams<F>,
    scale: F,
    state: Tensor4<F>,
    y: ChunkWy<F>,
    r1: FusedBackwardOutput<F>,
    r2: ChunkWyGradients<F>,
    a: int,
    h: int,
)
    requires
        inputs.wf(),
        inputs.carries(state),
        inputs.b.d3 == inputs.kd(),
        0 <= a < inputs.batch(),
        0 <= h < inputs.heads(),
        x.wf(),
        fused_gradient::follows(x, inputs, scale, state),
        fused_gradient::decays_recovered(
            x,
            fused_chunk::fused_head(inputs, scale, state, x.c as int, a, h),
            a,
            h,
        ),
        r1.head_is(x, x.chain(a, h), a, h),
        y.wf(),
        y.tokens() % (y.chunk_size as int) == 0,
        scratch::follows_kernels(y, inputs, scale, state),
        forall|t: int, q: int, i: int|
            0 <= t < y.count() && 0 <= q < y.chunk_size && 0 <= i < inputs.kd()
                ==> #[trigger] scratch::recovered(
                fused_chunk::fused_head(inputs, scale, state, y.chunk_size as int, a, h).block(t),
            )(q, i) == fused_chunk::fused_head(
                inputs,
                scale,
                state,
                y.chunk_size as int,
                a,
                h,
            ).block(t).e()(q, i),
        r2.rows_are(y.head(*x.d_out, a, h), a, h, 0),
        r2.state_is(y.head(*x.d_out, a, h).passed_back(-1), y.kd(), y.vd(), a, h),
    ensures
        same_gradients(r1, r2, inputs.tokens(), inputs.kd(), inputs.vd(), a, h),
{
    let hd = inputs.head(scale, a, h);
    let tokens = inputs.tokens();
    let (d1, d2) = (fused_gradient::returned(r1, a, h), gradient::returned(r2, a, h));
    let (s1, s2) = (streams::state_of(r1.d_s, a, h), streams::state_of(r2.d_s, a, h));
    assert forall|dir: Head<F>, dir_s: Grid<F>| #[trigger]
        weighed(hd, tokens, d1, s1, dir, dir_s) == weighed(hd, tokens, d2, s2, dir, dir_s) by {
        fused_gradient::fused_backward_is_gradient(
            x,
            inputs,
            scale,
            state,
            r1,
            a,
            h,
            dir,
            dir_s,
        );
        scratch::kernel_scratch_is_gradient(
            y,
            inputs,
            scale,
            state,
            *x.d_out,
            r2,
            a,
            h,
            dir,
            dir_s,
        );
    }
    lemma_same_gradients(hd, r1, r2, tokens, a, h);
}

} // verus!
