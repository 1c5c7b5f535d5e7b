//! The recurrence, token by token.

use vstd::prelude::*;

use crate::grid;
use crate::grid::Grid;
use crate::linalg;
use crate::pairing;
use crate::recurrence;
use crate::scalar;
use crate::scalar::Scalar;
use crate::streams;
use crate::streams::Streams;
use crate::tensor::{Matrix, Tensor4};

verus! {

/// `out` and `next` are the outputs of the recurrence from `state`, and the state after it, in
/// every batch and head.
pub open spec fn recurrence_of<F: Scalar>(
    x: Streams<F>,
    scale: F,
    state: Tensor4<F>,
    out: Tensor4<F>,
    next: Tensor4<F>,
) -> bool {
    &&& out.shaped(x.batch(), x.heads(), x.tokens(), x.vd())
    &&& x.carries(next)
    &&& forall|a: int, c: int, t: int, j: int|
        0 <= a < x.batch() && 0 <= c < x.heads() && 0 <= t < x.tokens() && 0 <= j < x.vd()
            ==> #[trigger] out.at(a, c, t, j) == x.head(scale, a, c).output(
            streams::state_of(state, a, c),
            t,
            j,
        )
    &&& forall|a: int, c: int, i: int, j: int|
        0 <= a < x.batch() && 0 <= c < x.heads() && 0 <= i < x.kd() && 0 <= j < x.vd()
            ==> #[trigger] next.at(a, c, i, j) == x.head(scale, a, c).run(
            streams::state_of(state, a, c),
            0,
            x.tokens(),
        )(i, j)
}

impl<F: Scalar> Matrix<F> {
    /// The elements as a function of row and column.
    pub open spec fn func(self) -> spec_fn(int, int) -> F {
        |i: int, j: int| self.at(i, j)
    }
}

/// Decays the state by token `t`.
fn decay_state<F: Scalar>(
    x: &Streams<F>,
    bi: usize,
    hi: usize,
    t: usize,
    s: &Matrix<F>,
    Ghost(scale): Ghost<F>,
) -> (r: Matrix<F>)
    requires
        x.wf(),
        bi < x.batch(),
        hi < x.heads(),
        t < x.tokens(),
        s.shaped(x.kd(), x.vd()),
    ensures
        r.shaped(x.kd(), x.vd()),
        forall|i: int, j: int|
            0 <= i < x.kd() && 0 <= j < x.vd() ==> #[trigger] r.at(i, j) == x.head(
                scale,
                bi as int,
                hi as int,
            ).decayed(t as int, s.func(), i, j),
{
    let ghost h = x.head(scale, bi as int, hi as int);
    let mut r = s.copy();
    for i in 0..s.rows
        invariant
            x.wf(),
            h == x.head(scale, bi as int, hi as int),
            bi < x.batch(),
            hi < x.heads(),
            t < x.tokens(),
            s.shaped(x.kd(), x.vd()),
            r.shaped(x.kd(), x.vd()),
            forall|a: int, c: int|
                0 <= a < i && 0 <= c < x.vd() ==> #[trigger] r.at(a, c) == h.decayed(
                    t as int,
                    s.func(),
                    a,
                    c,
                ),
    {
        let c: usize = streams::channel(x.g, i);
        let decay = x.g.get(bi, hi, t, c).exp();
        for j in 0..s.cols
            invariant
                x.wf(),
                h == x.head(scale, bi as int, hi as int),
                s.shaped(x.kd(), x.vd()),
                r.shaped(x.kd(), x.vd()),
                i < x.kd(),
                decay == (h.g)(t as int, i as int).raised(),
                forall|a: int, c: int|
                    0 <= c < x.vd() && (0 <= a < i || (a == i && c < j)) ==> #[trigger] r.at(a, c)
                        == h.decayed(t as int, s.func(), a, c),
        {
            r.set(i, j, s.get(i, j).mul(decay));
        }
    }
    r
}

/// Token `t` of one head: decays `s`, writes the new value, and returns the output.
fn step_head<F: Scalar>(
    x: &Streams<F>,
    scale: F,
    bi: usize,
    hi: usize,
    t: usize,
    s: &mut Matrix<F>,
) -> (out: Vec<F>)
    requires
        x.wf(),
        bi < x.batch(),
        hi < x.heads(),
        t < x.tokens(),
        old(s).shaped(x.kd(), x.vd()),
    ensures
        final(s).shaped(x.kd(), x.vd()),
        forall|i: int, j: int|
            0 <= i < x.kd() && 0 <= j < x.vd() ==> #[trigger] final(s).at(i, j) == x.head(
                scale,
                bi as int,
                hi as int,
            ).stepped(t as int, old(s).func(), i, j),
        out@.len() == x.vd(),
        forall|j: int|
            0 <= j < x.vd() ==> #[trigger] out@[j] == x.head(scale, bi as int, hi as int).read(
                t as int,
                x.head(scale, bi as int, hi as int).step(t as int, old(s).func()),
                j,
            ),
{
    let ghost h = x.head(scale, bi as int, hi as int);
    let ghost s0 = s.func();
    let ghost s1 = h.step(t as int, s0);
    let kd: usize = s.rows;
    let vd: usize = s.cols;
    let d = decay_state(x, bi, hi, t, s, Ghost(scale));
    let mut out: Vec<F> = Vec::new();
    for j in 0..vd
        invariant
            x.wf(),
            h == x.head(scale, bi as int, hi as int),
            bi < x.batch(),
            hi < x.heads(),
            t < x.tokens(),
            kd == x.kd(),
            vd == x.vd(),
            d.shaped(x.kd(), x.vd()),
            s.shaped(x.kd(), x.vd()),
            s1 == h.step(t as int, s0),
            forall|i: int, c: int|
                0 <= i < x.kd() && 0 <= c < x.vd() ==> #[trigger] d.at(i, c) == h.decayed(
                    t as int,
                    s0,
                    i,
                    c,
                ),
            forall|i: int, c: int|
                0 <= i < x.kd() && 0 <= c < j ==> #[trigger] s.at(i, c) == h.stepped(
                    t as int,
                    s0,
                    i,
                    c,
                ),
            out@.len() == j,
            forall|c: int| 0 <= c < j ==> #[trigger] out@[c] == h.read(t as int, s1, c),
    {
        let ghost f = |i: int|
            h.decayed(t as int, s0, i, j as int).times(
                (h.b)(t as int, i).times((h.k)(t as int, i)),
            );
        let mut erased = F::zero();
        for i in 0..kd
            invariant
                x.wf(),
                h == x.head(scale, bi as int, hi as int),
                bi < x.batch(),
                hi < x.heads(),
                t < x.tokens(),
                kd == x.kd(),
                vd == x.vd(),
                j < vd,
                d.shaped(x.kd(), x.vd()),
                forall|i: int, c: int|
                    0 <= i < x.kd() && 0 <= c < x.vd() ==> #[trigger] d.at(i, c) == h.decayed(
                        t as int,
                        s0,
                        i,
                        c,
                    ),
                f == (|i: int|
                    h.decayed(t as int, s0, i, j as int).times(
                        (h.b)(t as int, i).times((h.k)(t as int, i)),
                    )),
                erased == scalar::total(i as int, f),
        {
            let c: usize = streams::channel(x.b, i);
            let bk = x.b.get(bi, hi, t, c).mul(x.k.get(bi, hi, t, i));
            erased = erased.add(d.get(i, j).mul(bk));
        }
        let fresh = x.w.get(bi, hi, t, j).mul(x.v.get(bi, hi, t, j)).sub(erased);
        assert(fresh == h.fresh(t as int, s0, j as int));
        let ghost seen = |i: int| s1(i, j as int).times((h.q)(t as int, i));
        let mut acc = F::zero();
        for i in 0..kd
            invariant
                x.wf(),
                h == x.head(scale, bi as int, hi as int),
                bi < x.batch(),
                hi < x.heads(),
                t < x.tokens(),
                kd == x.kd(),
                vd == x.vd(),
                j < vd,
                d.shaped(x.kd(), x.vd()),
                s.shaped(x.kd(), x.vd()),
                s1 == h.step(t as int, s0),
                fresh == h.fresh(t as int, s0, j as int),
                forall|i: int, c: int|
                    0 <= i < x.kd() && 0 <= c < x.vd() ==> #[trigger] d.at(i, c) == h.decayed(
                        t as int,
                        s0,
                        i,
                        c,
                    ),
                forall|a: int, c: int|
                    0 <= a < x.kd() && (0 <= c < j || (c == j && a < i)) ==> #[trigger] s.at(a, c)
                        == h.stepped(t as int, s0, a, c),
                seen == (|i: int| s1(i, j as int).times((h.q)(t as int, i))),
                acc == scalar::total(i as int, seen),
        {
            let updated = d.get(i, j).add(x.k.get(bi, hi, t, i).mul(fresh));
            s.set(i, j, updated);
            acc = acc.add(updated.mul(x.q.get(bi, hi, t, i)));
        }
        out.push(acc.mul(scale));
    }
    out
}

/// All tokens of one head, from the state in `state`, which becomes the state after them. The
/// outputs go to `out`.
fn scan_head<F: Scalar>(
    x: &Streams<F>,
    scale: F,
    bi: usize,
    hi: usize,
    state: &mut Tensor4<F>,
    out: &mut Tensor4<F>,
)
    requires
        x.wf(),
        bi < x.batch(),
        hi < x.heads(),
        x.carries(*old(state)),
        old(out).shaped(x.batch(), x.heads(), x.tokens(), x.vd()),
    ensures
        x.carries(*final(state)),
        final(out).shaped(x.batch(), x.heads(), x.tokens(), x.vd()),
        forall|t: int, j: int|
            0 <= t < x.tokens() && 0 <= j < x.vd() ==> #[trigger] final(out).at(
                bi as int,
                hi as int,
                t,
                j,
            ) == x.head(scale, bi as int, hi as int).output(
                streams::state_of(*old(state), bi as int, hi as int),
                t,
                j,
            ),
        forall|i: int, j: int|
            0 <= i < x.kd() && 0 <= j < x.vd() ==> #[trigger] final(state).at(
                bi as int,
                hi as int,
                i,
                j,
            ) == x.head(scale, bi as int, hi as int).run(
                streams::state_of(*old(state), bi as int, hi as int),
                0,
                x.tokens(),
            )(i, j),
        forall|a: int, c: int, t: int, j: int|
            0 <= a < x.batch() && 0 <= c < x.heads() && 0 <= t < x.tokens() && 0 <= j < x.vd()
                && !(a == bi && c == hi) ==> #[trigger] final(out).at(a, c, t, j) == old(out).at(
                a,
                c,
                t,
                j,
            ),
        forall|a: int, c: int, i: int, j: int|
            0 <= a < x.batch() && 0 <= c < x.heads() && 0 <= i < x.kd() && 0 <= j < x.vd()
                && !(a == bi && c == hi) ==> #[trigger] final(state).at(a, c, i, j) == old(
                state,
            ).at(a, c, i, j),
{
    let ghost h = x.head(scale, bi as int, hi as int);
    let ghost s0 = streams::state_of(*state, bi as int, hi as int);
    let kd: usize = x.q.d3;
    let vd: usize = x.v.d3;
    let tokens: usize = x.q.d2;
    let mut s = state.head_matrix(bi, hi);
    for t in 0..tokens
        invariant
            x.wf(),
            h == x.head(scale, bi as int, hi as int),
            bi < x.batch(),
            hi < x.heads(),
            kd == x.kd(),
            vd == x.vd(),
            tokens == x.tokens(),
            s.shaped(x.kd(), x.vd()),
            forall|i: int, j: int|
                0 <= i < x.kd() && 0 <= j < x.vd() ==> #[trigger] s.at(i, j) == h.run(
                    s0,
                    0,
                    t as int,
                )(i, j),
            out.shaped(x.batch(), x.heads(), x.tokens(), x.vd()),
            forall|u: int, j: int|
                0 <= u < t && 0 <= j < x.vd() ==> #[trigger] out.at(bi as int, hi as int, u, j)
                    == h.output(s0, u, j),
            forall|a: int, c: int, u: int, j: int|
                0 <= a < x.batch() && 0 <= c < x.heads() && 0 <= u < x.tokens() && 0 <= j < x.vd()
                    && !(a == bi && c == hi) ==> #[trigger] out.at(a, c, u, j) == old(out).at(
                    a,
                    c,
                    u,
                    j,
                ),
    {
        proof {
            recurrence::lemma_step_local(h, t as int, s.func(), h.run(s0, 0, t as int));
            recurrence::lemma_step_local(
                h,
                t as int,
                h.step(t as int, s.func()),
                h.step(t as int, h.run(s0, 0, t as int)),
            );
        }
        let ghost before = s.func();
        let row = step_head(x, scale, bi, hi, t, &mut s);
        assert forall|i: int, j: int| 0 <= i < x.kd() && 0 <= j < x.vd() implies #[trigger] s.at(
            i,
            j,
        ) == h.run(s0, 0, t + 1)(i, j) by {
            assert(h.step(t as int, before)(i, j) == h.step(t as int, h.run(s0, 0, t as int))(
                i,
                j,
            ));
        }
        for j in 0..vd
            invariant
                t < tokens,
                bi < x.batch(),
                hi < x.heads(),
                vd == x.vd(),
                tokens == x.tokens(),
                row@.len() == vd,
                forall|c: int| 0 <= c < vd ==> #[trigger] row@[c] == h.output(s0, t as int, c),
                out.shaped(x.batch(), x.heads(), x.tokens(), x.vd()),
                forall|u: int, c: int|
                    0 <= c < x.vd() && (0 <= u < t || (u == t && c < j)) ==> #[trigger] out.at(
                        bi as int,
                        hi as int,
                        u,
                        c,
                    ) == h.output(s0, u, c),
                forall|a: int, c: int, u: int, j: int|
                    0 <= a < x.batch() && 0 <= c < x.heads() && 0 <= u < x.tokens() && 0 <= j
                        < x.vd() && !(a == bi && c == hi) ==> #[trigger] out.at(a, c, u, j) == old(
                        out,
                    ).at(a, c, u, j),
        {
            out.set(bi, hi, t, j, row[j]);
        }
    }
    state.set_head(bi, hi, &s);
}

/// Fused recurrent forward: each token applies
///   `S <- S * exp(g)`, per key channel,
///   `v_new <- w * v - (b * k)^T S`,
///   `S <- S + k v_new^T`,
///   `o <- q^T S * scale`.
///
/// Returns the outputs and the state after the last token.
pub fn fused_recurrent_forward<F: Scalar>(
    q: &Tensor4<F>,
    k: &Tensor4<F>,
    v: &Tensor4<F>,
    g: &Tensor4<F>,
    b: &Tensor4<F>,
    w: &Tensor4<F>,
    state: &Tensor4<F>,
    scale: F,
) -> (r: (Tensor4<F>, Tensor4<F>))
    requires
        (Streams { q, k, v, g, b, w }).wf(),
        (Streams { q, k, v, g, b, w }).carries(*state),
    ensures
        recurrence_of((Streams { q, k, v, g, b, w }), scale, *state, r.0, r.1),
{
    let x = Streams { q, k, v, g, b, w };
    let mut s = state.copy();
    let mut out = v.zeros_like();
    for bi in 0..q.d0
        invariant
            x == (Streams { q, k, v, g, b, w }),
            x.wf(),
            x.carries(*state),
            x.carries(s),
            out.shaped(x.batch(), x.heads(), x.tokens(), x.vd()),
            forall|a: int, c: int, t: int, j: int|
                0 <= a < bi && 0 <= c < x.heads() && 0 <= t < x.tokens() && 0 <= j < x.vd()
                    ==> #[trigger] out.at(a, c, t, j) == x.head(scale, a, c).output(
                    streams::state_of(*state, a, c),
                    t,
                    j,
                ),
            forall|a: int, c: int, i: int, j: int|
                0 <= a < bi && 0 <= c < x.heads() && 0 <= i < x.kd() && 0 <= j < x.vd()
                    ==> #[trigger] s.at(a, c, i, j) == x.head(scale, a, c).run(
                    streams::state_of(*state, a, c),
                    0,
                    x.tokens(),
                )(i, j),
            forall|a: int, c: int, i: int, j: int|
                bi <= a < x.batch() && 0 <= c < x.heads() && 0 <= i < x.kd() && 0 <= j < x.vd()
                    ==> #[trigger] s.at(a, c, i, j) == state.at(a, c, i, j),
    {
        for hi in 0..q.d1
            invariant
                x == (Streams { q, k, v, g, b, w }),
                x.wf(),
                bi < x.batch(),
                x.carries(*state),
                x.carries(s),
                out.shaped(x.batch(), x.heads(), x.tokens(), x.vd()),
                forall|a: int, c: int, t: int, j: int|
                    0 <= c < x.heads() && (0 <= a < bi || (a == bi && c < hi)) && 0 <= t
                        < x.tokens() && 0 <= j < x.vd() ==> #[trigger] out.at(a, c, t, j)
                        == x.head(scale, a, c).output(streams::state_of(*state, a, c), t, j),
                forall|a: int, c: int, i: int, j: int|
                    0 <= c < x.heads() && (0 <= a < bi || (a == bi && c < hi)) && 0 <= i < x.kd()
                        && 0 <= j < x.vd() ==> #[trigger] s.at(a, c, i, j) == x.head(
                        scale,
                        a,
                        c,
                    ).run(streams::state_of(*state, a, c), 0, x.tokens())(i, j),
                forall|a: int, c: int, i: int, j: int|
                    0 <= c < x.heads() && (bi < a < x.batch() || (a == bi && hi <= c)) && 0 <= i
                        < x.kd() && 0 <= j < x.vd() ==> #[trigger] s.at(a, c, i, j) == state.at(
                        a,
                        c,
                        i,
                        j,
                    ),
        {
            let ghost mine = streams::state_of(s, bi as int, hi as int);
            let ghost theirs = streams::state_of(*state, bi as int, hi as int);
            let ghost h = x.head(scale, bi as int, hi as int);
            proof {
                assert forall|i: int, j: int|
                    0 <= i < h.kd && 0 <= j < h.vd implies #[trigger] mine(i, j) == theirs(
                    i,
                    j,
                ) by {}
                recurrence::lemma_run_local(h, mine, theirs, x.tokens());
            }
            scan_head(&x, scale, bi, hi, &mut s, &mut out);
        }
    }
    (out, s)
}

/// The state of head `h` in batch `a` before the first token: the given one, or zeros.
pub open spec fn initial_state<F: Scalar>(state: Option<Tensor4<F>>, a: int, h: int) -> Grid<F> {
    match state {
        Some(s) => streams::state_of(s, a, h),
        None => grid::zero(),
    }
}

/// Whether `s` holds the states before the first token.
pub open spec fn starts<F: Scalar>(state: Option<Tensor4<F>>, s: Tensor4<F>) -> bool {
    forall|a: int, h: int|
        0 <= a < s.d0 && 0 <= h < s.d1 ==> pairing::agree(
            s.d2 as int,
            s.d3 as int,
            #[trigger] streams::state_of(s, a, h),
            initial_state(state, a, h),
        )
}

/// `out` and `next` are the outputs of the recurrence from the states `start`, and the states after
/// it, in every batch and head.
pub open spec fn recurrence_from<F: Scalar>(
    x: Streams<F>,
    scale: F,
    state: Option<Tensor4<F>>,
    out: Tensor4<F>,
    next: Tensor4<F>,
) -> bool {
    &&& out.shaped(x.batch(), x.heads(), x.tokens(), x.vd())
    &&& x.carries(next)
    &&& forall|a: int, c: int, t: int, j: int|
        0 <= a < x.batch() && 0 <= c < x.heads() && 0 <= t < x.tokens() && 0 <= j < x.vd()
            ==> #[trigger] out.at(a, c, t, j) == x.head(scale, a, c).output(
            initial_state(state, a, c),
            t,
            j,
        )
    &&& forall|a: int, c: int, i: int, j: int|
        0 <= a < x.batch() && 0 <= c < x.heads() && 0 <= i < x.kd() && 0 <= j < x.vd()
            ==> #[trigger] next.at(a, c, i, j) == x.head(scale, a, c).run(
            initial_state(state, a, c),
            0,
            x.tokens(),
        )(i, j)
}

/// The recurrence from `s` is the recurrence from the state that it holds.
pub proof fn lemma_starts<F: Scalar>(
    x: Streams<F>,
    scale: F,
    state: Option<Tensor4<F>>,
    s: Tensor4<F>,
    out: Tensor4<F>,
    next: Tensor4<F>,
)
    requires
        x.carries(s),
        starts(state, s),
        recurrence_of(x, scale, s, out, next),
    ensures
        recurrence_from(x, scale, state, out, next),
{
    assert forall|a: int, c: int, t: int, j: int|
        0 <= a < x.batch() && 0 <= c < x.heads() && 0 <= t < x.tokens() && 0 <= j
            < x.vd() implies #[trigger] out.at(a, c, t, j) == x.head(scale, a, c).output(
        initial_state(state, a, c),
        t,
        j,
    ) by {
        let h = x.head(scale, a, c);
        let (s1, s2) = (streams::state_of(s, a, c), initial_state(state, a, c));
        assert(pairing::agree(h.kd, h.vd, s1, s2));
        recurrence::lemma_run_local(h, s1, s2, x.tokens());
        assert(h.output(s1, t, j) == h.output(s2, t, j));
    }
    assert forall|a: int, c: int, i: int, j: int|
        0 <= a < x.batch() && 0 <= c < x.heads() && 0 <= i < x.kd() && 0 <= j
            < x.vd() implies #[trigger] next.at(a, c, i, j) == x.head(scale, a, c).run(
        initial_state(state, a, c),
        0,
        x.tokens(),
    )(i, j) by {
        let h = x.head(scale, a, c);
        let (s1, s2) = (streams::state_of(s, a, c), initial_state(state, a, c));
        assert(pairing::agree(h.kd, h.vd, s1, s2));
        recurrence::lemma_run_local(h, s1, s2, x.tokens());
        assert(h.run(s1, 0, x.tokens())(i, j) == h.run(s2, 0, x.tokens())(i, j));
    }
}

/// The state before the first token: a copy of the given one, or zeros.
pub fn start_state<F: Scalar>(
    state: Option<&Tensor4<F>>,
    batch: usize,
    heads: usize,
    kd: usize,
    vd: usize,
) -> (s: Tensor4<F>)
    requires
        state matches Some(s) ==> s.shaped(batch as int, heads as int, kd as int, vd as int),
        batch * heads * kd * vd <= usize::MAX,
        batch * heads * kd <= usize::MAX,
        batch * heads <= usize::MAX,
    ensures
        s.shaped(batch as int, heads as int, kd as int, vd as int),
        starts(given(state), s),
{
    match state {
        Some(s) => s.copy(),
        None => Tensor4::zeros(batch, heads, kd, vd),
    }
}

/// The state that is given, if any.
pub open spec fn given<F: Scalar>(state: Option<&Tensor4<F>>) -> Option<Tensor4<F>> {
    match state {
        Some(s) => Some(*s),
        None => None,
    }
}

/// Whether `out` holds what the queries find in the state, `[batch, heads, tokens, v]`.
pub open spec fn peeked<F: Scalar>(
    x: Streams<F>,
    scale: F,
    state: Option<Tensor4<F>>,
    out: Tensor4<F>,
) -> bool {
    &&& out.shaped(x.batch(), x.heads(), x.tokens(), x.vd())
    &&& forall|a: int, h: int, t: int, j: int|
        0 <= a < x.batch() && 0 <= h < x.heads() && 0 <= t < x.tokens() && 0 <= j < x.vd()
            ==> #[trigger] out.at(a, h, t, j) == x.head(scale, a, h).peek(
            t,
            initial_state(state, a, h),
            j,
        )
}

/// What the queries find in the state, without a change to it.
pub(crate) fn peek_state<F: Scalar>(
    x: &Streams<F>,
    scale: F,
    s: &Tensor4<F>,
    Ghost(state): Ghost<Option<Tensor4<F>>>,
) -> (out: Tensor4<F>)
    requires
        x.wf(),
        x.carries(*s),
        starts(state, *s),
    ensures
        peeked(*x, scale, state, out),
{
    let mut out = x.v.zeros_like();
    for a in 0..x.q.d0
        invariant
            x.wf(),
            x.carries(*s),
            starts(state, *s),
            out.shaped(x.batch(), x.heads(), x.tokens(), x.vd()),
            forall|b: int, h: int, t: int, j: int|
                0 <= b < a && 0 <= h < x.heads() && 0 <= t < x.tokens() && 0 <= j < x.vd()
                    ==> #[trigger] out.at(b, h, t, j) == x.head(scale, b, h).peek(
                    t,
                    initial_state(state, b, h),
                    j,
                ),
    {
        for h in 0..x.q.d1
            invariant
                x.wf(),
                a < x.batch(),
                x.carries(*s),
                starts(state, *s),
                out.shaped(x.batch(), x.heads(), x.tokens(), x.vd()),
                forall|b: int, c: int, t: int, j: int|
                    0 <= c < x.heads() && (0 <= b < a || (b == a && c < h)) && 0 <= t < x.tokens()
                        && 0 <= j < x.vd() ==> #[trigger] out.at(b, c, t, j) == x.head(
                        scale,
                        b,
                        c,
                    ).peek(t, initial_state(state, b, c), j),
        {
            let q = x.q.head_matrix(a, h);
            let m = s.head_matrix(a, h);
            let room = x.v.head_matrix(a, h);
            assert(room.wf());
            let ghost (qf, sf) = (
                x.head(scale, a as int, h as int).q,
                initial_state(state, a as int, h as int),
            );
            assert(pairing::agree(
                x.kd(),
                x.vd(),
                streams::state_of(*s, a as int, h as int),
                sf,
            ));
            assert(m.holds(x.kd(), x.vd(), sf)) by {
                assert forall|i: int, j: int|
                    0 <= i < x.kd() && 0 <= j < x.vd() implies #[trigger] m.at(i, j) == sf(i, j) by {
                    assert(streams::state_of(*s, a as int, h as int)(i, j) == sf(i, j));
                }
            }
            let p = linalg::product_of(&q, &m, Ghost(x.kd()), Ghost(qf), Ghost(sf));
            let o = linalg::scale(&p, scale);
            out.set_head(a, h, &o);
        }
    }
    out
}

/// Token-by-token pass from an optional state.
///
/// With `update_state` the outputs are `[batch, heads, tokens, v]` and the new state is returned.
/// Without it the state is read as it is: the outputs are `[batch, tokens, heads, v]`, and the
/// state is returned unchanged.
pub fn fused_recurrent_gdn2<F: Scalar>(
    q: &Tensor4<F>,
    k: &Tensor4<F>,
    v: &Tensor4<F>,
    g: &Tensor4<F>,
    b: &Tensor4<F>,
    w: &Tensor4<F>,
    state: Option<&Tensor4<F>>,
    scale: F,
    update_state: bool,
) -> (r: (Tensor4<F>, Option<Tensor4<F>>))
    requires
        (Streams { q, k, v, g, b, w }).wf(),
        state matches Some(s) ==> (Streams { q, k, v, g, b, w }).carries(*s),
        q.d0 * q.d1 * q.d3 * v.d3 <= usize::MAX,
        q.d0 * q.d1 * q.d3 <= usize::MAX,
        q.d0 * q.d1 <= usize::MAX,
    ensures
        r.1 is Some,
        update_state ==> recurrence_from(
            (Streams { q, k, v, g, b, w }),
            scale,
            given(state),
            r.0,
            r.1->0,
        ),
        !update_state ==> {
            let x = Streams { q, k, v, g, b, w };
            &&& r.0.shaped(x.batch(), x.tokens(), x.heads(), x.vd())
            &&& forall|a: int, t: int, h: int, j: int|
                0 <= a < x.batch() && 0 <= t < x.tokens() && 0 <= h < x.heads() && 0 <= j < x.vd()
                    ==> #[trigger] r.0.at(a, t, h, j) == x.head(scale, a, h).peek(
                    t,
                    initial_state(given(state), a, h),
                    j,
                )
            &&& x.carries(r.1->0)
            &&& starts(given(state), r.1->0)
        },
{
    let x = Streams { q, k, v, g, b, w };
    let s = start_state(state, q.d0, q.d1, q.d3, v.d3);
    if update_state {
        let (out, next) = fused_recurrent_forward(q, k, v, g, b, w, &s, scale);
        proof {
            lemma_starts(x, scale, given(state), s, out, next);
        }
        (out, Some(next))
    } else {
        let p = peek_state(&x, scale, &s, Ghost(given(state)));
        let out = p.swap_middle();
        assert forall|a: int, t: int, h: int, j: int|
            0 <= a < x.batch() && 0 <= t < x.tokens() && 0 <= h < x.heads() && 0 <= j
                < x.vd() implies #[trigger] out.at(a, t, h, j) == x.head(scale, a, h).peek(
            t,
            initial_state(given(state), a, h),
            j,
        ) by {
            assert(out.row(a, t, h)[j] == p.row(a, h, t)[j]);
            assert(out.at(a, t, h, j) == p.at(a, h, t, j));
        }
        (out, Some(s))
    }
}

} // verus!
