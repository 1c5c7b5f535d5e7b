//! The recurrence over grouped heads: each query and key head serves several value heads.

use vstd::prelude::*;

use crate::heads;
use crate::kernel::fused_recurrent::fused_recurrent_forward;
use crate::recurrence;
use crate::recurrence::Head;
use crate::scalar::Scalar;
use crate::streams;
use crate::streams::Streams;
use crate::tensor::Tensor4;

verus! {

/// Inputs with `n` query and key heads, and a multiple of `n` value heads.
pub struct Grouped<'a, F> {
    /// `[batch, n, tokens, k]`, as `k`, `g` and `b`.
    pub q: &'a Tensor4<F>,
    pub k: &'a Tensor4<F>,
    pub g: &'a Tensor4<F>,
    pub b: &'a Tensor4<F>,
    /// `[batch, value heads, tokens, v]`, as `w`.
    pub v: &'a Tensor4<F>,
    pub w: &'a Tensor4<F>,
}

impl<'a, F: Scalar> Grouped<'a, F> {
    /// Value heads per key head.
    pub open spec fn repeat(self) -> int {
        self.v.d1 as int / self.q.d1 as int
    }

    /// The extents match.
    pub open spec fn wf(self) -> bool {
        let (a, n, t, kd) = (
            self.q.d0 as int,
            self.q.d1 as int,
            self.q.d2 as int,
            self.q.d3 as int,
        );
        &&& n >= 1
        &&& self.v.d1 >= n
        &&& self.v.d1 as int % n == 0
        &&& self.q.wf()
        &&& self.k.shaped(a, n, t, kd)
        &&& self.g.shaped(a, n, t, kd)
        &&& self.b.shaped(a, n, t, kd)
        &&& self.v.shaped(a, self.v.d1 as int, t, self.v.d3 as int)
        &&& self.w.shaped(a, self.v.d1 as int, t, self.v.d3 as int)
    }

    /// Value head `h` of batch `a`, with the key head that serves it.
    pub open spec fn head(self, scale: F, a: int, h: int) -> Head<F> {
        let kh = h / self.repeat();
        Head {
            kd: self.q.d3 as int,
            vd: self.v.d3 as int,
            q: |t: int, i: int| self.q.at(a, kh, t, i),
            k: |t: int, i: int| self.k.at(a, kh, t, i),
            v: |t: int, j: int| self.v.at(a, h, t, j),
            g: |t: int, i: int| self.g.at(a, kh, t, i),
            b: |t: int, i: int| self.b.at(a, kh, t, i),
            w: |t: int, j: int| self.w.at(a, h, t, j),
            scale,
        }
    }
}

/// The recurrence token by token over grouped heads. Returns the outputs and the states after the
/// last token.
pub fn run_fused_recurrent<F: Scalar>(x: &Grouped<F>, state: &Tensor4<F>, scale: F) -> (r: (
    Tensor4<F>,
    Tensor4<F>,
))
    requires
        x.wf(),
        state.shaped(x.q.d0 as int, x.v.d1 as int, x.q.d3 as int, x.v.d3 as int),
        x.q.d0 * x.v.d1 * x.q.d2 * x.q.d3 <= usize::MAX,
        x.q.d0 * x.v.d1 * x.q.d2 <= usize::MAX,
        x.q.d0 * x.v.d1 <= usize::MAX,
    ensures
        r.0.shaped(x.q.d0 as int, x.v.d1 as int, x.q.d2 as int, x.v.d3 as int),
        r.1.shaped(x.q.d0 as int, x.v.d1 as int, x.q.d3 as int, x.v.d3 as int),
        forall|a: int, h: int, t: int, j: int|
            0 <= a < x.q.d0 && 0 <= h < x.v.d1 && 0 <= t < x.q.d2 && 0 <= j < x.v.d3
                ==> #[trigger] r.0.at(a, h, t, j) == x.head(scale, a, h).output(
                streams::state_of(*state, a, h),
                t,
                j,
            ),
        forall|a: int, h: int, i: int, j: int|
            0 <= a < x.q.d0 && 0 <= h < x.v.d1 && 0 <= i < x.q.d3 && 0 <= j < x.v.d3
                ==> #[trigger] r.1.at(a, h, i, j) == x.head(scale, a, h).run(
                streams::state_of(*state, a, h),
                0,
                x.q.d2 as int,
            )(i, j),
{
    let rep: usize = x.v.d1 / x.q.d1;
    proof {
        let (n, hv, rp) = (x.q.d1 as int, x.v.d1 as int, rep as int);
        assert(n * rp == hv && rp >= 1) by (nonlinear_arith)
            requires
                n >= 1,
                hv >= n,
                hv % n == 0,
                rp == hv / n,
        ;
    }
    let (q, k) = (x.q.repeat_heads(rep), x.k.repeat_heads(rep));
    let (g, b) = (x.g.repeat_heads(rep), x.b.repeat_heads(rep));
    let (out, next) = fused_recurrent_forward(&q, &k, x.v, &g, &b, x.w, state, scale);
    proof {
        let y = Streams { q: &q, k: &k, v: x.v, g: &g, b: &b, w: x.w };
        let n = x.q.d2 as int;
        assert forall|a: int, h: int, t: int|
            0 <= a < x.q.d0 && 0 <= h < x.v.d1 && 0 <= t < n implies #[trigger] y.head(
            scale,
            a,
            h,
        ).same_token(t, x.head(scale, a, h), t) by {
            heads::lemma_group(x.q.d1 as int, rep as int, h);
            let kh = h / (rep as int);
            let (h1, h2) = (y.head(scale, a, h), x.head(scale, a, h));
            assert(q.row(a, h, t) == x.q.row(a, kh, t));
            assert(k.row(a, h, t) == x.k.row(a, kh, t));
            assert(g.row(a, h, t) == x.g.row(a, kh, t));
            assert(b.row(a, h, t) == x.b.row(a, kh, t));
            assert forall|i: int| 0 <= i < h1.kd implies #[trigger] (h1.q)(t, i) == (h2.q)(t, i) by {
                assert(q.row(a, h, t)[i] == x.q.row(a, kh, t)[i]);
            }
            assert forall|i: int| 0 <= i < h1.kd implies #[trigger] (h1.k)(t, i) == (h2.k)(t, i) by {
                assert(k.row(a, h, t)[i] == x.k.row(a, kh, t)[i]);
            }
            assert forall|i: int| 0 <= i < h1.kd implies #[trigger] (h1.g)(t, i) == (h2.g)(t, i) by {
                assert(g.row(a, h, t)[i] == x.g.row(a, kh, t)[i]);
            }
            assert forall|i: int| 0 <= i < h1.kd implies #[trigger] (h1.b)(t, i) == (h2.b)(t, i) by {
                assert(b.row(a, h, t)[i] == x.b.row(a, kh, t)[i]);
            }
        }
        assert forall|a: int, h: int, t: int, j: int|
            0 <= a < x.q.d0 && 0 <= h < x.v.d1 && 0 <= t < n && 0 <= j
                < x.v.d3 implies #[trigger] out.at(a, h, t, j) == x.head(scale, a, h).output(
            streams::state_of(*state, a, h),
            t,
            j,
        ) by {
            lemma_group_head(*x, y, scale, *state, a, h);
            assert(y.head(scale, a, h).output(streams::state_of(*state, a, h), t, j) == x.head(
                scale,
                a,
                h,
            ).output(streams::state_of(*state, a, h), t, j));
        }
        assert forall|a: int, h: int, i: int, j: int|
            0 <= a < x.q.d0 && 0 <= h < x.v.d1 && 0 <= i < x.q.d3 && 0 <= j
                < x.v.d3 implies #[trigger] next.at(a, h, i, j) == x.head(scale, a, h).run(
            streams::state_of(*state, a, h),
            0,
            n,
        )(i, j) by {
            lemma_group_head(*x, y, scale, *state, a, h);
            assert(y.head(scale, a, h).run(streams::state_of(*state, a, h), 0, n)(i, j) == x.head(
                scale,
                a,
                h,
            ).run(streams::state_of(*state, a, h), 0, n)(i, j));
        }
    }
    (out, next)
}

/// A head of the repeated inputs runs as its value head does.
proof fn lemma_group_head<F: Scalar>(
    x: Grouped<F>,
    y: Streams<F>,
    scale: F,
    state: Tensor4<F>,
    a: int,
    h: int,
)
    requires
        y.kd() == x.q.d3,
        y.vd() == x.v.d3,
        forall|t: int|
            0 <= t < x.q.d2 ==> #[trigger] y.head(scale, a, h).same_token(
                t,
                x.head(scale, a, h),
                t,
            ),
    ensures
        forall|t: int, j: int|
            0 <= t < x.q.d2 && 0 <= j < x.v.d3 ==> #[trigger] y.head(scale, a, h).output(
                streams::state_of(state, a, h),
                t,
                j,
            ) == x.head(scale, a, h).output(streams::state_of(state, a, h), t, j),
        forall|i: int, j: int|
            0 <= i < x.q.d3 && 0 <= j < x.v.d3 ==> #[trigger] y.head(scale, a, h).run(
                streams::state_of(state, a, h),
                0,
                x.q.d2 as int,
            )(i, j) == x.head(scale, a, h).run(streams::state_of(state, a, h), 0, x.q.d2 as int)(
                i,
                j,
            ),
{
    let n = x.q.d2 as int;
    let h1 = y.head(scale, a, h);
    let h2 = x.head(scale, a, h);
    let s = streams::state_of(state, a, h);
    assert forall|t: int| 0 <= t < n implies #[trigger] h1.same_token(t, h2, 0 + t) by {
        assert(h1.same_token(t, h2, t));
    }
    recurrence::lemma_run_same(h1, s, h2, s, 0, n);
    assert forall|t: int, j: int| 0 <= t < n && 0 <= j < h1.vd implies #[trigger] h1.output(s, t, j)
        == h2.output(s, t, j) by {
        assert(h1.output(s, t, j) == h2.output(s, 0 + t, j));
    }
    assert forall|i: int, j: int| 0 <= i < h1.kd && 0 <= j < h1.vd implies #[trigger] h1.run(
        s,
        0,
        n,
    )(i, j) == h2.run(s, 0, n)(i, j) by {
        assert(h1.run(s, 0, n)(i, j) == h2.run(s, 0, 0 + n)(i, j));
    }
}

} // verus!
