//! One decoding step by a kernel: one cube per batch and head, one lane per value channel.

use vstd::prelude::*;

use crate::algebra;
use crate::grid::Grid;
use crate::index;
use crate::kernel::chunk_cube;
use crate::kernel::fused_recurrent;
use crate::recurrence::Head;
use crate::scalar;
use crate::scalar::{ExactScalar, Scalar};
use crate::streams;
use crate::streams::Streams;
use crate::tensor::{Tensor3, Tensor4};

verus! {

/// Most key or value channels of the kernel.
pub const MAX_STEP_CHANNELS: usize = 1024;

/// Most heads over all batches of the kernel.
pub const MAX_STEP_HEADS: usize = 65535;

/// The number of elements from one index of dimension `i` to the next, where the data are laid out
/// without gaps.
pub open spec fn dense_stride(shape: Seq<usize>, i: int) -> int
    decreases shape.len() - i,
{
    if i + 1 >= shape.len() {
        1
    } else {
        dense_stride(shape, i + 1) * shape[i + 1]
    }
}

/// Whether these strides lay the data out without gaps. A dimension of extent 1 may have any
/// stride, so that permuted views of a single token qualify.
pub open spec fn dense(shape: Seq<usize>, strides: Seq<usize>) -> bool {
    forall|i: int|
        0 <= i < shape.len() && shape[i] > 1 ==> #[trigger] strides[i] == dense_stride(shape, i)
}

/// Whether a view is laid out without gaps, and can be handed to a kernel as it is.
pub fn is_dense(shape: &Vec<usize>, strides: &Vec<usize>) -> (r: bool)
    requires
        strides@.len() == shape@.len(),
        forall|i: int|
            0 <= i < shape@.len() ==> #[trigger] dense_stride(shape@, i) * shape@[i] <= usize::MAX,
    ensures
        r == dense(shape@, strides@),
{
    let n: usize = shape.len();
    let mut expected: usize = 1;
    let mut i: usize = n;
    while i > 0
        invariant
            n == shape@.len(),
            strides@.len() == n,
            i <= n,
            forall|l: int|
                0 <= l < n ==> #[trigger] dense_stride(shape@, l) * shape@[l] <= usize::MAX,
            i > 0 ==> expected == dense_stride(shape@, i - 1),
            forall|l: int|
                i <= l < n && shape@[l] > 1 ==> #[trigger] strides@[l] == dense_stride(shape@, l),
        decreases i,
    {
        i = i - 1;
        if shape[i] > 1 && strides[i] != expected {
            return false;
        }
        assert(dense_stride(shape@, i as int) * shape@[i as int] <= usize::MAX);
        expected = expected * shape[i];
    }
    true
}

/// What the kernel reads out of the decayed state at the gated key of token 0.
pub open spec fn step_erased<F: Scalar>(h: Head<F>, s: Grid<F>, j: int) -> F {
    scalar::total(
        h.kd,
        |i: int| s(i, j).times((h.g)(0, i).raised()).times((h.b)(0, i)).times((h.k)(0, i)),
    )
}

/// The value that the kernel writes.
pub open spec fn step_fresh<F: Scalar>(h: Head<F>, s: Grid<F>, j: int) -> F {
    (h.w)(0, j).times((h.v)(0, j)).minus(step_erased(h, s, j))
}

/// The state after the kernel.
pub open spec fn step_state<F: Scalar>(h: Head<F>, s: Grid<F>) -> Grid<F> {
    |i: int, j: int|
        s(i, j).times((h.g)(0, i).raised()).plus((h.k)(0, i).times(step_fresh(h, s, j)))
}

/// The output of the kernel.
pub open spec fn step_output<F: Scalar>(h: Head<F>, s: Grid<F>, j: int) -> F {
    scalar::total(h.kd, |i: int| step_state(h, s)(i, j).times((h.q)(0, i))).times(h.scale)
}

/// In exact arithmetic the kernel computes one step of the recurrence.
pub proof fn step_is_recurrence<F: ExactScalar>(h: Head<F>, s: Grid<F>)
    ensures
        forall|i: int, j: int| #[trigger] step_state(h, s)(i, j) == h.run(s, 0, 1)(i, j),
        forall|j: int| #[trigger] step_output(h, s, j) == h.output(s, 0, j),
{
    reveal_with_fuel(Head::run, 2);
    assert forall|j: int| true implies #[trigger] step_fresh(h, s, j) == h.fresh(0, s, j) by {
        let f = |i: int|
            s(i, j).times((h.g)(0, i).raised()).times((h.b)(0, i)).times((h.k)(0, i));
        let f2 = |i: int| h.decayed(0, s, i, j).times((h.b)(0, i).times((h.k)(0, i)));
        assert forall|i: int| 0 <= i < h.kd implies #[trigger] f(i) == f2(i) by {
            F::times_associates(h.decayed(0, s, i, j), (h.b)(0, i), (h.k)(0, i));
        }
        algebra::lemma_total_eq(h.kd, f, f2);
    }
    assert forall|i: int, j: int| true implies #[trigger] step_state(h, s)(i, j) == h.run(s, 0, 1)(
        i,
        j,
    ) by {
        assert(step_fresh(h, s, j) == h.fresh(0, s, j));
    }
    assert forall|j: int| true implies #[trigger] step_output(h, s, j) == h.output(s, 0, j) by {
        let f = |i: int| step_state(h, s)(i, j).times((h.q)(0, i));
        let f2 = |i: int| h.run(s, 0, 1)(i, j).times((h.q)(0, i));
        algebra::lemma_total_eq(h.kd, f, f2);
    }
}

/// The inputs of the step kernel, one block per batch and head.
pub struct StepIn<'a, F> {
    /// `[heads, 1, k]`, as `k`, `g` and `b`.
    pub q: &'a Tensor3<F>,
    pub k: &'a Tensor3<F>,
    pub g: &'a Tensor3<F>,
    pub b: &'a Tensor3<F>,
    /// `[heads, 1, v]`, as `w`.
    pub v: &'a Tensor3<F>,
    pub w: &'a Tensor3<F>,
}

impl<'a, F: Scalar> StepIn<'a, F> {
    pub open spec fn wf(self) -> bool {
        let (n, kd, vd) = (self.q.d0 as int, self.q.d2 as int, self.v.d2 as int);
        &&& self.q.shaped(n, 1, kd)
        &&& self.k.shaped(n, 1, kd)
        &&& self.g.shaped(n, 1, kd)
        &&& self.b.shaped(n, 1, kd)
        &&& self.v.shaped(n, 1, vd)
        &&& self.w.shaped(n, 1, vd)
    }

    /// Block `n`, as a head of one token.
    pub open spec fn head(self, scale: F, n: int) -> Head<F> {
        Head {
            kd: self.q.d2 as int,
            vd: self.v.d2 as int,
            q: chunk_cube::block(*self.q, n),
            k: chunk_cube::block(*self.k, n),
            v: chunk_cube::block(*self.v, n),
            g: chunk_cube::block(*self.g, n),
            b: chunk_cube::block(*self.b, n),
            w: chunk_cube::block(*self.w, n),
            scale,
        }
    }
}

/// Lane `j` of cube `n`: one column of the state, in two passes over the key channels.
fn step_lane<F: Scalar>(
    x: &StepIn<F>,
    state_in: &Tensor3<F>,
    state_out: &mut Tensor3<F>,
    scale: F,
    n: usize,
    j: usize,
) -> (o: F)
    requires
        x.wf(),
        n < x.q.d0,
        j < x.v.d2,
        state_in.shaped(x.q.d0 as int, x.q.d2 as int, x.v.d2 as int),
        old(state_out).shaped(x.q.d0 as int, x.q.d2 as int, x.v.d2 as int),
    ensures
        final(state_out).shaped(x.q.d0 as int, x.q.d2 as int, x.v.d2 as int),
        o == step_output(
            x.head(scale, n as int),
            chunk_cube::block(*state_in, n as int),
            j as int,
        ),
        forall|m: int, i: int, l: int|
            0 <= m < x.q.d0 && 0 <= i < x.q.d2 && 0 <= l < x.v.d2
                ==> #[trigger] final(state_out).at(m, i, l) == (if m == n && l == j {
                step_state(x.head(scale, n as int), chunk_cube::block(*state_in, n as int))(i, l)
            } else {
                old(state_out).at(m, i, l)
            }),
{
    let ghost h = x.head(scale, n as int);
    let ghost s = chunk_cube::block(*state_in, n as int);
    let kd: usize = x.q.d2;
    let ghost f = |i: int|
        s(i, j as int).times((h.g)(0, i).raised()).times((h.b)(0, i)).times((h.k)(0, i));
    let mut erased = F::zero();
    for i in 0..kd
        invariant
            x.wf(),
            n < x.q.d0,
            j < x.v.d2,
            kd == x.q.d2,
            state_in.shaped(x.q.d0 as int, x.q.d2 as int, x.v.d2 as int),
            h == x.head(scale, n as int),
            s == chunk_cube::block(*state_in, n as int),
            f == (|i: int|
                s(i, j as int).times((h.g)(0, i).raised()).times((h.b)(0, i)).times((h.k)(0, i))),
            erased == scalar::total(i as int, f),
    {
        let decay = x.g.get(n, 0, i).exp();
        let d = state_in.get(n, i, j).mul(decay);
        erased = erased.add(d.mul(x.b.get(n, 0, i)).mul(x.k.get(n, 0, i)));
    }
    proof {
        algebra::lemma_total_eq(
            h.kd,
            f,
            |i: int|
                s(i, j as int).times((h.g)(0, i).raised()).times((h.b)(0, i)).times((h.k)(0, i)),
        );
    }
    let fresh = x.w.get(n, 0, j).mul(x.v.get(n, 0, j)).sub(erased);
    let ghost before = *state_out;
    let ghost r = |i: int| step_state(h, s)(i, j as int).times((h.q)(0, i));
    let mut acc = F::zero();
    for i in 0..kd
        invariant
            x.wf(),
            n < x.q.d0,
            j < x.v.d2,
            kd == x.q.d2,
            state_in.shaped(x.q.d0 as int, x.q.d2 as int, x.v.d2 as int),
            state_out.shaped(x.q.d0 as int, x.q.d2 as int, x.v.d2 as int),
            h == x.head(scale, n as int),
            s == chunk_cube::block(*state_in, n as int),
            fresh == step_fresh(h, s, j as int),
            r == (|i: int| step_state(h, s)(i, j as int).times((h.q)(0, i))),
            acc == scalar::total(i as int, r),
            forall|m: int, c: int, l: int|
                0 <= m < x.q.d0 && 0 <= c < x.q.d2 && 0 <= l < x.v.d2
                    ==> #[trigger] state_out.at(m, c, l) == (if m == n && l == j && c < i {
                    step_state(h, s)(c, l)
                } else {
                    before.at(m, c, l)
                }),
    {
        let decay = x.g.get(n, 0, i).exp();
        let y = state_in.get(n, i, j).mul(decay).add(x.k.get(n, 0, i).mul(fresh));
        state_out.set(n, i, j, y);
        acc = acc.add(y.mul(x.q.get(n, 0, i)));
    }
    proof {
        algebra::lemma_total_eq(
            h.kd,
            r,
            |i: int| step_state(h, s)(i, j as int).times((h.q)(0, i)),
        );
    }
    acc.mul(scale)
}

/// The step kernel: reads the states in `state_in`, and fills `state_out` and `out`.
pub fn gdn2_step_kernel<F: Scalar>(
    x: &StepIn<F>,
    state_in: &Tensor3<F>,
    state_out: &mut Tensor3<F>,
    out: &mut Tensor3<F>,
    scale: F,
)
    requires
        x.wf(),
        state_in.shaped(x.q.d0 as int, x.q.d2 as int, x.v.d2 as int),
        old(state_out).shaped(x.q.d0 as int, x.q.d2 as int, x.v.d2 as int),
        old(out).shaped(x.q.d0 as int, 1, x.v.d2 as int),
    ensures
        final(state_out).shaped(x.q.d0 as int, x.q.d2 as int, x.v.d2 as int),
        final(out).shaped(x.q.d0 as int, 1, x.v.d2 as int),
        forall|n: int, i: int, j: int|
            0 <= n < x.q.d0 && 0 <= i < x.q.d2 && 0 <= j < x.v.d2
                ==> #[trigger] final(state_out).at(n, i, j) == step_state(
                x.head(scale, n),
                chunk_cube::block(*state_in, n),
            )(i, j),
        forall|n: int, j: int|
            0 <= n < x.q.d0 && 0 <= j < x.v.d2 ==> #[trigger] final(out).at(n, 0, j) == step_output(
                x.head(scale, n),
                chunk_cube::block(*state_in, n),
                j,
            ),
{
    let heads: usize = x.q.d0;
    let vd: usize = x.v.d2;
    for n in 0..heads
        invariant
            x.wf(),
            heads == x.q.d0,
            vd == x.v.d2,
            state_in.shaped(x.q.d0 as int, x.q.d2 as int, x.v.d2 as int),
            state_out.shaped(x.q.d0 as int, x.q.d2 as int, x.v.d2 as int),
            out.shaped(x.q.d0 as int, 1, x.v.d2 as int),
            forall|m: int, i: int, l: int|
                0 <= m < n && 0 <= i < x.q.d2 && 0 <= l < vd ==> #[trigger] state_out.at(m, i, l)
                    == step_state(x.head(scale, m), chunk_cube::block(*state_in, m))(i, l),
            forall|m: int, l: int|
                0 <= m < n && 0 <= l < vd ==> #[trigger] out.at(m, 0, l) == step_output(
                    x.head(scale, m),
                    chunk_cube::block(*state_in, m),
                    l,
                ),
    {
        for j in 0..vd
            invariant
                x.wf(),
                heads == x.q.d0,
                vd == x.v.d2,
                n < heads,
                state_in.shaped(x.q.d0 as int, x.q.d2 as int, x.v.d2 as int),
                state_out.shaped(x.q.d0 as int, x.q.d2 as int, x.v.d2 as int),
                out.shaped(x.q.d0 as int, 1, x.v.d2 as int),
                forall|m: int, i: int, l: int|
                    0 <= i < x.q.d2 && 0 <= l < vd && (0 <= m < n || (m == n && l < j))
                        ==> #[trigger] state_out.at(m, i, l) == step_state(
                        x.head(scale, m),
                        chunk_cube::block(*state_in, m),
                    )(i, l),
                forall|m: int, l: int|
                    0 <= l < vd && (0 <= m < n || (m == n && l < j)) ==> #[trigger] out.at(m, 0, l)
                        == step_output(x.head(scale, m), chunk_cube::block(*state_in, m), l),
        {
            let o = step_lane(x, state_in, state_out, scale, n, j);
            out.set(n, 0, j, o);
        }
    }
}

/// Whether the step kernel takes these extents.
pub open spec fn steppable(heads: int, kd: int, vd: int) -> bool {
    kd <= MAX_STEP_CHANNELS && vd <= MAX_STEP_CHANNELS && heads <= MAX_STEP_HEADS
}

/// Whether `out` and `next` are what the step kernel computes in every batch and head.
pub open spec fn stepped<F: Scalar>(
    x: Streams<F>,
    scale: F,
    state: Tensor4<F>,
    out: Tensor4<F>,
    next: Tensor4<F>,
) -> bool {
    &&& out.shaped(x.batch(), x.heads(), 1, x.vd())
    &&& x.carries(next)
    &&& forall|a: int, h: int, j: int|
        0 <= a < x.batch() && 0 <= h < x.heads() && 0 <= j < x.vd() ==> #[trigger] out.at(a, h, 0, j)
            == step_output(x.head(scale, a, h), streams::state_of(state, a, h), j)
    &&& forall|a: int, h: int, i: int, j: int|
        0 <= a < x.batch() && 0 <= h < x.heads() && 0 <= i < x.kd() && 0 <= j < x.vd()
            ==> #[trigger] next.at(a, h, i, j) == step_state(
            x.head(scale, a, h),
            streams::state_of(state, a, h),
        )(i, j)
}

/// One decoding step by the kernel. Returns `None` where the extents exceed its limits: the caller
/// then falls back to the tensor form.
pub fn fused_step<F: Scalar>(
    q: &Tensor4<F>,
    k: &Tensor4<F>,
    v: &Tensor4<F>,
    g: &Tensor4<F>,
    b: &Tensor4<F>,
    w: &Tensor4<F>,
    state: &Tensor4<F>,
    scale: F,
) -> (r: Option<(Tensor4<F>, Tensor4<F>)>)
    requires
        (Streams { q, k, v, g, b, w }).wf(),
        (Streams { q, k, v, g, b, w }).carries(*state),
        q.d2 == 1,
        g.d3 == q.d3,
        b.d3 == q.d3,
        q.d0 * q.d1 <= usize::MAX,
    ensures
        r.is_some() == steppable(q.d0 * q.d1, q.d3 as int, v.d3 as int),
        r matches Some(o) ==> stepped((Streams { q, k, v, g, b, w }), scale, *state, o.0, o.1),
{
    let ghost x = Streams { q, k, v, g, b, w };
    let heads: usize = q.d0 * q.d1;
    if q.d3 > MAX_STEP_CHANNELS || v.d3 > MAX_STEP_CHANNELS || heads > MAX_STEP_HEADS {
        return None;
    }
    assert(heads * 1 == heads);
    let (q3, k3, g3, b3) = (
        q.to_blocks(1, 1),
        k.to_blocks(1, 1),
        g.to_blocks(1, 1),
        b.to_blocks(1, 1),
    );
    let (v3, w3) = (v.to_blocks(1, 1), w.to_blocks(1, 1));
    let s3 = state.to_blocks(1, q.d3);
    let y = StepIn { q: &q3, k: &k3, g: &g3, b: &b3, v: &v3, w: &w3 };
    let mut out3 = v3.copy();
    let mut next3 = s3.copy();
    gdn2_step_kernel(&y, &s3, &mut next3, &mut out3, scale);
    let out = Tensor4::from_blocks(&out3, q.d0, q.d1, 1);
    let next = Tensor4::from_blocks(&next3, q.d0, q.d1, 1);
    proof {
        assert forall|a: int, h: int, j: int|
            0 <= a < x.batch() && 0 <= h < x.heads() && 0 <= j < x.vd() implies #[trigger] out.at(
            a,
            h,
            0,
            j,
        ) == step_output(x.head(scale, a, h), streams::state_of(*state, a, h), j) by {
            let n = index::flat2(x.heads(), a, h);
            index::lemma_flat2_bound(x.batch(), x.heads(), a, h);
            assert(out3.at(index::flat2(1, n, 0), 0, j) == out.at(a, h, 0, j));
            lemma_step_block(x, y, s3, scale, *state, a, h);
        }
        assert forall|a: int, h: int, i: int, j: int|
            0 <= a < x.batch() && 0 <= h < x.heads() && 0 <= i < x.kd() && 0 <= j
                < x.vd() implies #[trigger] next.at(a, h, i, j) == step_state(
            x.head(scale, a, h),
            streams::state_of(*state, a, h),
        )(i, j) by {
            let n = index::flat2(x.heads(), a, h);
            index::lemma_flat2_bound(x.batch(), x.heads(), a, h);
            assert(next3.at(index::flat2(1, n, 0), i, j) == next.at(a, h, i, j));
            lemma_step_block(x, y, s3, scale, *state, a, h);
        }
    }
    Some((out, next))
}

/// The block of head `h` in batch `a` is that head.
proof fn lemma_step_block<F: Scalar>(
    x: Streams<F>,
    y: StepIn<F>,
    s3: Tensor3<F>,
    scale: F,
    state: Tensor4<F>,
    a: int,
    h: int,
)
    requires
        x.wf(),
        x.tokens() == 1,
        x.g.d3 == x.kd(),
        x.b.d3 == x.kd(),
        y.q.d2 == x.kd(),
        y.v.d2 == x.vd(),
        0 <= a < x.batch(),
        0 <= h < x.heads(),
        one_block(*y.q, *x.q, 1, a, h),
        one_block(*y.k, *x.k, 1, a, h),
        one_block(*y.g, *x.g, 1, a, h),
        one_block(*y.b, *x.b, 1, a, h),
        one_block(*y.v, *x.v, 1, a, h),
        one_block(*y.w, *x.w, 1, a, h),
        x.carries(state),
        one_block(s3, state, x.kd(), a, h),
    ensures
        ({
            let n = index::flat2(x.heads(), a, h);
            let h1 = y.head(scale, n);
            let h2 = x.head(scale, a, h);
            let s1 = chunk_cube::block(s3, n);
            let s2 = streams::state_of(state, a, h);
            &&& forall|j: int|
                0 <= j < x.vd() ==> #[trigger] step_output(h1, s1, j) == step_output(h2, s2, j)
            &&& forall|i: int, j: int|
                0 <= i < x.kd() && 0 <= j < x.vd() ==> #[trigger] step_state(h1, s1)(i, j)
                    == step_state(h2, s2)(i, j)
        }),
{
    let n = index::flat2(x.heads(), a, h);
    let (h1, h2) = (y.head(scale, n), x.head(scale, a, h));
    let (s1, s2) = (chunk_cube::block(s3, n), streams::state_of(state, a, h));
    assert(index::flat2(1, n, 0) == n);
    assert forall|i: int| 0 <= i < x.kd() implies (h1.q)(0, i) == (h2.q)(0, i) && (h1.k)(0, i)
        == (h2.k)(0, i) && (h1.g)(0, i) == (h2.g)(0, i) && #[trigger] (h1.b)(0, i) == (h2.b)(
        0,
        i,
    ) by {
        assert(y.q.at(index::flat2(1, n, 0), 0, i) == x.q.at(a, h, 0, i));
        assert(y.k.at(index::flat2(1, n, 0), 0, i) == x.k.at(a, h, 0, i));
        assert(y.g.at(index::flat2(1, n, 0), 0, i) == x.g.at(a, h, 0, i));
        assert(y.b.at(index::flat2(1, n, 0), 0, i) == x.b.at(a, h, 0, i));
    }
    assert forall|i: int, j: int| 0 <= i < x.kd() && 0 <= j < x.vd() implies #[trigger] s1(i, j)
        == s2(i, j) by {
        assert(s3.at(index::flat2(1, n, 0), i, j) == state.at(a, h, i, j));
    }
    assert forall|j: int| 0 <= j < x.vd() implies #[trigger] step_fresh(h1, s1, j) == step_fresh(
        h2,
        s2,
        j,
    ) by {
        assert(y.v.at(index::flat2(1, n, 0), 0, j) == x.v.at(a, h, 0, j));
        assert(y.w.at(index::flat2(1, n, 0), 0, j) == x.w.at(a, h, 0, j));
        let f = |i: int|
            s1(i, j).times((h1.g)(0, i).raised()).times((h1.b)(0, i)).times((h1.k)(0, i));
        let f2 = |i: int|
            s2(i, j).times((h2.g)(0, i).raised()).times((h2.b)(0, i)).times((h2.k)(0, i));
        assert forall|i: int| 0 <= i < x.kd() implies #[trigger] f(i) == f2(i) by {
            assert((h1.b)(0, i) == (h2.b)(0, i));
            assert(s1(i, j) == s2(i, j));
        }
        algebra::lemma_total_eq(h1.kd, f, f2);
    }
    assert forall|i: int, j: int| 0 <= i < x.kd() && 0 <= j < x.vd() implies #[trigger] step_state(
        h1,
        s1,
    )(i, j) == step_state(h2, s2)(i, j) by {
        assert((h1.b)(0, i) == (h2.b)(0, i));
        assert(s1(i, j) == s2(i, j));
        assert(step_fresh(h1, s1, j) == step_fresh(h2, s2, j));
    }
    assert forall|j: int| 0 <= j < x.vd() implies #[trigger] step_output(h1, s1, j) == step_output(
        h2,
        s2,
        j,
    ) by {
        let f = |i: int| step_state(h1, s1)(i, j).times((h1.q)(0, i));
        let f2 = |i: int| step_state(h2, s2)(i, j).times((h2.q)(0, i));
        assert forall|i: int| 0 <= i < x.kd() implies #[trigger] f(i) == f2(i) by {
            assert((h1.b)(0, i) == (h2.b)(0, i));
            assert(step_state(h1, s1)(i, j) == step_state(h2, s2)(i, j));
        }
        algebra::lemma_total_eq(h1.kd, f, f2);
    }
}

/// Whether the block of head `h` in batch `a` holds its `c` rows.
spec fn one_block<F: Scalar>(x: Tensor3<F>, y: Tensor4<F>, c: int, a: int, h: int) -> bool {
    forall|r: int, i: int|
        0 <= r < c && 0 <= i < y.d3 ==> #[trigger] x.at(
            index::flat2(1, index::flat2(y.d1 as int, a, h), 0),
            r,
            i,
        ) == y.at(a, h, r, i)
}

/// In exact arithmetic a step by the kernel is the recurrence on its token.
pub proof fn fused_step_is_recurrence<F: ExactScalar>(
    x: Streams<F>,
    scale: F,
    state: Tensor4<F>,
    out: Tensor4<F>,
    next: Tensor4<F>,
)
    requires
        x.tokens() == 1,
        stepped(x, scale, state, out, next),
    ensures
        fused_recurrent::recurrence_of(x, scale, state, out, next),
{
    assert forall|a: int, h: int, t: int, j: int|
        0 <= a < x.batch() && 0 <= h < x.heads() && 0 <= t < x.tokens() && 0 <= j
            < x.vd() implies #[trigger] out.at(a, h, t, j) == x.head(scale, a, h).output(
        streams::state_of(state, a, h),
        t,
        j,
    ) by {
        step_is_recurrence(x.head(scale, a, h), streams::state_of(state, a, h));
        assert(out.at(a, h, 0, j) == step_output(
            x.head(scale, a, h),
            streams::state_of(state, a, h),
            j,
        ));
    }
    assert forall|a: int, h: int, i: int, j: int|
        0 <= a < x.batch() && 0 <= h < x.heads() && 0 <= i < x.kd() && 0 <= j
            < x.vd() implies #[trigger] next.at(a, h, i, j) == x.head(scale, a, h).run(
        streams::state_of(state, a, h),
        0,
        x.tokens(),
    )(i, j) by {
        step_is_recurrence(x.head(scale, a, h), streams::state_of(state, a, h));
    }
}

} // verus!
