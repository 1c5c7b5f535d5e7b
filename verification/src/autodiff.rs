//! The backward pass of the chunked form.

use vstd::prelude::*;

use crate::adjoint::{Adjoint, Exports, Replay, Tape};
use crate::forward;
use crate::forward::{ChunkScratch, ChunkWyScratch};
use crate::grid;
use crate::index;
use crate::linalg;
use crate::linalg::Op;
use crate::scalar;
use crate::scalar::Scalar;
use crate::streams;
use crate::tensor::{Matrix, Tensor4};
use crate::wy;

verus! {

/// One chunk of one head as the backward pass sees it.
pub struct ReplayInputs<F> {
    pub k: Matrix<F>,
    pub v: Matrix<F>,
    pub b: Matrix<F>,
    pub w: Matrix<F>,
    pub e: Matrix<F>,
    pub last: Vec<F>,
    pub qg: Matrix<F>,
    pub aqk: Matrix<F>,
    pub m: Matrix<F>,
    pub s: Matrix<F>,
}

impl<F: Scalar> ReplayInputs<F> {
    /// Whether the matrices hold `c`.
    pub open spec fn hold(self, c: Exports<F>) -> bool {
        &&& self.k.holds(c.rows, c.kd, c.k)
        &&& self.v.holds(c.rows, c.vd, c.v)
        &&& self.b.holds(c.rows, c.kd, c.b)
        &&& self.w.holds(c.rows, c.vd, c.w)
        &&& self.e.holds(c.rows, c.kd, c.e)
        &&& self.last@.len() == c.kd
        &&& forall|i: int| 0 <= i < c.kd ==> #[trigger] self.last@[i] == (c.el)(i)
        &&& self.qg.holds(c.rows, c.kd, c.qg)
        &&& self.aqk.holds(c.rows, c.rows, c.aqk)
        &&& self.m.holds(c.rows, c.rows, c.m)
        &&& self.s.holds(c.kd, c.vd, c.s)
        &&& 1 <= c.n <= c.rows
    }
}

/// What the forward pass of a chunk writes, derived again.
pub struct Replayed<F> {
    pub rhs_k: Matrix<F>,
    pub w_wy: Matrix<F>,
    pub u_wy: Matrix<F>,
    pub v_new: Matrix<F>,
    pub decay: Matrix<F>,
}

impl<F: Scalar> Replayed<F> {
    /// Whether the matrices hold what belongs to `c`.
    pub open spec fn hold(self, c: Exports<F>) -> bool {
        &&& self.rhs_k.holds(c.rows, c.kd, c.rhs_k())
        &&& self.w_wy.holds(c.rows, c.kd, c.w_wy())
        &&& self.u_wy.holds(c.rows, c.vd, c.u_wy())
        &&& self.v_new.holds(c.rows, c.vd, c.v_new())
        &&& self.decay.holds(c.rows, c.kd, c.decay())
    }
}

/// Row `r` of `a`.
fn row_of<F: Scalar>(a: &Matrix<F>, r: usize) -> (out: Vec<F>)
    requires
        a.wf(),
        r < a.rows,
    ensures
        out@.len() == a.cols,
        forall|j: int| 0 <= j < a.cols ==> #[trigger] out@[j] == a.at(r as int, j),
{
    let mut out: Vec<F> = Vec::new();
    for j in 0..a.cols
        invariant
            a.wf(),
            r < a.rows,
            out@.len() == j,
            forall|l: int| 0 <= l < j ==> #[trigger] out@[l] == a.at(r as int, l),
    {
        out.push(a.get(r, j));
    }
    out
}

/// `v` divided by each row of `a`, element by element.
pub(crate) fn over_rows<F: Scalar>(v: &Vec<F>, a: &Matrix<F>) -> (out: Matrix<F>)
    requires
        a.wf(),
        v@.len() == a.cols,
    ensures
        out.holds(a.rows as int, a.cols as int, |x: int, y: int| v@[y].over(a.at(x, y))),
{
    let mut out = a.copy();
    for x in 0..a.rows
        invariant
            a.wf(),
            v@.len() == a.cols,
            out.shaped(a.rows as int, a.cols as int),
            forall|i: int, j: int|
                0 <= i < x && 0 <= j < a.cols ==> #[trigger] out.at(i, j) == v@[j].over(a.at(i, j)),
    {
        for y in 0..a.cols
            invariant
                a.wf(),
                v@.len() == a.cols,
                x < a.rows,
                out.shaped(a.rows as int, a.cols as int),
                forall|i: int, j: int|
                    0 <= j < a.cols && (0 <= i < x || (i == x && j < y)) ==> #[trigger] out.at(i, j)
                        == v@[j].over(a.at(i, j)),
        {
            out.set(x, y, v[y].div(a.get(x, y)));
        }
    }
    out
}

/// Derives again what the forward pass of a chunk writes.
fn replay_head<F: Scalar>(x: &ReplayInputs<F>, Ghost(c): Ghost<Replay<F>>) -> (r: Replayed<F>)
    requires
        x.hold(c.exports()),
    ensures
        r.hold(c.exports()),
{
    assert(x.k.wf() && x.v.wf() && x.s.wf());
    let rhs_k = linalg::elementwise(Op::Mul, &linalg::elementwise(Op::Mul, &x.b, &x.k), &x.e);
    let rhs_v = linalg::elementwise(Op::Mul, &x.w, &x.v);
    let w_wy = linalg::product_of(&x.m, &rhs_k, Ghost(c.rows), Ghost(c.m), Ghost(c.rhs_k()));
    let u_wy = linalg::product_of(&x.m, &rhs_v, Ghost(c.rows), Ghost(c.m), Ghost(c.rhs_v()));
    let ws = linalg::product_of(&w_wy, &x.s, Ghost(c.kd), Ghost(c.w_wy()), Ghost(c.s));
    let v_new = linalg::elementwise(Op::Sub, &u_wy, &ws);
    let decay = over_rows(&x.last, &x.e);
    assert(decay.holds(c.rows, c.kd, c.exports().decay()));
    Replayed { rhs_k, w_wy, u_wy, v_new, decay }
}

/// `s` with row `i` times element `i` of `d`, from the left or from the right.
fn decay_rows<F: Scalar>(s: &Matrix<F>, d: &Vec<F>, left: bool) -> (r: Matrix<F>)
    requires
        s.wf(),
        d@.len() == s.rows,
    ensures
        r.holds(
            s.rows as int,
            s.cols as int,
            |i: int, j: int|
                if left {
                    d@[i].times(s.at(i, j))
                } else {
                    s.at(i, j).times(d@[i])
                },
        ),
{
    let mut r = s.copy();
    for i in 0..s.rows
        invariant
            s.wf(),
            d@.len() == s.rows,
            r.shaped(s.rows as int, s.cols as int),
            forall|a: int, j: int|
                0 <= a < i && 0 <= j < s.cols ==> #[trigger] r.at(a, j) == (if left {
                    d@[a].times(s.at(a, j))
                } else {
                    s.at(a, j).times(d@[a])
                }),
    {
        for j in 0..s.cols
            invariant
                s.wf(),
                d@.len() == s.rows,
                i < s.rows,
                r.shaped(s.rows as int, s.cols as int),
                forall|a: int, c: int|
                    0 <= c < s.cols && (0 <= a < i || (a == i && c < j)) ==> #[trigger] r.at(a, c)
                        == (if left {
                        d@[a].times(s.at(a, c))
                    } else {
                        s.at(a, c).times(d@[a])
                    }),
        {
            if left {
                r.set(i, j, d[i].mul(s.get(i, j)));
            } else {
                r.set(i, j, s.get(i, j).mul(d[i]));
            }
        }
    }
    r
}

/// The state after a chunk, derived again.
fn replay_state<F: Scalar>(x: &ReplayInputs<F>, Ghost(c): Ghost<Replay<F>>) -> (r: Matrix<F>)
    requires
        x.hold(c.exports()),
    ensures
        r.holds(c.kd, c.vd, c.next()),
{
    let d = replay_head(x, Ghost(c));
    let kd = linalg::elementwise(Op::Mul, &x.k, &d.decay);
    assert(x.s.wf());
    let kv = linalg::product_cols_of(
        &kd,
        &d.v_new,
        Ghost(c.rows),
        Ghost(grid::times(c.k, c.decay())),
        Ghost(c.v_new()),
    );
    let kept = decay_rows(&x.s, &x.last, false);
    linalg::elementwise(Op::Add, &kept, &kv)
}

/// Gradients of the tokens of one chunk of one head.
pub struct HeadGradients<F> {
    pub d_q: Matrix<F>,
    pub d_k: Matrix<F>,
    pub d_v: Matrix<F>,
    pub d_g: Matrix<F>,
    pub d_b: Matrix<F>,
    pub d_w: Matrix<F>,
}

impl<F: Scalar> HeadGradients<F> {
    /// Whether these are the gradients of `a`.
    pub open spec fn hold(self, a: Adjoint<F>) -> bool {
        &&& self.d_q.holds(a.c.rows, a.c.kd, a.d_q())
        &&& self.d_k.holds(a.c.rows, a.c.kd, a.d_k())
        &&& self.d_v.holds(a.c.rows, a.c.vd, a.d_v())
        &&& self.d_g.holds(a.c.rows, a.c.kd, a.d_g())
        &&& self.d_b.holds(a.c.rows, a.c.kd, a.d_b())
        &&& self.d_w.holds(a.c.rows, a.c.vd, a.d_w())
    }
}

/// The gradient of the last decay, by channel.
fn last_decay_gradient<F: Scalar>(
    d_decay: &Matrix<F>,
    e: &Matrix<F>,
    d_acc: &Matrix<F>,
    s: &Matrix<F>,
    Ghost(a): Ghost<Adjoint<F>>,
) -> (r: Vec<F>)
    requires
        d_decay.holds(a.c.rows, a.c.kd, a.d_decay()),
        e.holds(a.c.rows, a.c.kd, a.c.e),
        d_acc.holds(a.c.kd, a.c.vd, a.d_acc),
        s.holds(a.c.kd, a.c.vd, a.c.s),
    ensures
        r@.len() == a.c.kd,
        forall|i: int| 0 <= i < a.c.kd ==> #[trigger] r@[i] == a.d_e_last()(i),
{
    let mut r: Vec<F> = Vec::new();
    for i in 0..s.rows
        invariant
            d_decay.holds(a.c.rows, a.c.kd, a.d_decay()),
            e.holds(a.c.rows, a.c.kd, a.c.e),
            d_acc.holds(a.c.kd, a.c.vd, a.d_acc),
            s.holds(a.c.kd, a.c.vd, a.c.s),
            r@.len() == i,
            forall|x: int| 0 <= x < i ==> #[trigger] r@[x] == a.d_e_last()(x),
    {
        let ghost f = |x: int| grid::over(a.d_decay(), a.c.e)(x, i as int);
        let mut first = F::zero();
        for x in 0..e.rows
            invariant
                d_decay.holds(a.c.rows, a.c.kd, a.d_decay()),
                e.holds(a.c.rows, a.c.kd, a.c.e),
                i < a.c.kd,
                f == (|x: int| grid::over(a.d_decay(), a.c.e)(x, i as int)),
                first == scalar::total(x as int, f),
        {
            first = first.add(d_decay.get(x, i).div(e.get(x, i)));
        }
        let ghost h = |j: int| grid::times(a.d_acc, a.c.s)(i as int, j);
        let mut second = F::zero();
        for j in 0..s.cols
            invariant
                d_acc.holds(a.c.kd, a.c.vd, a.d_acc),
                s.holds(a.c.kd, a.c.vd, a.c.s),
                i < a.c.kd,
                h == (|j: int| grid::times(a.d_acc, a.c.s)(i as int, j)),
                second == scalar::total(j as int, h),
        {
            second = second.add(d_acc.get(i, j).mul(s.get(i, j)));
        }
        r.push(first.add(second));
    }
    r
}

/// Adds `b` to row `r` of `a`.
fn add_row<F: Scalar>(a: &Matrix<F>, r: usize, b: &Vec<F>) -> (out: Matrix<F>)
    requires
        a.wf(),
        r < a.rows,
        b@.len() == a.cols,
    ensures
        out.shaped(a.rows as int, a.cols as int),
        forall|i: int, j: int|
            0 <= i < a.rows && 0 <= j < a.cols ==> #[trigger] out.at(i, j) == (if i == r {
                a.at(i, j).plus(b@[j])
            } else {
                a.at(i, j)
            }),
{
    let mut out = a.copy();
    for j in 0..a.cols
        invariant
            a.wf(),
            r < a.rows,
            b@.len() == a.cols,
            out.shaped(a.rows as int, a.cols as int),
            forall|x: int, y: int|
                0 <= x < a.rows && 0 <= y < a.cols ==> #[trigger] out.at(x, y) == (if x == r && y
                    < j {
                    a.at(x, y).plus(b@[y])
                } else {
                    a.at(x, y)
                }),
    {
        out.set(r, j, a.get(r, j).add(b[j]));
    }
    out
}

/// Sums down the columns from the last row up to each row.
fn suffix_sums<F: Scalar>(a: &Matrix<F>, Ghost(af): Ghost<grid::Grid<F>>) -> (r: Matrix<F>)
    requires
        a.holds(a.rows as int, a.cols as int, af),
    ensures
        r.holds(a.rows as int, a.cols as int, grid::suffix_sums(a.rows as int, af)),
{
    let n: usize = a.rows;
    let ghost sums = grid::suffix_sums(n as int, af);
    let mut r = a.copy();
    for j in 0..a.cols
        invariant
            n == a.rows,
            sums == grid::suffix_sums(n as int, af),
            a.holds(a.rows as int, a.cols as int, af),
            r.shaped(a.rows as int, a.cols as int),
            forall|x: int, y: int|
                0 <= x < n && 0 <= y < j ==> #[trigger] r.at(x, y) == sums(x, y),
    {
        let ghost f = |x: int| af(n - 1 - x, j as int);
        let mut acc = F::zero();
        for x in 0..n
            invariant
                n == a.rows,
                sums == grid::suffix_sums(n as int, af),
                a.holds(a.rows as int, a.cols as int, af),
                j < a.cols,
                r.shaped(a.rows as int, a.cols as int),
                f == (|x: int| af(n - 1 - x, j as int)),
                acc == scalar::total(x as int, f),
                forall|i: int, y: int|
                    0 <= i < n && 0 <= y < j ==> #[trigger] r.at(i, y) == sums(i, y),
                forall|i: int| n - x <= i < n ==> #[trigger] r.at(i, j as int) == sums(i, j as int),
        {
            let i: usize = n - 1 - x;
            acc = acc.add(a.get(i, j));
            assert(acc == scalar::total(x + 1, f));
            assert(sums(i as int, j as int) == scalar::total(n - i, f));
            r.set(i, j, acc);
        }
    }
    r
}

/// The part of the backward pass that goes from chunk to chunk: the gradients of the written values
/// and of the state before the chunk.
pub(crate) fn chain_gradients<F: Scalar>(
    x: &ReplayInputs<F>,
    d: &Replayed<F>,
    scale: F,
    d_out: &Matrix<F>,
    d_acc: &Matrix<F>,
    Ghost(a): Ghost<Adjoint<F>>,
) -> (r: (Matrix<F>, Matrix<F>))
    requires
        x.hold(a.c),
        d.hold(a.c),
        scale == a.c.scale,
        d_out.holds(a.c.rows, a.c.vd, a.d_out),
        d_acc.holds(a.c.kd, a.c.vd, a.d_acc),
    ensures
        r.0.holds(a.c.rows, a.c.vd, a.d_v_new()),
        r.1.holds(a.c.kd, a.c.vd, a.d_s()),
{
    let ghost c = a.c;
    assert(x.k.wf() && x.v.wf() && x.s.wf());
    // out = aqk v_new + (q E) S scale
    let from_out = linalg::product_cols_of(
        &x.aqk,
        d_out,
        Ghost(c.rows),
        Ghost(c.aqk),
        Ghost(a.d_out),
    );
    // S' = S E_last + (k decay)^T v_new
    let khat = linalg::elementwise(Op::Mul, &d.decay, &x.k);
    let from_state = linalg::product_of(
        &khat,
        d_acc,
        Ghost(c.kd),
        Ghost(grid::times(c.decay(), c.k)),
        Ghost(a.d_acc),
    );
    let d_v_new = linalg::elementwise(Op::Add, &from_out, &from_state);
    // v_new = U - W S
    let by_w = linalg::product_cols_of(
        &d.w_wy,
        &d_v_new,
        Ghost(c.rows),
        Ghost(c.w_wy()),
        Ghost(a.d_v_new()),
    );
    let by_q = linalg::product_cols_of(&x.qg, d_out, Ghost(c.rows), Ghost(c.qg), Ghost(a.d_out));
    let by_last = decay_rows(d_acc, &x.last, true);
    let d_s = linalg::elementwise(
        Op::Add,
        &linalg::elementwise(Op::Add, &linalg::negate(&by_w), &linalg::scale(&by_q, scale)),
        &by_last,
    );
    (d_v_new, d_s)
}

/// The gradients that reach a chunk through the state after it, other than by the written values.
pub struct StateGradients<F> {
    /// Gradient of the keys.
    pub d_k_bptt: Matrix<F>,
    /// Gradient of the decays.
    pub d_e_decay: Matrix<F>,
    /// Gradient of the last decay, by channel.
    pub d_e_last: Vec<F>,
}

impl<F: Scalar> StateGradients<F> {
    /// Whether these are the gradients of `a`.
    pub open spec fn hold(self, a: Adjoint<F>) -> bool {
        &&& self.d_k_bptt.holds(a.c.rows, a.c.kd, grid::times(a.d_khat(), a.c.decay()))
        &&& self.d_e_decay.holds(a.c.rows, a.c.kd, a.d_e_decay())
        &&& self.d_e_last@.len() == a.c.kd
        &&& forall|i: int| 0 <= i < a.c.kd ==> #[trigger] self.d_e_last@[i] == a.d_e_last()(i)
    }
}

/// The gradients that reach a chunk through the state after it, other than by the written values.
pub(crate) fn state_gradients<F: Scalar>(
    x: &ReplayInputs<F>,
    d: &Replayed<F>,
    d_acc: &Matrix<F>,
    Ghost(a): Ghost<Adjoint<F>>,
) -> (r: StateGradients<F>)
    requires
        x.hold(a.c),
        d.hold(a.c),
        d_acc.holds(a.c.kd, a.c.vd, a.d_acc),
    ensures
        r.hold(a),
{
    let ghost c = a.c;
    assert(x.k.wf());
    let d_khat = linalg::product_rows_of(
        &d.v_new,
        d_acc,
        Ghost(c.vd),
        Ghost(c.v_new()),
        Ghost(a.d_acc),
    );
    let d_k_bptt = linalg::elementwise(Op::Mul, &d_khat, &d.decay);
    let d_decay = linalg::elementwise(Op::Mul, &d_khat, &x.k);
    let d_e_last = last_decay_gradient(&d_decay, &x.e, d_acc, &x.s, Ghost(a));
    let d_e_decay = linalg::negate(
        &linalg::elementwise(Op::Div, &linalg::elementwise(Op::Mul, &d_decay, &d.decay), &x.e),
    );
    StateGradients { d_k_bptt, d_e_decay, d_e_last }
}

/// The gradients of the solve and of the scores.
struct SolveGradients<F> {
    d_qk: Matrix<F>,
    d_rhs_k: Matrix<F>,
    d_rhs_v: Matrix<F>,
    d_akk: Matrix<F>,
}

impl<F: Scalar> SolveGradients<F> {
    spec fn hold(self, a: Adjoint<F>) -> bool {
        &&& self.d_qk.holds(a.c.rows, a.c.rows, a.d_qk())
        &&& self.d_rhs_k.holds(a.c.rows, a.c.kd, a.d_rhs_k())
        &&& self.d_rhs_v.holds(a.c.rows, a.c.vd, a.d_rhs_v())
        &&& self.d_akk.holds(a.c.rows, a.c.rows, a.d_akk())
    }
}

fn solve_gradients<F: Scalar>(
    x: &ReplayInputs<F>,
    d: &Replayed<F>,
    scaled_causal: &Matrix<F>,
    strict: &Matrix<F>,
    d_out: &Matrix<F>,
    d_v_new: &Matrix<F>,
    Ghost(a): Ghost<Adjoint<F>>,
) -> (r: SolveGradients<F>)
    requires
        x.hold(a.c),
        d.hold(a.c),
        scaled_causal.holds(
            a.c.rows,
            a.c.rows,
            |r: int, s: int| wy::scaled_causal(a.c.scale, r, s),
        ),
        strict.holds(a.c.rows, a.c.rows, |r: int, s: int| wy::strictly_causal::<F>(r, s)),
        d_out.holds(a.c.rows, a.c.vd, a.d_out),
        d_v_new.holds(a.c.rows, a.c.vd, a.d_v_new()),
    ensures
        r.hold(a),
{
    let ghost c = a.c;
    assert(x.k.wf() && x.v.wf() && x.s.wf() && x.m.wf());
    let d_aqk = linalg::product_rows_of(
        d_out,
        &d.v_new,
        Ghost(c.vd),
        Ghost(a.d_out),
        Ghost(c.v_new()),
    );
    let d_qk = linalg::elementwise(Op::Mul, &d_aqk, scaled_causal);
    // W = M^-1 rhs_k, U = M^-1 rhs_v
    let by_s = linalg::product_rows_of(
        d_v_new,
        &x.s,
        Ghost(c.vd),
        Ghost(a.d_v_new()),
        Ghost(c.s),
    );
    let d_w_wy = linalg::negate(&by_s);
    let d_rhs_k = linalg::product_cols_of(
        &x.m,
        &d_w_wy,
        Ghost(c.rows),
        Ghost(c.m),
        Ghost(grid::negated(grid::prod_t(c.vd, a.d_v_new(), c.s))),
    );
    let d_rhs_v = linalg::product_cols_of(
        &x.m,
        d_v_new,
        Ghost(c.rows),
        Ghost(c.m),
        Ghost(a.d_v_new()),
    );
    let kw = linalg::product_rows_of(
        &d_rhs_k,
        &d.w_wy,
        Ghost(c.kd),
        Ghost(a.d_rhs_k()),
        Ghost(c.w_wy()),
    );
    let vu = linalg::product_rows_of(
        &d_rhs_v,
        &d.u_wy,
        Ghost(c.vd),
        Ghost(a.d_rhs_v()),
        Ghost(c.u_wy()),
    );
    let d_akk = linalg::elementwise(
        Op::Mul,
        &linalg::elementwise(Op::Sub, &linalg::negate(&kw), &vu),
        strict,
    );
    SolveGradients { d_qk, d_rhs_k, d_rhs_v, d_akk }
}

/// The gradients of the tokens of one chunk of one head.
pub(crate) fn token_gradients<F: Scalar>(
    x: &ReplayInputs<F>,
    d: &Replayed<F>,
    n: usize,
    scale: F,
    scaled_causal: &Matrix<F>,
    strict: &Matrix<F>,
    d_out: &Matrix<F>,
    d_v_new: &Matrix<F>,
    by_state: &StateGradients<F>,
    Ghost(a): Ghost<Adjoint<F>>,
) -> (r: HeadGradients<F>)
    requires
        x.hold(a.c),
        d.hold(a.c),
        n == a.c.n,
        scale == a.c.scale,
        scaled_causal.holds(
            a.c.rows,
            a.c.rows,
            |r: int, s: int| wy::scaled_causal(a.c.scale, r, s),
        ),
        strict.holds(a.c.rows, a.c.rows, |r: int, s: int| wy::strictly_causal::<F>(r, s)),
        d_out.holds(a.c.rows, a.c.vd, a.d_out),
        d_v_new.holds(a.c.rows, a.c.vd, a.d_v_new()),
        by_state.hold(a),
    ensures
        r.hold(a),
{
    let ghost c = a.c;
    let y = solve_gradients(x, d, scaled_causal, strict, d_out, d_v_new, Ghost(a));
    assert(x.k.wf() && x.v.wf() && x.s.wf() && x.m.wf());
    let kg = linalg::elementwise(Op::Div, &x.k, &x.e);
    // q E
    let os = linalg::product_rows_of(d_out, &x.s, Ghost(c.vd), Ghost(a.d_out), Ghost(c.s));
    let qk = linalg::product_of(&y.d_qk, &kg, Ghost(c.rows), Ghost(a.d_qk()), Ghost(c.kg()));
    let d_qe = linalg::elementwise(Op::Add, &linalg::scale(&os, scale), &qk);
    // k / E
    let kq = linalg::product_cols_of(&y.d_qk, &x.qg, Ghost(c.rows), Ghost(a.d_qk()), Ghost(c.qg));
    let kk = linalg::product_cols_of(
        &y.d_akk,
        &d.rhs_k,
        Ghost(c.rows),
        Ghost(a.d_akk()),
        Ghost(c.rhs_k()),
    );
    let d_kg = linalg::elementwise(Op::Add, &kq, &kk);
    let d_bke = linalg::product_of(
        &y.d_akk,
        &kg,
        Ghost(c.rows),
        Ghost(a.d_akk()),
        Ghost(c.kg()),
    );
    // b k E
    let bk = linalg::elementwise(Op::Div, &d.rhs_k, &x.e);
    let d_bk = linalg::elementwise(
        Op::Mul,
        &linalg::elementwise(Op::Add, &y.d_rhs_k, &d_bke),
        &x.e,
    );
    let d_b = linalg::elementwise(Op::Mul, &d_bk, &x.k);
    let d_k_bk = linalg::elementwise(Op::Mul, &d_bk, &x.b);
    let d_e_rhsk = linalg::elementwise(Op::Mul, &y.d_rhs_k, &bk);
    // w v
    let d_w = linalg::elementwise(Op::Mul, &y.d_rhs_v, &x.v);
    let d_v = linalg::elementwise(Op::Mul, &y.d_rhs_v, &x.w);
    let d_k_kg = linalg::elementwise(Op::Div, &d_kg, &x.e);
    let d_e_kg = linalg::negate(
        &linalg::elementwise(
            Op::Div,
            &linalg::elementwise(Op::Mul, &d_kg, &x.k),
            &linalg::elementwise(Op::Mul, &x.e, &x.e),
        ),
    );
    let d_q = linalg::elementwise(Op::Mul, &d_qe, &x.e);
    let d_e_qe = linalg::elementwise(
        Op::Div,
        &linalg::elementwise(Op::Mul, &d_qe, &x.qg),
        &x.e,
    );
    let d_e_bke = linalg::elementwise(Op::Mul, &d_bke, &bk);
    // E = exp(G), G the sums of g
    let sum1 = linalg::elementwise(Op::Add, &d_e_rhsk, &d_e_kg);
    let sum2 = linalg::elementwise(Op::Add, &sum1, &d_e_qe);
    let sum3 = linalg::elementwise(Op::Add, &sum2, &d_e_bke);
    let d_e_rows = linalg::elementwise(Op::Add, &sum3, &by_state.d_e_decay);
    assert(d_e_rows.holds(c.rows, c.kd, a.d_e_rows()));
    let d_e = add_row(&d_e_rows, n - 1, &by_state.d_e_last);
    assert(d_e.holds(c.rows, c.kd, a.d_e()));
    let d_ge = linalg::elementwise(Op::Mul, &d_e, &x.e);
    let d_g = suffix_sums(&d_ge, Ghost(grid::times(a.d_e(), c.e)));
    let d_k = linalg::elementwise(
        Op::Add,
        &linalg::elementwise(Op::Add, &d_k_bk, &d_k_kg),
        &by_state.d_k_bptt,
    );
    HeadGradients { d_q, d_k, d_v, d_g, d_b, d_w }
}

/// The chunked forward pass as an operation with a gradient: what its backward pass needs.
pub struct ChunkWy<'a, F> {
    pub k: &'a Tensor4<F>,
    pub v: &'a Tensor4<F>,
    pub b: &'a Tensor4<F>,
    pub w: &'a Tensor4<F>,
    /// The state before the first token.
    pub s_in: &'a Tensor4<F>,
    /// The intermediates of each chunk.
    pub scratch: &'a ChunkWyScratch<F>,
    pub scale: F,
    pub chunk_size: usize,
}

impl<'a, F: Scalar> ChunkWy<'a, F> {
    pub open spec fn batch(self) -> int {
        self.k.d0 as int
    }

    pub open spec fn heads(self) -> int {
        self.k.d1 as int
    }

    pub open spec fn tokens(self) -> int {
        self.k.d2 as int
    }

    pub open spec fn kd(self) -> int {
        self.k.d3 as int
    }

    pub open spec fn vd(self) -> int {
        self.v.d3 as int
    }

    /// Number of chunks.
    pub open spec fn count(self) -> int {
        (self.tokens() + self.chunk_size - 1) / (self.chunk_size as int)
    }

    /// Number of tokens in chunk `c`.
    pub open spec fn len(self, c: int) -> int {
        if (c + 1) * self.chunk_size <= self.tokens() {
            self.chunk_size as int
        } else {
            self.tokens() - c * self.chunk_size
        }
    }

    /// Number of rows of chunk `c`.
    pub open spec fn rows(self, c: int) -> int {
        self.scratch.chunks@[c].g_exp.d2 as int
    }

    /// The extents match, and there are intermediates for each chunk.
    pub open spec fn wf(self) -> bool {
        let (b, h, t) = (self.batch(), self.heads(), self.tokens());
        &&& self.chunk_size > 0
        &&& self.k.wf()
        &&& self.v.shaped(b, h, t, self.vd())
        &&& self.b.shaped(b, h, t, self.kd())
        &&& self.w.shaped(b, h, t, self.vd())
        &&& self.s_in.shaped(b, h, self.kd(), self.vd())
        &&& self.scratch.chunks@.len() == self.count()
        &&& forall|c: int|
            0 <= c < self.count() ==> {
                &&& (#[trigger] self.scratch.chunks@[c]).shaped(b, h, self.rows(c), self.kd())
                &&& self.len(c) <= self.rows(c)
                &&& self.rows(c) * self.vd() <= usize::MAX
                &&& self.rows(c) * self.rows(c) <= usize::MAX
            }
    }

    /// Head `hi` of batch `bi`, with the gradient `d_out` of its outputs.
    pub open spec fn head(self, d_out: Tensor4<F>, bi: int, hi: int) -> Tape<F> {
        Tape {
            tokens: self.tokens(),
            size: self.chunk_size as int,
            kd: self.kd(),
            vd: self.vd(),
            k: streams::state_of(*self.k, bi, hi),
            v: streams::state_of(*self.v, bi, hi),
            b: streams::state_of(*self.b, bi, hi),
            w: streams::state_of(*self.w, bi, hi),
            rows: |c: int| self.rows(c),
            e: |c: int, r: int, i: int| self.scratch.chunks@[c].g_exp.at(bi, hi, r, i),
            qg: |c: int, r: int, i: int| self.scratch.chunks@[c].q_gated.at(bi, hi, r, i),
            aqk: |c: int, r: int, l: int| self.scratch.chunks@[c].aqk.at(bi, hi, r, l),
            m: |c: int, r: int, l: int| self.scratch.chunks@[c].m_inv.at(bi, hi, r, l),
            s: streams::state_of(*self.s_in, bi, hi),
            d_out: streams::state_of(d_out, bi, hi),
            scale: self.scale,
        }
    }
}

/// Rows `start .. start + n` of a head, then zeros.
fn rows_of<F: Scalar>(
    t: &Tensor4<F>,
    bi: usize,
    hi: usize,
    start: usize,
    n: usize,
    rows: usize,
) -> (r: Matrix<F>)
    requires
        t.wf(),
        bi < t.d0,
        hi < t.d1,
        start + n <= t.d2,
        n <= rows,
        rows * t.d3 <= usize::MAX,
    ensures
        r.holds(
            rows as int,
            t.d3 as int,
            |x: int, i: int|
                if x < n {
                    t.at(bi as int, hi as int, start + x, i)
                } else {
                    F::nil()
                },
        ),
{
    forward::slice_padded(t, bi, hi, start, n, rows, t.d3)
}

/// Where chunk `c` lies.
spec fn placed<F: Scalar>(
    y: ChunkWy<F>,
    c: int,
    start: int,
    n: int,
    rows: int,
) -> bool {
    &&& y.wf()
    &&& 0 <= c < y.count()
    &&& start == c * y.chunk_size
    &&& n == y.len(c)
    &&& 1 <= n <= rows
    &&& n <= y.chunk_size
    &&& start + n <= y.tokens()
    &&& rows == y.rows(c)
}

/// Chunk `c` of one head, from the state in `s`.
fn replay_inputs<F: Scalar>(
    y: &ChunkWy<F>,
    sc: &ChunkScratch<F>,
    s: &Tensor4<F>,
    bi: usize,
    hi: usize,
    start: usize,
    n: usize,
    rows: usize,
    Ghost(d_out): Ghost<Tensor4<F>>,
    Ghost(c): Ghost<int>,
) -> (r: ReplayInputs<F>)
    requires
        placed(*y, c, start as int, n as int, rows as int),
        *sc == y.scratch.chunks@[c],
        bi < y.batch(),
        hi < y.heads(),
        s.shaped(y.batch(), y.heads(), y.kd(), y.vd()),
        forall|i: int, j: int|
            0 <= i < y.kd() && 0 <= j < y.vd() ==> #[trigger] s.at(bi as int, hi as int, i, j)
                == y.head(d_out, bi as int, hi as int).state(c)(i, j),
    ensures
        r.hold(
            y.head(d_out, bi as int, hi as int).replay(
                c,
                y.head(d_out, bi as int, hi as int).state(c),
            ).exports(),
        ),
{
    proof {
        index::lemma_block_fits(y.batch(), y.heads(), rows as int, y.kd());
        assert(y.scratch.chunks@[c].g_exp.wf());
    }
    let e = sc.g_exp.head_matrix(bi, hi);
    let last = row_of(&e, n - 1);
    ReplayInputs {
        k: rows_of(y.k, bi, hi, start, n, rows),
        v: rows_of(y.v, bi, hi, start, n, rows),
        b: rows_of(y.b, bi, hi, start, n, rows),
        w: rows_of(y.w, bi, hi, start, n, rows),
        e,
        last,
        qg: sc.q_gated.head_matrix(bi, hi),
        aqk: sc.aqk.head_matrix(bi, hi),
        m: sc.m_inv.head_matrix(bi, hi),
        s: s.head_matrix(bi, hi),
    }
}

/// The states after chunk `c`, from those before it.
fn replay_all<F: Scalar>(
    y: &ChunkWy<F>,
    sc: &ChunkScratch<F>,
    s: &Tensor4<F>,
    start: usize,
    n: usize,
    rows: usize,
    Ghost(d_out): Ghost<Tensor4<F>>,
    Ghost(c): Ghost<int>,
) -> (r: Tensor4<F>)
    requires
        placed(*y, c, start as int, n as int, rows as int),
        *sc == y.scratch.chunks@[c],
        s.shaped(y.batch(), y.heads(), y.kd(), y.vd()),
        forall|a: int, h: int, i: int, j: int|
            0 <= a < y.batch() && 0 <= h < y.heads() && 0 <= i < y.kd() && 0 <= j < y.vd()
                ==> #[trigger] s.at(a, h, i, j) == y.head(d_out, a, h).state(c)(i, j),
    ensures
        r.shaped(y.batch(), y.heads(), y.kd(), y.vd()),
        forall|a: int, h: int, i: int, j: int|
            0 <= a < y.batch() && 0 <= h < y.heads() && 0 <= i < y.kd() && 0 <= j < y.vd()
                ==> #[trigger] r.at(a, h, i, j) == y.head(d_out, a, h).state(c + 1)(i, j),
{
    let mut r = s.zeros_like();
    for bi in 0..y.k.d0
        invariant
            placed(*y, c, start as int, n as int, rows as int),
            *sc == y.scratch.chunks@[c],
            s.shaped(y.batch(), y.heads(), y.kd(), y.vd()),
            forall|a: int, h: int, i: int, j: int|
                0 <= a < y.batch() && 0 <= h < y.heads() && 0 <= i < y.kd() && 0 <= j < y.vd()
                    ==> #[trigger] s.at(a, h, i, j) == y.head(d_out, a, h).state(c)(i, j),
            r.shaped(y.batch(), y.heads(), y.kd(), y.vd()),
            forall|a: int, h: int, i: int, j: int|
                0 <= a < bi && 0 <= h < y.heads() && 0 <= i < y.kd() && 0 <= j < y.vd()
                    ==> #[trigger] r.at(a, h, i, j) == y.head(d_out, a, h).state(c + 1)(i, j),
    {
        for hi in 0..y.k.d1
            invariant
                placed(*y, c, start as int, n as int, rows as int),
                *sc == y.scratch.chunks@[c],
                bi < y.batch(),
                s.shaped(y.batch(), y.heads(), y.kd(), y.vd()),
                forall|a: int, h: int, i: int, j: int|
                    0 <= a < y.batch() && 0 <= h < y.heads() && 0 <= i < y.kd() && 0 <= j < y.vd()
                        ==> #[trigger] s.at(a, h, i, j) == y.head(d_out, a, h).state(c)(i, j),
                r.shaped(y.batch(), y.heads(), y.kd(), y.vd()),
                forall|a: int, h: int, i: int, j: int|
                    0 <= h < y.heads() && (0 <= a < bi || (a == bi && h < hi)) && 0 <= i < y.kd()
                        && 0 <= j < y.vd() ==> #[trigger] r.at(a, h, i, j) == y.head(
                        d_out,
                        a,
                        h,
                    ).state(c + 1)(i, j),
        {
            let ghost tape = y.head(d_out, bi as int, hi as int);
            let x = replay_inputs(y, sc, s, bi, hi, start, n, rows, Ghost(d_out), Ghost(c));
            let next = replay_state(&x, Ghost(tape.replay(c, tape.state(c))));
            r.set_head(bi, hi, &next);
        }
    }
    r
}

/// Gradients of all inputs.
pub struct ChunkWyGradients<F> {
    pub d_q: Tensor4<F>,
    pub d_k: Tensor4<F>,
    pub d_v: Tensor4<F>,
    pub d_g: Tensor4<F>,
    pub d_b: Tensor4<F>,
    pub d_w: Tensor4<F>,
    pub d_s: Tensor4<F>,
}

impl<F: Scalar> ChunkWyGradients<F> {
    /// The extents are those of the inputs.
    pub open spec fn shaped(self, y: ChunkWy<F>) -> bool {
        let (b, h, t) = (y.batch(), y.heads(), y.tokens());
        &&& self.d_q.shaped(b, h, t, y.kd())
        &&& self.d_k.shaped(b, h, t, y.kd())
        &&& self.d_v.shaped(b, h, t, y.vd())
        &&& self.d_g.shaped(b, h, t, y.kd())
        &&& self.d_b.shaped(b, h, t, y.kd())
        &&& self.d_w.shaped(b, h, t, y.vd())
        &&& self.d_s.shaped(b, h, y.kd(), y.vd())
    }

    /// The gradients of the tokens from `lo` on, in head `hi` of batch `bi`, are those of `tape`.
    pub open spec fn rows_are(self, tape: Tape<F>, bi: int, hi: int, lo: int) -> bool {
        &&& forall|t: int, i: int|
            lo <= t < tape.tokens && 0 <= i < tape.kd ==> #[trigger] self.d_q.at(bi, hi, t, i)
                == tape.d_q(t, i)
        &&& forall|t: int, i: int|
            lo <= t < tape.tokens && 0 <= i < tape.kd ==> #[trigger] self.d_k.at(bi, hi, t, i)
                == tape.d_k(t, i)
        &&& forall|t: int, j: int|
            lo <= t < tape.tokens && 0 <= j < tape.vd ==> #[trigger] self.d_v.at(bi, hi, t, j)
                == tape.d_v(t, j)
        &&& forall|t: int, i: int|
            lo <= t < tape.tokens && 0 <= i < tape.kd ==> #[trigger] self.d_g.at(bi, hi, t, i)
                == tape.d_g(t, i)
        &&& forall|t: int, i: int|
            lo <= t < tape.tokens && 0 <= i < tape.kd ==> #[trigger] self.d_b.at(bi, hi, t, i)
                == tape.d_b(t, i)
        &&& forall|t: int, j: int|
            lo <= t < tape.tokens && 0 <= j < tape.vd ==> #[trigger] self.d_w.at(bi, hi, t, j)
                == tape.d_w(t, j)
    }

    /// The gradient of the state is `d_s`, in head `hi` of batch `bi`.
    pub open spec fn state_is(self, d_s: grid::Grid<F>, kd: int, vd: int, bi: int, hi: int) -> bool {
        forall|i: int, j: int|
            0 <= i < kd && 0 <= j < vd ==> #[trigger] self.d_s.at(bi, hi, i, j) == d_s(i, j)
    }
}

/// Chunk `c` of one head, backwards. `d_s` of the gradients goes from the state after the chunk to
/// the state before it.
fn adjoint_one<F: Scalar>(
    y: &ChunkWy<F>,
    sc: &ChunkScratch<F>,
    s: &Tensor4<F>,
    d_out: &Tensor4<F>,
    bi: usize,
    hi: usize,
    start: usize,
    n: usize,
    rows: usize,
    scaled_causal: &Matrix<F>,
    strict: &Matrix<F>,
    r: &mut ChunkWyGradients<F>,
    Ghost(c): Ghost<int>,
)
    requires
        placed(*y, c, start as int, n as int, rows as int),
        *sc == y.scratch.chunks@[c],
        bi < y.batch(),
        hi < y.heads(),
        d_out.shaped(y.batch(), y.heads(), y.tokens(), y.vd()),
        s.shaped(y.batch(), y.heads(), y.kd(), y.vd()),
        forall|i: int, j: int|
            0 <= i < y.kd() && 0 <= j < y.vd() ==> #[trigger] s.at(bi as int, hi as int, i, j)
                == y.head(*d_out, bi as int, hi as int).state(c)(i, j),
        scaled_causal.holds(
            rows as int,
            rows as int,
            |r: int, s: int| wy::scaled_causal(y.scale, r, s),
        ),
        strict.holds(
            rows as int,
            rows as int,
            |r: int, s: int| wy::strictly_causal::<F>(r, s),
        ),
        old(r).shaped(*y),
        old(r).rows_are(
            y.head(*d_out, bi as int, hi as int),
            bi as int,
            hi as int,
            start + n,
        ),
        old(r).state_is(
            y.head(*d_out, bi as int, hi as int).passed_back(c),
            y.kd(),
            y.vd(),
            bi as int,
            hi as int,
        ),
    ensures
        final(r).shaped(*y),
        final(r).rows_are(
            y.head(*d_out, bi as int, hi as int),
            bi as int,
            hi as int,
            start as int,
        ),
        final(r).state_is(
            y.head(*d_out, bi as int, hi as int).passed_back(c - 1),
            y.kd(),
            y.vd(),
            bi as int,
            hi as int,
        ),
        forall|tape: Tape<F>, a: int, h: int, lo: int|
            0 <= a < y.batch() && 0 <= h < y.heads() && !(a == bi && h == hi) && 0 <= lo
                && tape.tokens == y.tokens() && tape.kd == y.kd() && tape.vd == y.vd() && old(
                r,
            ).rows_are(tape, a, h, lo) ==> #[trigger] final(r).rows_are(tape, a, h, lo),
        forall|d_s: grid::Grid<F>, a: int, h: int|
            0 <= a < y.batch() && 0 <= h < y.heads() && !(a == bi && h == hi) && old(r).state_is(
                d_s,
                y.kd(),
                y.vd(),
                a,
                h,
            ) ==> #[trigger] final(r).state_is(d_s, y.kd(), y.vd(), a, h),
{
    let ghost tape = y.head(*d_out, bi as int, hi as int);
    let ghost adj = tape.adjoint(c);
    let x = replay_inputs(y, sc, s, bi, hi, start, n, rows, Ghost(*d_out), Ghost(c));
    let o = rows_of(d_out, bi, hi, start, n, rows);
    let d_acc = r.d_s.head_matrix(bi, hi);
    assert(d_acc.holds(y.kd(), y.vd(), adj.d_acc));
    let d = replay_head(&x, Ghost(tape.replay(c, tape.state(c))));
    let (d_v_new, d_s) = chain_gradients(&x, &d, y.scale, &o, &d_acc, Ghost(adj));
    let by_state = state_gradients(&x, &d, &d_acc, Ghost(adj));
    let g = token_gradients(
        &x,
        &d,
        n,
        y.scale,
        scaled_causal,
        strict,
        &o,
        &d_v_new,
        &by_state,
        Ghost(adj),
    );
    r.d_q.set_rows(bi, hi, start, n, &g.d_q);
    r.d_k.set_rows(bi, hi, start, n, &g.d_k);
    r.d_v.set_rows(bi, hi, start, n, &g.d_v);
    r.d_g.set_rows(bi, hi, start, n, &g.d_g);
    r.d_b.set_rows(bi, hi, start, n, &g.d_b);
    r.d_w.set_rows(bi, hi, start, n, &g.d_w);
    r.d_s.set_head(bi, hi, &d_s);
    assert forall|t: int| start <= t < start + n implies #[trigger] (t / tape.size) == c && t
        % tape.size == t - start by {
        forward::lemma_token_of(tape.size, c, t);
    }
    assert(r.rows_are(tape, bi as int, hi as int, start as int)) by {
        assert forall|t: int, i: int|
            start <= t < tape.tokens && 0 <= i < tape.kd implies #[trigger] r.d_q.at(
            bi as int,
            hi as int,
            t,
            i,
        ) == tape.d_q(t, i) by {
            if t < start + n {
                assert(t / tape.size == c);
            }
        }
        assert forall|t: int, i: int|
            start <= t < tape.tokens && 0 <= i < tape.kd implies #[trigger] r.d_k.at(
            bi as int,
            hi as int,
            t,
            i,
        ) == tape.d_k(t, i) by {
            if t < start + n {
                assert(t / tape.size == c);
            }
        }
        assert forall|t: int, i: int|
            start <= t < tape.tokens && 0 <= i < tape.vd implies #[trigger] r.d_v.at(
            bi as int,
            hi as int,
            t,
            i,
        ) == tape.d_v(t, i) by {
            if t < start + n {
                assert(t / tape.size == c);
            }
        }
        assert forall|t: int, i: int|
            start <= t < tape.tokens && 0 <= i < tape.kd implies #[trigger] r.d_g.at(
            bi as int,
            hi as int,
            t,
            i,
        ) == tape.d_g(t, i) by {
            if t < start + n {
                assert(t / tape.size == c);
            }
        }
        assert forall|t: int, i: int|
            start <= t < tape.tokens && 0 <= i < tape.kd implies #[trigger] r.d_b.at(
            bi as int,
            hi as int,
            t,
            i,
        ) == tape.d_b(t, i) by {
            if t < start + n {
                assert(t / tape.size == c);
            }
        }
        assert forall|t: int, i: int|
            start <= t < tape.tokens && 0 <= i < tape.vd implies #[trigger] r.d_w.at(
            bi as int,
            hi as int,
            t,
            i,
        ) == tape.d_w(t, i) by {
            if t < start + n {
                assert(t / tape.size == c);
            }
        }
    }
}

/// Chunk `c` of every head, backwards.
fn adjoint_all<F: Scalar>(
    y: &ChunkWy<F>,
    sc: &ChunkScratch<F>,
    s: &Tensor4<F>,
    d_out: &Tensor4<F>,
    start: usize,
    n: usize,
    rows: usize,
    r: &mut ChunkWyGradients<F>,
    Ghost(c): Ghost<int>,
)
    requires
        placed(*y, c, start as int, n as int, rows as int),
        *sc == y.scratch.chunks@[c],
        rows * rows <= usize::MAX,
        d_out.shaped(y.batch(), y.heads(), y.tokens(), y.vd()),
        s.shaped(y.batch(), y.heads(), y.kd(), y.vd()),
        forall|a: int, h: int, i: int, j: int|
            0 <= a < y.batch() && 0 <= h < y.heads() && 0 <= i < y.kd() && 0 <= j < y.vd()
                ==> #[trigger] s.at(a, h, i, j) == y.head(*d_out, a, h).state(c)(i, j),
        old(r).shaped(*y),
        forall|a: int, h: int|
            0 <= a < y.batch() && 0 <= h < y.heads() ==> #[trigger] old(r).rows_are(
                y.head(*d_out, a, h),
                a,
                h,
                start + n,
            ),
        forall|a: int, h: int|
            0 <= a < y.batch() && 0 <= h < y.heads() ==> #[trigger] old(r).state_is(
                y.head(*d_out, a, h).passed_back(c),
                y.kd(),
                y.vd(),
                a,
                h,
            ),
    ensures
        final(r).shaped(*y),
        forall|a: int, h: int|
            0 <= a < y.batch() && 0 <= h < y.heads() ==> #[trigger] final(r).rows_are(
                y.head(*d_out, a, h),
                a,
                h,
                start as int,
            ),
        forall|a: int, h: int|
            0 <= a < y.batch() && 0 <= h < y.heads() ==> #[trigger] final(r).state_is(
                y.head(*d_out, a, h).passed_back(c - 1),
                y.kd(),
                y.vd(),
                a,
                h,
            ),
{
    let (causal, strict) = forward::chunk_masks::<F>(rows);
    let scaled = linalg::scale(&causal, y.scale);
    for bi in 0..y.k.d0
        invariant
            placed(*y, c, start as int, n as int, rows as int),
            *sc == y.scratch.chunks@[c],
            d_out.shaped(y.batch(), y.heads(), y.tokens(), y.vd()),
            s.shaped(y.batch(), y.heads(), y.kd(), y.vd()),
            forall|a: int, h: int, i: int, j: int|
                0 <= a < y.batch() && 0 <= h < y.heads() && 0 <= i < y.kd() && 0 <= j < y.vd()
                    ==> #[trigger] s.at(a, h, i, j) == y.head(*d_out, a, h).state(c)(i, j),
            scaled.holds(
                rows as int,
                rows as int,
                |r: int, s: int| wy::scaled_causal(y.scale, r, s),
            ),
            strict.holds(
                rows as int,
                rows as int,
                |r: int, s: int| wy::strictly_causal::<F>(r, s),
            ),
            r.shaped(*y),
            forall|a: int, h: int|
                0 <= a < y.batch() && 0 <= h < y.heads() && forward::passed(bi as int, 0, a, h)
                    ==> #[trigger] r.rows_are(y.head(*d_out, a, h), a, h, start as int),
            forall|a: int, h: int|
                0 <= a < y.batch() && 0 <= h < y.heads() && !forward::passed(bi as int, 0, a, h)
                    ==> #[trigger] r.rows_are(y.head(*d_out, a, h), a, h, start + n),
            forall|a: int, h: int|
                0 <= a < y.batch() && 0 <= h < y.heads() && forward::passed(bi as int, 0, a, h)
                    ==> #[trigger] r.state_is(
                    y.head(*d_out, a, h).passed_back(c - 1),
                    y.kd(),
                    y.vd(),
                    a,
                    h,
                ),
            forall|a: int, h: int|
                0 <= a < y.batch() && 0 <= h < y.heads() && !forward::passed(bi as int, 0, a, h)
                    ==> #[trigger] r.state_is(
                    y.head(*d_out, a, h).passed_back(c),
                    y.kd(),
                    y.vd(),
                    a,
                    h,
                ),
    {
        for hi in 0..y.k.d1
            invariant
                placed(*y, c, start as int, n as int, rows as int),
                *sc == y.scratch.chunks@[c],
                bi < y.batch(),
                d_out.shaped(y.batch(), y.heads(), y.tokens(), y.vd()),
                s.shaped(y.batch(), y.heads(), y.kd(), y.vd()),
                forall|a: int, h: int, i: int, j: int|
                    0 <= a < y.batch() && 0 <= h < y.heads() && 0 <= i < y.kd() && 0 <= j < y.vd()
                        ==> #[trigger] s.at(a, h, i, j) == y.head(*d_out, a, h).state(c)(i, j),
                scaled.holds(
                    rows as int,
                    rows as int,
                    |r: int, s: int| wy::scaled_causal(y.scale, r, s),
                ),
                strict.holds(
                    rows as int,
                    rows as int,
                    |r: int, s: int| wy::strictly_causal::<F>(r, s),
                ),
                r.shaped(*y),
                forall|a: int, h: int|
                    0 <= a < y.batch() && 0 <= h < y.heads() && forward::passed(bi as int, hi as int, a, h)
                        ==> #[trigger] r.rows_are(y.head(*d_out, a, h), a, h, start as int),
                forall|a: int, h: int|
                    0 <= a < y.batch() && 0 <= h < y.heads() && !forward::passed(bi as int, hi as int, a, h)
                        ==> #[trigger] r.rows_are(y.head(*d_out, a, h), a, h, start + n),
                forall|a: int, h: int|
                    0 <= a < y.batch() && 0 <= h < y.heads() && forward::passed(bi as int, hi as int, a, h)
                        ==> #[trigger] r.state_is(
                        y.head(*d_out, a, h).passed_back(c - 1),
                        y.kd(),
                        y.vd(),
                        a,
                        h,
                    ),
                forall|a: int, h: int|
                    0 <= a < y.batch() && 0 <= h < y.heads() && !forward::passed(bi as int, hi as int, a, h)
                        ==> #[trigger] r.state_is(
                        y.head(*d_out, a, h).passed_back(c),
                        y.kd(),
                        y.vd(),
                        a,
                        h,
                    ),
        {
            let ghost before = *r;
            let ghost tape = y.head(*d_out, bi as int, hi as int);
            assert(r.rows_are(tape, bi as int, hi as int, start + n));
            assert(r.state_is(tape.passed_back(c), y.kd(), y.vd(), bi as int, hi as int));
            adjoint_one(
                y,
                sc,
                s,
                d_out,
                bi,
                hi,
                start,
                n,
                rows,
                &scaled,
                &strict,
                r,
                Ghost(c),
            );
            assert forall|a: int, h: int|
                0 <= a < y.batch() && 0 <= h < y.heads() && forward::passed(
                    bi as int,
                    hi + 1,
                    a,
                    h,
                ) implies #[trigger] r.rows_are(y.head(*d_out, a, h), a, h, start as int) by {
                if !(a == bi && h == hi) {
                    assert(before.rows_are(y.head(*d_out, a, h), a, h, start as int));
                }
            }
            assert forall|a: int, h: int|
                0 <= a < y.batch() && 0 <= h < y.heads() && !forward::passed(
                    bi as int,
                    hi + 1,
                    a,
                    h,
                ) implies #[trigger] r.rows_are(y.head(*d_out, a, h), a, h, start + n) by {
                assert(before.rows_are(y.head(*d_out, a, h), a, h, start + n));
            }
            assert forall|a: int, h: int|
                0 <= a < y.batch() && 0 <= h < y.heads() && forward::passed(
                    bi as int,
                    hi + 1,
                    a,
                    h,
                ) implies #[trigger] r.state_is(
                y.head(*d_out, a, h).passed_back(c - 1),
                y.kd(),
                y.vd(),
                a,
                h,
            ) by {
                if !(a == bi && h == hi) {
                    let d_s = y.head(*d_out, a, h).passed_back(c - 1);
                    assert(before.state_is(d_s, y.kd(), y.vd(), a, h));
                }
            }
            assert forall|a: int, h: int|
                0 <= a < y.batch() && 0 <= h < y.heads() && !forward::passed(
                    bi as int,
                    hi + 1,
                    a,
                    h,
                ) implies #[trigger] r.state_is(
                y.head(*d_out, a, h).passed_back(c),
                y.kd(),
                y.vd(),
                a,
                h,
            ) by {
                let d_s = y.head(*d_out, a, h).passed_back(c);
                assert(before.state_is(d_s, y.kd(), y.vd(), a, h));
            }
        }
    }
}

impl<'a, F: Scalar> ChunkWy<'a, F> {
    /// The states before each chunk and after the last, derived again.
    fn trajectory(&self, Ghost(d_out): Ghost<Tensor4<F>>) -> (traj: Vec<Tensor4<F>>)
        requires
            self.wf(),
        ensures
            traj@.len() == self.count() + 1,
            forall|c: int|
                0 <= c <= self.count() ==> (#[trigger] traj@[c]).shaped(
                    self.batch(),
                    self.heads(),
                    self.kd(),
                    self.vd(),
                ),
            forall|c: int, a: int, h: int, i: int, j: int|
                0 <= c <= self.count() && 0 <= a < self.batch() && 0 <= h < self.heads() && 0 <= i
                    < self.kd() && 0 <= j < self.vd() ==> #[trigger] traj@[c].at(a, h, i, j)
                    == self.head(d_out, a, h).state(c)(i, j),
    {
        let tokens: usize = self.k.d2;
        let count: usize = self.scratch.chunks.len();
        let mut traj: Vec<Tensor4<F>> = Vec::new();
        traj.push(self.s_in.copy());
        for c in 0..count
            invariant
                self.wf(),
                tokens == self.tokens(),
                count == self.count(),
                traj@.len() == c + 1,
                forall|e: int|
                    0 <= e <= c ==> (#[trigger] traj@[e]).shaped(
                        self.batch(),
                        self.heads(),
                        self.kd(),
                        self.vd(),
                    ),
                forall|e: int, a: int, h: int, i: int, j: int|
                    0 <= e <= c && 0 <= a < self.batch() && 0 <= h < self.heads() && 0 <= i
                        < self.kd() && 0 <= j < self.vd() ==> #[trigger] traj@[e].at(a, h, i, j)
                        == self.head(d_out, a, h).state(e)(i, j),
        {
            proof {
                forward::lemma_chunk_span(
                    self.count(),
                    self.chunk_size as int,
                    self.tokens(),
                    c as int,
                );
            }
            let sc = &self.scratch.chunks[c];
            let rows: usize = sc.g_exp.d2;
            let start: usize = c * self.chunk_size;
            let n: usize = if tokens - start < self.chunk_size {
                tokens - start
            } else {
                self.chunk_size
            };
            let next = replay_all(
                self,
                sc,
                &traj[c],
                start,
                n,
                rows,
                Ghost(d_out),
                Ghost(c as int),
            );
            traj.push(next);
        }
        traj
    }

    /// The gradients of all inputs, from the gradient `d_out` of the outputs.
    ///
    /// The states are derived again from the intermediates; then the chunks are taken last to
    /// first, each passing the gradient of its initial state to the one before.
    pub fn backward(&self, d_out: &Tensor4<F>) -> (r: ChunkWyGradients<F>)
        requires
            self.wf(),
            d_out.shaped(self.batch(), self.heads(), self.tokens(), self.vd()),
        ensures
            r.shaped(*self),
            forall|a: int, h: int|
                0 <= a < self.batch() && 0 <= h < self.heads() ==> #[trigger] r.rows_are(
                    self.head(*d_out, a, h),
                    a,
                    h,
                    0,
                ),
            forall|a: int, h: int, i: int, j: int|
                0 <= a < self.batch() && 0 <= h < self.heads() && 0 <= i < self.kd() && 0 <= j
                    < self.vd() ==> #[trigger] r.d_s.at(a, h, i, j) == self.head(*d_out, a, h).d_s(
                    i,
                    j,
                ),
    {
        let tokens: usize = self.k.d2;
        let count: usize = self.scratch.chunks.len();
        let traj = self.trajectory(Ghost(*d_out));
        let mut r = ChunkWyGradients {
            d_q: self.k.zeros_like(),
            d_k: self.k.zeros_like(),
            d_v: self.v.zeros_like(),
            d_g: self.k.zeros_like(),
            d_b: self.k.zeros_like(),
            d_w: self.v.zeros_like(),
            d_s: self.s_in.zeros_like(),
        };
        let mut c: usize = count;
        let mut end: usize = tokens;
        while c > 0
            invariant
                self.wf(),
                tokens == self.tokens(),
                count == self.count(),
                c <= count,
                end <= tokens,
                c < count ==> end == c * self.chunk_size,
                c == count ==> end == tokens,
                d_out.shaped(self.batch(), self.heads(), self.tokens(), self.vd()),
                traj@.len() == count + 1,
                forall|e: int|
                    0 <= e <= count ==> (#[trigger] traj@[e]).shaped(
                        self.batch(),
                        self.heads(),
                        self.kd(),
                        self.vd(),
                    ),
                forall|e: int, a: int, h: int, i: int, j: int|
                    0 <= e <= count && 0 <= a < self.batch() && 0 <= h < self.heads() && 0 <= i
                        < self.kd() && 0 <= j < self.vd() ==> #[trigger] traj@[e].at(a, h, i, j)
                        == self.head(*d_out, a, h).state(e)(i, j),
                r.shaped(*self),
                forall|a: int, h: int|
                    0 <= a < self.batch() && 0 <= h < self.heads() ==> #[trigger] r.rows_are(
                        self.head(*d_out, a, h),
                        a,
                        h,
                        end as int,
                    ),
                forall|a: int, h: int|
                    0 <= a < self.batch() && 0 <= h < self.heads() ==> #[trigger] r.state_is(
                        self.head(*d_out, a, h).passed_back(c - 1),
                        self.kd(),
                        self.vd(),
                        a,
                        h,
                    ),
            decreases c,
        {
            c = c - 1;
            proof {
                let (size, p) = (self.chunk_size as int, self.count());
                forward::lemma_chunk_span(p, size, self.tokens(), c as int);
                forward::lemma_chunk_span(p, size, self.tokens(), c + 1);
            }
            let sc = &self.scratch.chunks[c];
            let rows: usize = sc.g_exp.d2;
            let start: usize = c * self.chunk_size;
            let n: usize = if tokens - start < self.chunk_size {
                tokens - start
            } else {
                self.chunk_size
            };
            assert(start + n == end);
            adjoint_all(self, sc, &traj[c], d_out, start, n, rows, &mut r, Ghost(c as int));
            end = start;
        }
        proof {
            if count == 0 {
                forward::lemma_chunk_span(0, self.chunk_size as int, self.tokens(), 0);
            }
            assert forall|a: int, h: int, i: int, j: int|
                0 <= a < self.batch() && 0 <= h < self.heads() && 0 <= i < self.kd() && 0 <= j
                    < self.vd() implies #[trigger] r.d_s.at(a, h, i, j) == self.head(
                *d_out,
                a,
                h,
            ).d_s(i, j) by {
                assert(r.state_is(
                    self.head(*d_out, a, h).passed_back(-1),
                    self.kd(),
                    self.vd(),
                    a,
                    h,
                ));
            }
        }
        r
    }
}

} // verus!
