//! Why the backward pass computes the gradient, in exact arithmetic.

use vstd::prelude::*;

use crate::adjoint::{Adjoint, Replay, Tape};
use crate::algebra;
use crate::autodiff::{ChunkWy, ChunkWyGradients};
use crate::dual;
use crate::dual::Dual;
use crate::equivalence;
use crate::grid;
use crate::grid::Grid;
use crate::locality;
use crate::pairing;
use crate::recurrence;
use crate::recurrence::Head;
use crate::scalar;
use crate::scalar::{ExactScalar, Scalar};
use crate::streams;
use crate::tensor::Tensor4;
use crate::wy;
use crate::wy::{Chunk, Chunking, Pass};

verus! {

/// The numbers of a matrix.
pub open spec fn re<F: Scalar>(a: Grid<Dual<F>>) -> Grid<F> {
    |i: int, j: int| a(i, j).re
}

/// The derivatives of a matrix.
pub open spec fn eps<F: Scalar>(a: Grid<Dual<F>>) -> Grid<F> {
    |i: int, j: int| a(i, j).eps
}

/// The numbers of a chunk.
pub open spec fn values<F: Scalar>(x: Chunk<Dual<F>>) -> Chunk<F> {
    Chunk {
        n: x.n,
        rows: x.rows,
        tile: x.tile,
        kd: x.kd,
        vd: x.vd,
        q: re(x.q),
        k: re(x.k),
        v: re(x.v),
        g: re(x.g),
        b: re(x.b),
        w: re(x.w),
        s: re(x.s),
        scale: x.scale.re,
    }
}

/// What the backward pass sees of a chunk.
pub open spec fn replay_of<F: Scalar>(c: Chunk<F>) -> Replay<F> {
    Replay {
        n: c.n,
        rows: c.rows,
        kd: c.kd,
        vd: c.vd,
        k: c.k,
        v: c.v,
        b: c.b,
        w: c.w,
        e: |r: int, i: int| c.e(r, i),
        qg: |r: int, i: int| c.qg(r, i),
        aqk: |r: int, s: int| c.aqk(r, s),
        m: c.solver(),
        s: c.s,
        scale: c.scale,
    }
}

/// The chunk is padded, no decay between tiles is cut off, and the scale is fixed.
pub open spec fn regular<F: Scalar>(x: Chunk<Dual<F>>) -> bool {
    &&& x.padded()
    &&& x.tiles_decay()
    &&& x.scale.eps == F::nil()
}

/// Derivative of the logarithm of the decay through row `r`.
pub open spec fn slope<F: Scalar>(x: Chunk<Dual<F>>) -> Grid<F> {
    |r: int, i: int| scalar::total(r + 1, |y: int| eps(x.g)(y, i))
}

/// The key-key scores below the diagonal.
pub open spec fn lower<F: Scalar>(x: Chunk<Dual<F>>) -> Grid<Dual<F>> {
    |r: int, y: int|
        if y < r {
            x.kk(r, y)
        } else {
            Dual::nil()
        }
}

/// The query-key scores at and below the diagonal.
pub open spec fn seen<F: Scalar>(x: Chunk<Dual<F>>) -> Grid<Dual<F>> {
    |r: int, y: int|
        if y <= r {
            x.qk(r, y)
        } else {
            Dual::nil()
        }
}

/// The values that the tokens write.
pub open spec fn writes<F: Scalar>(x: Chunk<Dual<F>>) -> Grid<Dual<F>> {
    |r: int, j: int| x.written(r, j)
}

/// The keys, decayed to the end of the chunk.
pub open spec fn kept<F: Scalar>(x: Chunk<Dual<F>>) -> Grid<Dual<F>> {
    |r: int, i: int| (x.k)(r, i).times(x.span(x.n, r, i))
}

/// The decayed queries.
pub open spec fn qg_of<F: Scalar>(x: Chunk<Dual<F>>) -> Grid<Dual<F>> {
    |r: int, i: int| x.qg(r, i)
}

/// The keys with the decay divided out.
pub open spec fn kg_of<F: Scalar>(x: Chunk<Dual<F>>) -> Grid<Dual<F>> {
    |r: int, i: int| x.kg(r, i)
}

/// The decayed gated keys.
pub open spec fn rk_of<F: Scalar>(x: Chunk<Dual<F>>) -> Grid<Dual<F>> {
    |r: int, i: int| x.rhs_k(r, i)
}

/// The gated values.
pub open spec fn rv_of<F: Scalar>(x: Chunk<Dual<F>>) -> Grid<Dual<F>> {
    |r: int, j: int| x.rhs_v(r, j)
}

/// The parts of a product of matrices.
proof fn lemma_prod_parts<F: Scalar>(n: int, a: Grid<Dual<F>>, b: Grid<Dual<F>>, i: int, j: int)
    ensures
        grid::prod(n, a, b)(i, j).re == grid::prod(n, re(a), re(b))(i, j),
        grid::prod(n, a, b)(i, j).eps == scalar::total(
            n,
            |l: int|
                re(a)(i, l).times(eps(b)(l, j)).plus(eps(a)(i, l).times(re(b)(l, j))),
        ),
{
    let f = |l: int| a(i, l).times(b(l, j));
    dual::lemma_total_parts(n, f);
    let g = |l: int| f(l).re;
    let g2 = |l: int| re(a)(i, l).times(re(b)(l, j));
    algebra::lemma_total_eq(n, g, g2);
    let h = |l: int| f(l).eps;
    let h2 = |l: int| re(a)(i, l).times(eps(b)(l, j)).plus(eps(a)(i, l).times(re(b)(l, j)));
    algebra::lemma_total_eq(n, h, h2);
}

/// The derivative of a product of matrices.
proof fn lemma_prod_rule<F: ExactScalar>(
    n: int,
    a: Grid<Dual<F>>,
    b: Grid<Dual<F>>,
    i: int,
    j: int,
)
    ensures
        grid::prod(n, a, b)(i, j).re == grid::prod(n, re(a), re(b))(i, j),
        grid::prod(n, a, b)(i, j).eps == grid::plus(
            grid::prod(n, re(a), eps(b)),
            grid::prod(n, eps(a), re(b)),
        )(i, j),
{
    lemma_prod_parts(n, a, b, i, j);
    let f = |l: int| re(a)(i, l).times(eps(b)(l, j));
    let g = |l: int| eps(a)(i, l).times(re(b)(l, j));
    let h = |l: int| re(a)(i, l).times(eps(b)(l, j)).plus(eps(a)(i, l).times(re(b)(l, j)));
    algebra::lemma_total_plus(n, f, g, h);
}

/// The decays of the numbers of a chunk, and their derivatives.
proof fn lemma_decay_parts<F: Scalar>(x: Chunk<Dual<F>>, r: int, i: int)
    ensures
        x.g_cum(r, i).re == values(x).g_cum(r, i),
        x.g_cum(r, i).eps == slope(x)(r, i),
        x.e(r, i).re == values(x).e(r, i),
        x.e(r, i).eps == values(x).e(r, i).times(slope(x)(r, i)),
{
    let f = |y: int| (x.g)(y, i);
    dual::lemma_total_parts(r + 1, f);
    let (a, a2) = (|y: int| f(y).re, |y: int| (values(x).g)(y, i));
    algebra::lemma_total_eq(r + 1, a, a2);
    let (b, b2) = (|y: int| f(y).eps, |y: int| eps(x.g)(y, i));
    algebra::lemma_total_eq(r + 1, b, b2);
}

/// The numbers of the gated inputs, and their derivatives.
proof fn lemma_input_parts<F: ExactScalar>(x: Chunk<Dual<F>>, r: int, i: int)
    ensures
        x.qg(r, i).re == values(x).qg(r, i),
        x.qg(r, i).eps == re(x.q)(r, i).times(values(x).e(r, i).times(slope(x)(r, i))).plus(
            eps(x.q)(r, i).times(values(x).e(r, i)),
        ),
        x.kg(r, i).re == values(x).kg(r, i),
        x.kg(r, i).eps == re(x.k)(r, i).times(
            values(x).g_cum(r, i).negated().raised().times(slope(x)(r, i).negated()),
        ).plus(eps(x.k)(r, i).times(values(x).g_cum(r, i).negated().raised())),
        x.rhs_k(r, i).re == values(x).rhs_k(r, i),
        x.rhs_k(r, i).eps == values(x).bk(r, i).times(
            values(x).e(r, i).times(slope(x)(r, i)),
        ).plus(
            re(x.b)(r, i).times(eps(x.k)(r, i)).plus(
                eps(x.b)(r, i).times(re(x.k)(r, i)),
            ).times(values(x).e(r, i)),
        ),
        x.rhs_v(r, i).re == values(x).rhs_v(r, i),
        x.rhs_v(r, i).eps == re(x.w)(r, i).times(eps(x.v)(r, i)).plus(
            eps(x.w)(r, i).times(re(x.v)(r, i)),
        ),
{
    lemma_decay_parts(x, r, i);
    Dual::<F>::over_raised((x.k)(r, i), x.g_cum(r, i));
}

/// The numbers of the scores.
proof fn lemma_score_parts<F: ExactScalar>(x: Chunk<Dual<F>>, r: int, y: int)
    ensures
        x.kk(r, y).re == values(x).kk(r, y),
        x.kk(r, y).eps == grid::plus(
            grid::prod_t(x.kd, re(rk_of(x)), eps(kg_of(x))),
            grid::prod_t(x.kd, eps(rk_of(x)), re(kg_of(x))),
        )(r, y),
        x.qk(r, y).re == values(x).qk(r, y),
        x.qk(r, y).eps == grid::plus(
            grid::prod_t(x.kd, re(qg_of(x)), eps(kg_of(x))),
            grid::prod_t(x.kd, eps(qg_of(x)), re(kg_of(x))),
        )(r, y),
{
    let c = values(x);
    let f = |i: int| x.rhs_k(r, i).times(x.kg(y, i));
    dual::lemma_total_parts(x.kd, f);
    let (a, a2) = (|i: int| f(i).re, |i: int| c.rhs_k(r, i).times(c.kg(y, i)));
    assert forall|i: int| 0 <= i < x.kd implies #[trigger] a(i) == a2(i) by {
        lemma_input_parts(x, r, i);
        lemma_input_parts(x, y, i);
    }
    algebra::lemma_total_eq(x.kd, a, a2);
    let p = |i: int| re(rk_of(x))(r, i).times(eps(kg_of(x))(y, i));
    let q = |i: int| eps(rk_of(x))(r, i).times(re(kg_of(x))(y, i));
    let h = |i: int| f(i).eps;
    assert forall|i: int| 0 <= i < x.kd implies #[trigger] h(i) == p(i).plus(q(i)) by {}
    algebra::lemma_total_plus(x.kd, p, q, h);
    let f = |i: int| x.qg(r, i).times(x.kg(y, i));
    dual::lemma_total_parts(x.kd, f);
    let (a, a2) = (|i: int| f(i).re, |i: int| c.qg(r, i).times(c.kg(y, i)));
    assert forall|i: int| 0 <= i < x.kd implies #[trigger] a(i) == a2(i) by {
        lemma_input_parts(x, r, i);
        lemma_input_parts(x, y, i);
    }
    algebra::lemma_total_eq(x.kd, a, a2);
    let p = |i: int| re(qg_of(x))(r, i).times(eps(kg_of(x))(y, i));
    let q = |i: int| eps(qg_of(x))(r, i).times(re(kg_of(x))(y, i));
    let h = |i: int| f(i).eps;
    assert forall|i: int| 0 <= i < x.kd implies #[trigger] h(i) == p(i).plus(q(i)) by {}
    algebra::lemma_total_plus(x.kd, p, q, h);
}

/// The written values solve the triangular system, as matrices.
proof fn lemma_writes_solve<F: ExactScalar>(x: Chunk<Dual<F>>, r: int, j: int)
    requires
        0 <= r < x.rows,
    ensures
        x.written(r, j) == x.rhs_v(r, j).minus(grid::prod(x.kd, rk_of(x), x.s)(r, j)).minus(
            grid::prod(x.rows, lower(x), writes(x))(r, j),
        ),
{
    equivalence::lemma_written_solves(x, r, j);
    let f = |i: int| x.rhs_k(r, i).times((x.s)(i, j));
    let f2 = |i: int| rk_of(x)(r, i).times((x.s)(i, j));
    algebra::lemma_total_eq(x.kd, f, f2);
    let g = |y: int| x.kk(r, y).times(x.written(y, j));
    let g2 = |y: int| lower(x)(r, y).times(writes(x)(y, j));
    algebra::lemma_total_eq(r, g, g2);
    assert forall|y: int| r <= y < x.rows implies #[trigger] g2(y) == Dual::<F>::nil() by {
        algebra::lemma_times_nil(writes(x)(y, j));
    }
    algebra::lemma_total_cut(x.rows, r, g2);
}

/// The derivatives of the written values solve the differentiated system.
proof fn lemma_writes_slope<F: ExactScalar>(x: Chunk<Dual<F>>, r: int, j: int)
    requires
        0 <= r < x.rows,
    ensures
        eps(writes(x))(r, j).plus(grid::prod(x.rows, re(lower(x)), eps(writes(x)))(r, j))
            == eps(rv_of(x))(r, j).minus(
            grid::prod(x.kd, re(rk_of(x)), eps(x.s))(r, j).plus(
                grid::prod(x.kd, eps(rk_of(x)), re(x.s))(r, j),
            ),
        ).minus(grid::prod(x.rows, eps(lower(x)), re(writes(x)))(r, j)),
{
    lemma_writes_solve(x, r, j);
    lemma_prod_rule(x.kd, rk_of(x), x.s, r, j);
    lemma_prod_rule(x.rows, lower(x), writes(x), r, j);
    let t = eps(rv_of(x))(r, j).minus(
        grid::prod(x.kd, re(rk_of(x)), eps(x.s))(r, j).plus(
            grid::prod(x.kd, eps(rk_of(x)), re(x.s))(r, j),
        ),
    );
    let p = grid::prod(x.rows, re(lower(x)), eps(writes(x)))(r, j);
    let q = grid::prod(x.rows, eps(lower(x)), re(writes(x)))(r, j);
    let v = eps(writes(x))(r, j);
    assert(v == t.minus(p.plus(q)));
    // v = t - (p + q), so v + p = t - q
    F::plus_commutes(p, q);
    algebra::lemma_minus_minus(t, q, p);
    algebra::lemma_minus_plus(t.minus(q), p);
}

/// The written values of the numbers are the numbers of the written values.
proof fn lemma_writes_value<F: ExactScalar>(x: Chunk<Dual<F>>, r: int, j: int)
    requires
        0 <= r,
    ensures
        x.written(r, j).re == values(x).written(r, j),
    decreases r,
{
    let c = values(x);
    equivalence::lemma_written_solves(x, r, j);
    equivalence::lemma_written_solves(c, r, j);
    lemma_input_parts(x, r, j);
    let f = |i: int| x.rhs_k(r, i).times((x.s)(i, j));
    dual::lemma_total_parts(x.kd, f);
    let (a, a2) = (|i: int| f(i).re, |i: int| c.rhs_k(r, i).times((c.s)(i, j)));
    assert forall|i: int| 0 <= i < x.kd implies #[trigger] a(i) == a2(i) by {
        lemma_input_parts(x, r, i);
    }
    algebra::lemma_total_eq(x.kd, a, a2);
    let g = |y: int| x.kk(r, y).times(x.written(y, j));
    dual::lemma_total_parts(r, g);
    let (b, b2) = (|y: int| g(y).re, |y: int| c.kk(r, y).times(c.written(y, j)));
    assert forall|y: int| 0 <= y < r implies #[trigger] b(y) == b2(y) by {
        lemma_score_parts(x, r, y);
        lemma_writes_value(x, y, j);
    }
    algebra::lemma_total_eq(r, b, b2);
}

/// The derivative of the output of row `t`.
proof fn lemma_output_slope<F: ExactScalar>(x: Chunk<Dual<F>>, t: int, j: int)
    requires
        0 <= t < x.rows,
        x.scale.eps == F::nil(),
    ensures
        x.head().output(x.s, t, j).eps == grid::scaled(
            grid::plus(
                grid::plus(
                    grid::prod(x.kd, re(qg_of(x)), eps(x.s)),
                    grid::prod(x.kd, eps(qg_of(x)), re(x.s)),
                ),
                grid::plus(
                    grid::prod(x.rows, re(seen(x)), eps(writes(x))),
                    grid::prod(x.rows, eps(seen(x)), re(writes(x))),
                ),
            ),
            x.scale.re,
        )(t, j),
{
    equivalence::lemma_output_form(x, t, j);
    let f = |i: int| x.qg(t, i).times((x.s)(i, j));
    let f2 = |i: int| qg_of(x)(t, i).times((x.s)(i, j));
    algebra::lemma_total_eq(x.kd, f, f2);
    let g = |r: int| x.qk(t, r).times(x.written(r, j));
    let g2 = |r: int| seen(x)(t, r).times(writes(x)(r, j));
    algebra::lemma_total_eq(t + 1, g, g2);
    assert forall|y: int| t + 1 <= y < x.rows implies #[trigger] g2(y) == Dual::<F>::nil() by {
        algebra::lemma_times_nil(writes(x)(y, j));
    }
    algebra::lemma_total_cut(x.rows, t + 1, g2);
    lemma_prod_rule(x.kd, qg_of(x), x.s, t, j);
    lemma_prod_rule(x.rows, seen(x), writes(x), t, j);
    let y = grid::prod(x.kd, qg_of(x), x.s)(t, j).plus(
        grid::prod(x.rows, seen(x), writes(x))(t, j),
    );
    assert(x.head().output(x.s, t, j) == y.times(x.scale));
    algebra::lemma_times_nil(y.re);
    algebra::lemma_nil_plus(y.eps.times(x.scale.re));
}

/// The decay through the last token, in every column.
pub open spec fn last_of<F: Scalar>(c: Chunk<F>) -> Grid<F> {
    |i: int, j: int| c.e(c.n - 1, i)
}

/// The slope of the decay through the last token, in every column.
pub open spec fn last_slope<F: Scalar>(x: Chunk<Dual<F>>) -> Grid<F> {
    |i: int, j: int| slope(x)(x.n - 1, i)
}

/// The derivative of the state after the chunk.
proof fn lemma_state_slope<F: ExactScalar>(x: Chunk<Dual<F>>, i: int, j: int)
    requires
        x.padded(),
    ensures
        x.head().run(x.s, 0, x.n)(i, j).eps == grid::plus(
            grid::plus(
                grid::times(re(x.s), grid::times(last_of(values(x)), last_slope(x))),
                grid::times(eps(x.s), last_of(values(x))),
            ),
            grid::plus(
                grid::t_prod(x.rows, re(kept(x)), eps(writes(x))),
                grid::t_prod(x.rows, eps(kept(x)), re(writes(x))),
            ),
        )(i, j),
{
    equivalence::lemma_state_form(x, x.n, i, j);
    lemma_decay_parts(x, x.n - 1, i);
    let f = |r: int| (x.k)(r, i).times(x.span(x.n, r, i)).times(x.written(r, j));
    assert forall|r: int| x.n <= r < x.rows implies #[trigger] f(r) == Dual::<F>::nil() by {
        assert((x.k)(r, i) == Dual::<F>::nil());
        algebra::lemma_times_nil(x.span(x.n, r, i));
        algebra::lemma_times_nil(x.written(r, j));
    }
    algebra::lemma_total_cut(x.rows, x.n, f);
    dual::lemma_total_parts(x.rows, f);
    let p = |r: int| re(kept(x))(r, i).times(eps(writes(x))(r, j));
    let q = |r: int| eps(kept(x))(r, i).times(re(writes(x))(r, j));
    let h = |r: int| f(r).eps;
    assert forall|r: int| 0 <= r < x.rows implies #[trigger] h(r) == p(r).plus(q(r)) by {}
    algebra::lemma_total_plus(x.rows, p, q, h);
    assert(x.cum(x.n, i).raised() == x.e(x.n - 1, i));
}

/// The inverse also undoes `I + akk` from the left.
proof fn lemma_left_inverse<F: ExactScalar>(c: Chunk<F>, x: int, r: int)
    requires
        c.tiles_decay(),
        0 <= x < c.rows,
        0 <= r < c.rows,
    ensures
        c.m_inv(x, r).plus(
            scalar::total(
                c.rows,
                |z: int|
                    c.m_inv(x, z).times(
                        if r < z {
                            c.kk(z, r)
                        } else {
                            F::nil()
                        },
                    ),
            ),
        ) == (if x == r {
            F::unit()
        } else {
            F::nil()
        }),
    decreases x,
{
    let a = |y: int, z: int| c.akk(y, z);
    let low = |z: int|
        if r < z {
            c.kk(z, r)
        } else {
            F::nil()
        };
    let one = |z: int|
        if z == r {
            F::unit()
        } else {
            F::nil()
        };
    let col = |z: int| one(z).plus(low(z));
    // The inverse applied to column r of I + akk, row by row.
    let solved = |y: int|
        scalar::total(c.rows, |z: int| Chunk::inverse(a, y, z).times(col(z)));
    let parts = |y: int|
        c.m_inv(y, r).plus(scalar::total(c.rows, |z: int| c.m_inv(y, z).times(low(z))));
    assert forall|y: int| 0 <= y < c.rows implies #[trigger] solved(y) == parts(y) by {
        let whole = |z: int| Chunk::inverse(a, y, z).times(col(z));
        let p = |z: int| c.m_inv(y, z).times(one(z));
        let q = |z: int| c.m_inv(y, z).times(low(z));
        assert forall|z: int| 0 <= z < c.rows implies #[trigger] whole(z) == p(z).plus(q(z)) by {
            F::times_distributes(c.m_inv(y, z), one(z), low(z));
        }
        algebra::lemma_total_plus(c.rows, p, q, whole);
        assert forall|z: int| 0 <= z < c.rows && z != r implies #[trigger] p(z) == F::nil() by {
            algebra::lemma_times_nil(c.m_inv(y, z));
        }
        algebra::lemma_total_single(c.rows, r, p);
        F::times_unit(c.m_inv(y, r));
    }
    equivalence::lemma_inverse_solves(a, col, c.rows, x);
    let terms = |y: int|
        a(x, y).times(
            scalar::total(c.rows, |z: int| Chunk::inverse(a, y, z).times(col(z))),
        );
    let only = |y: int| a(x, y).times(one(y));
    assert forall|y: int| 0 <= y < x implies #[trigger] terms(y) == only(y) by {
        lemma_left_inverse(c, y, r);
        assert(solved(y) == parts(y));
        let q = |z: int| c.m_inv(y, z).times(low(z));
        let q2 = |z: int|
            c.m_inv(y, z).times(
                if r < z {
                    c.kk(z, r)
                } else {
                    F::nil()
                },
            );
        algebra::lemma_total_eq(c.rows, q, q2);
    }
    algebra::lemma_total_eq(x, terms, only);
    assert forall|y: int| 0 <= y < x && y != r implies #[trigger] only(y) == F::nil() by {
        algebra::lemma_times_nil(a(x, y));
    }
    assert(solved(x) == parts(x));
    if r < x {
        algebra::lemma_total_single(x, r, only);
        F::times_unit(a(x, r));
        equivalence::lemma_scores(c, x, r);
        algebra::lemma_nil_plus(c.kk(x, r));
        algebra::lemma_minus_self(c.kk(x, r));
    } else {
        algebra::lemma_total_nil(x, only);
        F::plus_nil(one(x));
        algebra::lemma_minus_self(one(x));
    }
    let q = |z: int| c.m_inv(x, z).times(low(z));
    let q2 = |z: int|
        c.m_inv(x, z).times(
            if r < z {
                c.kk(z, r)
            } else {
                F::nil()
            },
        );
    algebra::lemma_total_eq(c.rows, q, q2);
}

/// `sum_x (sum_r m(x, r) a(r)) b(x) = sum_r a(r) (sum_x m(x, r) b(x))`.
proof fn lemma_bilinear<F: ExactScalar>(
    rows: int,
    cols: int,
    m: Grid<F>,
    a: spec_fn(int) -> F,
    b: spec_fn(int) -> F,
)
    ensures
        scalar::total(
            rows,
            |x: int| scalar::total(cols, |r: int| m(x, r).times(a(r))).times(b(x)),
        ) == scalar::total(
            cols,
            |r: int| a(r).times(scalar::total(rows, |x: int| m(x, r).times(b(x)))),
        ),
{
    let cell = |x: int, r: int| m(x, r).times(a(r)).times(b(x));
    let f = |x: int| scalar::total(cols, |r: int| m(x, r).times(a(r))).times(b(x));
    let f2 = |x: int| scalar::total(cols, |r: int| cell(x, r));
    assert forall|x: int| 0 <= x < rows implies #[trigger] f(x) == f2(x) by {
        let p = |r: int| m(x, r).times(a(r));
        let h = |r: int| cell(x, r);
        algebra::lemma_total_times(cols, p, b(x), h);
    }
    algebra::lemma_total_eq(rows, f, f2);
    algebra::lemma_total_exchange(rows, cols, cell);
    let g = |r: int| a(r).times(scalar::total(rows, |x: int| m(x, r).times(b(x))));
    let g2 = |r: int| scalar::total(rows, |x: int| cell(x, r));
    assert forall|r: int| 0 <= r < cols implies #[trigger] g(r) == g2(r) by {
        let p = |x: int| m(x, r).times(b(x));
        let h = |x: int| cell(x, r);
        assert forall|x: int| 0 <= x < rows implies #[trigger] h(x) == a(r).times(p(x)) by {
            F::times_commutes(m(x, r), a(r));
            F::times_associates(a(r), m(x, r), b(x));
        }
        algebra::lemma_times_total(rows, a(r), p, h);
    }
    algebra::lemma_total_eq(cols, g, g2);
}

/// With `y = m^T d`: `d = y + akk^T y`.
proof fn lemma_solve_adjoint<F: ExactScalar>(x: Chunk<Dual<F>>, d: Grid<F>, r: int, j: int)
    requires
        values(x).tiles_decay(),
        0 <= r < x.rows,
    ensures
        ({
            let y = grid::t_prod(x.rows, values(x).solver(), d);
            d(r, j) == y(r, j).plus(grid::t_prod(x.rows, re(lower(x)), y)(r, j))
        }),
{
    let c = values(x);
    let m = c.solver();
    let y = grid::t_prod(x.rows, m, d);
    let low = |z: int| re(lower(x))(z, r);
    // sum_z low(z) (sum_w m(w, z) d(w)) = sum_w (sum_z m(w, z) low(z)) d(w)
    let b = |w: int| d(w, j);
    lemma_bilinear(x.rows, x.rows, m, low, b);
    let lhs = |w: int| scalar::total(x.rows, |z: int| m(w, z).times(low(z))).times(b(w));
    let rhs = |z: int| low(z).times(scalar::total(x.rows, |w: int| m(w, z).times(b(w))));
    let shown = |z: int| re(lower(x))(z, r).times(y(z, j));
    assert forall|z: int| 0 <= z < x.rows implies #[trigger] shown(z) == rhs(z) by {
        let p = |w: int| m(w, z).times(d(w, j));
        let p2 = |w: int| m(w, z).times(b(w));
        algebra::lemma_total_eq(x.rows, p, p2);
    }
    algebra::lemma_total_eq(x.rows, shown, rhs);
    // Together with y(r), the rows of m (I + akk) = I.
    let first = |w: int| m(w, r).times(d(w, j));
    let one = |w: int|
        (if w == r {
            F::unit()
        } else {
            F::nil()
        }).times(d(w, j));
    assert forall|w: int| 0 <= w < x.rows implies #[trigger] one(w) == first(w).plus(lhs(w)) by {
        lemma_left_inverse(c, w, r);
        let p = |z: int| m(w, z).times(low(z));
        let p2 = |z: int|
            c.m_inv(w, z).times(
                if r < z {
                    c.kk(z, r)
                } else {
                    F::nil()
                },
            );
        assert forall|z: int| 0 <= z < x.rows implies #[trigger] p(z) == p2(z) by {
            lemma_score_parts(x, z, r);
        }
        algebra::lemma_total_eq(x.rows, p, p2);
        algebra::lemma_plus_times(m(w, r), scalar::total(x.rows, p), d(w, j));
    }
    algebra::lemma_total_plus(x.rows, first, lhs, one);
    assert forall|w: int| 0 <= w < x.rows && w != r implies #[trigger] one(w) == F::nil() by {
        algebra::lemma_times_nil(d(w, j));
    }
    algebra::lemma_total_single(x.rows, r, one);
    algebra::lemma_unit_times(d(r, j));
}

/// The derivatives of the outputs.
pub open spec fn output_slopes<F: Scalar>(x: Chunk<Dual<F>>) -> Grid<F> {
    |t: int, j: int| x.head().output(x.s, t, j).eps
}

/// The derivatives of the state after the chunk.
pub open spec fn state_slopes<F: Scalar>(x: Chunk<Dual<F>>) -> Grid<F> {
    |i: int, j: int| x.head().run(x.s, 0, x.n)(i, j).eps
}

/// The derivatives of the outputs, weighted by `d`.
proof fn lemma_pair_outputs<F: ExactScalar>(x: Chunk<Dual<F>>, d: Grid<F>)
    requires
        x.scale.eps == F::nil(),
    ensures
        ({
            let ds = grid::scaled(d, x.scale.re);
            pairing::pair(x.rows, x.vd, d, output_slopes(x)) == pairing::pair(
                x.kd,
                x.vd,
                grid::t_prod(x.rows, re(qg_of(x)), ds),
                eps(x.s),
            ).plus(
                pairing::pair(x.rows, x.kd, grid::prod_t(x.vd, ds, re(x.s)), eps(qg_of(x))),
            ).plus(
                pairing::pair(
                    x.rows,
                    x.vd,
                    grid::t_prod(x.rows, re(seen(x)), ds),
                    eps(writes(x)),
                ).plus(
                    pairing::pair(
                        x.rows,
                        x.rows,
                        grid::prod_t(x.vd, ds, re(writes(x))),
                        eps(seen(x)),
                    ),
                ),
            )
        }),
{
    let ds = grid::scaled(d, x.scale.re);
    let p1 = grid::prod(x.kd, re(qg_of(x)), eps(x.s));
    let p2 = grid::prod(x.kd, eps(qg_of(x)), re(x.s));
    let p3 = grid::prod(x.rows, re(seen(x)), eps(writes(x)));
    let p4 = grid::prod(x.rows, eps(seen(x)), re(writes(x)));
    let y = grid::plus(grid::plus(p1, p2), grid::plus(p3, p4));
    assert forall|t: int, j: int| 0 <= t < x.rows && 0 <= j < x.vd implies #[trigger] output_slopes(
        x,
    )(t, j) == grid::scaled(y, x.scale.re)(t, j) by {
        lemma_output_slope(x, t, j);
    }
    pairing::lemma_pair_eq(
        x.rows,
        x.vd,
        d,
        output_slopes(x),
        d,
        grid::scaled(y, x.scale.re),
    );
    pairing::lemma_pair_scaled(x.rows, x.vd, d, y, x.scale.re);
    pairing::lemma_pair_plus(x.rows, x.vd, ds, grid::plus(p1, p2), grid::plus(p3, p4));
    pairing::lemma_pair_plus(x.rows, x.vd, ds, p1, p2);
    pairing::lemma_pair_plus(x.rows, x.vd, ds, p3, p4);
    pairing::lemma_pair_prod_right(x.rows, x.kd, x.vd, ds, re(qg_of(x)), eps(x.s));
    pairing::lemma_pair_prod_left(x.rows, x.kd, x.vd, ds, eps(qg_of(x)), re(x.s));
    pairing::lemma_pair_prod_right(x.rows, x.rows, x.vd, ds, re(seen(x)), eps(writes(x)));
    pairing::lemma_pair_prod_left(x.rows, x.rows, x.vd, ds, eps(seen(x)), re(writes(x)));
}

/// The derivatives of the state after the chunk, weighted by `d`.
proof fn lemma_pair_state<F: ExactScalar>(x: Chunk<Dual<F>>, d: Grid<F>)
    requires
        x.padded(),
    ensures
        pairing::pair(x.kd, x.vd, d, state_slopes(x)) == pairing::pair(
            x.kd,
            x.vd,
            grid::times(d, re(x.s)),
            grid::times(last_of(values(x)), last_slope(x)),
        ).plus(
            pairing::pair(x.kd, x.vd, grid::times(d, last_of(values(x))), eps(x.s)),
        ).plus(
            pairing::pair(x.rows, x.vd, grid::prod(x.kd, re(kept(x)), d), eps(writes(x))).plus(
                pairing::pair(
                    x.rows,
                    x.kd,
                    grid::prod_t(x.vd, re(writes(x)), d),
                    eps(kept(x)),
                ),
            ),
        ),
{
    let last = last_of(values(x));
    let p1 = grid::times(re(x.s), grid::times(last, last_slope(x)));
    let p2 = grid::times(eps(x.s), last);
    let p3 = grid::t_prod(x.rows, re(kept(x)), eps(writes(x)));
    let p4 = grid::t_prod(x.rows, eps(kept(x)), re(writes(x)));
    let y = grid::plus(grid::plus(p1, p2), grid::plus(p3, p4));
    assert forall|i: int, j: int| 0 <= i < x.kd && 0 <= j < x.vd implies #[trigger] state_slopes(
        x,
    )(i, j) == y(i, j) by {
        lemma_state_slope(x, i, j);
    }
    pairing::lemma_pair_eq(x.kd, x.vd, d, state_slopes(x), d, y);
    pairing::lemma_pair_plus(x.kd, x.vd, d, grid::plus(p1, p2), grid::plus(p3, p4));
    pairing::lemma_pair_plus(x.kd, x.vd, d, p1, p2);
    pairing::lemma_pair_plus(x.kd, x.vd, d, p3, p4);
    pairing::lemma_pair_times(x.kd, x.vd, d, re(x.s), grid::times(last, last_slope(x)));
    let q2 = grid::times(last, eps(x.s));
    assert forall|i: int, j: int| 0 <= i < x.kd && 0 <= j < x.vd implies #[trigger] p2(i, j) == q2(
        i,
        j,
    ) by {
        F::times_commutes(eps(x.s)(i, j), last(i, j));
    }
    pairing::lemma_pair_eq(x.kd, x.vd, d, p2, d, q2);
    pairing::lemma_pair_times(x.kd, x.vd, d, last, eps(x.s));
    pairing::lemma_pair_t_prod(x.kd, x.rows, x.vd, d, re(kept(x)), eps(writes(x)));
    pairing::lemma_pair_t_prod(x.kd, x.rows, x.vd, d, eps(kept(x)), re(writes(x)));
}

/// The derivatives of the written values, weighted by `d`.
proof fn lemma_pair_writes<F: ExactScalar>(x: Chunk<Dual<F>>, d: Grid<F>)
    requires
        values(x).tiles_decay(),
    ensures
        ({
            let y = grid::t_prod(x.rows, values(x).solver(), d);
            pairing::pair(x.rows, x.vd, d, eps(writes(x))) == pairing::pair(
                x.rows,
                x.vd,
                y,
                eps(rv_of(x)),
            ).plus(
                pairing::pair(
                    x.kd,
                    x.vd,
                    grid::t_prod(x.rows, re(rk_of(x)), y),
                    eps(x.s),
                ).negated().plus(
                    pairing::pair(
                        x.rows,
                        x.kd,
                        grid::prod_t(x.vd, y, re(x.s)),
                        eps(rk_of(x)),
                    ).negated(),
                ),
            ).plus(
                pairing::pair(
                    x.rows,
                    x.rows,
                    grid::prod_t(x.vd, y, re(writes(x))),
                    eps(lower(x)),
                ).negated(),
            )
        }),
{
    let (r, kd, vd) = (x.rows, x.kd, x.vd);
    let y = grid::t_prod(r, values(x).solver(), d);
    let w = eps(writes(x));
    let low = re(lower(x));
    // <d, w> = <y + low^T y, w> = <y, w + low w>
    let dd = grid::plus(y, grid::t_prod(r, low, y));
    assert forall|i: int, j: int| 0 <= i < r && 0 <= j < vd implies #[trigger] d(i, j) == dd(
        i,
        j,
    ) by {
        lemma_solve_adjoint(x, d, i, j);
    }
    pairing::lemma_pair_eq(r, vd, d, w, dd, w);
    pairing::lemma_plus_pair(r, vd, y, grid::t_prod(r, low, y), w);
    pairing::lemma_pair_prod_right(r, r, vd, y, low, w);
    let lw = grid::prod(r, low, w);
    pairing::lemma_pair_plus(r, vd, y, w, lw);
    // w + low w is what the differentiated system says.
    let p2 = grid::prod(kd, re(rk_of(x)), eps(x.s));
    let p3 = grid::prod(kd, eps(rk_of(x)), re(x.s));
    let p4 = grid::prod(r, eps(lower(x)), re(writes(x)));
    let t = grid::minus(eps(rv_of(x)), grid::plus(p2, p3));
    let rhs = grid::minus(t, p4);
    assert forall|i: int, j: int| 0 <= i < r && 0 <= j < vd implies #[trigger] grid::plus(w, lw)(
        i,
        j,
    ) == rhs(i, j) by {
        lemma_writes_slope(x, i, j);
    }
    pairing::lemma_pair_eq(r, vd, y, grid::plus(w, lw), y, rhs);
    pairing::lemma_pair_minus(r, vd, y, t, p4);
    pairing::lemma_pair_minus(r, vd, y, eps(rv_of(x)), grid::plus(p2, p3));
    pairing::lemma_pair_plus(r, vd, y, p2, p3);
    algebra::lemma_negated_plus(
        pairing::pair(r, vd, y, p2),
        pairing::pair(r, vd, y, p3),
    );
    pairing::lemma_pair_prod_right(r, kd, vd, y, re(rk_of(x)), eps(x.s));
    pairing::lemma_pair_prod_left(r, kd, vd, y, eps(rk_of(x)), re(x.s));
    pairing::lemma_pair_prod_left(r, r, vd, y, eps(lower(x)), re(writes(x)));
}

/// The derivatives of scores, weighted by `d` under a mask.
proof fn lemma_pair_scores<F: ExactScalar>(
    x: Chunk<Dual<F>>,
    d: Grid<F>,
    mask: Grid<F>,
    scores: Grid<Dual<F>>,
    left: Grid<Dual<F>>,
)
    requires
        forall|r: int, y: int|
            0 <= r < x.rows && 0 <= y < x.rows ==> #[trigger] eps(scores)(r, y) == mask(r, y).times(
                grid::plus(
                    grid::prod_t(x.kd, re(left), eps(kg_of(x))),
                    grid::prod_t(x.kd, eps(left), re(kg_of(x))),
                )(r, y),
            ),
    ensures
        ({
            let dm = grid::times(d, mask);
            pairing::pair(x.rows, x.rows, d, eps(scores)) == pairing::pair(
                x.rows,
                x.kd,
                grid::prod(x.rows, dm, re(kg_of(x))),
                eps(left),
            ).plus(
                pairing::pair(
                    x.rows,
                    x.kd,
                    grid::t_prod(x.rows, dm, re(left)),
                    eps(kg_of(x)),
                ),
            )
        }),
{
    let (r, kd) = (x.rows, x.kd);
    let dm = grid::times(d, mask);
    let p1 = grid::prod_t(kd, re(left), eps(kg_of(x)));
    let p2 = grid::prod_t(kd, eps(left), re(kg_of(x)));
    let y = grid::plus(p1, p2);
    pairing::lemma_pair_eq(r, r, d, eps(scores), d, grid::times(mask, y));
    pairing::lemma_pair_times(r, r, d, mask, y);
    pairing::lemma_pair_plus(r, r, dm, p1, p2);
    pairing::lemma_pair_prod_t(r, kd, r, dm, re(left), eps(kg_of(x)));
    pairing::lemma_pair_prod_t(r, kd, r, dm, eps(left), re(kg_of(x)));
    F::plus_commutes(pairing::pair(r, r, dm, p1), pairing::pair(r, r, dm, p2));
}

/// A number in front of one factor of a product.
proof fn lemma_scaled_products<F: ExactScalar>(n: int, a: Grid<F>, b: Grid<F>, c: F, i: int, j: int)
    ensures
        grid::prod_t(n, grid::scaled(a, c), b)(i, j) == grid::prod_t(n, a, b)(i, j).times(c),
        grid::t_prod(n, a, grid::scaled(b, c))(i, j) == grid::t_prod(n, a, b)(i, j).times(c),
        grid::t_prod(n, grid::scaled(a, c), b)(i, j) == grid::t_prod(n, a, b)(i, j).times(c),
{
    let f = |l: int| a(i, l).times(b(j, l));
    let h = |l: int| grid::scaled(a, c)(i, l).times(b(j, l));
    assert forall|l: int| 0 <= l < n implies #[trigger] h(l) == f(l).times(c) by {
        algebra::lemma_times_rotate(a(i, l), c, b(j, l));
    }
    algebra::lemma_total_times(n, f, c, h);
    let f = |l: int| a(l, i).times(b(l, j));
    let h = |l: int| a(l, i).times(grid::scaled(b, c)(l, j));
    assert forall|l: int| 0 <= l < n implies #[trigger] h(l) == f(l).times(c) by {
        F::times_associates(a(l, i), b(l, j), c);
    }
    algebra::lemma_total_times(n, f, c, h);
    let h = |l: int| grid::scaled(a, c)(l, i).times(b(l, j));
    assert forall|l: int| 0 <= l < n implies #[trigger] h(l) == f(l).times(c) by {
        algebra::lemma_times_rotate(a(l, i), c, b(l, j));
    }
    algebra::lemma_total_times(n, f, c, h);
}

/// A sign in front of the first factor of a product.
proof fn lemma_negated_products<F: ExactScalar>(n: int, a: Grid<F>, b: Grid<F>, i: int, j: int)
    ensures
        grid::prod(n, grid::negated(a), b)(i, j) == grid::prod(n, a, b)(i, j).negated(),
        grid::t_prod(n, grid::negated(a), b)(i, j) == grid::t_prod(n, a, b)(i, j).negated(),
        grid::t_prod(n, a, grid::negated(b))(i, j) == grid::t_prod(n, a, b)(i, j).negated(),
{
    let f = |l: int| a(i, l).times(b(l, j));
    let h = |l: int| grid::negated(a)(i, l).times(b(l, j));
    assert forall|l: int| 0 <= l < n implies #[trigger] h(l) == f(l).negated() by {
        algebra::lemma_negated_times(a(i, l), b(l, j));
    }
    algebra::lemma_total_negated(n, f, h);
    let f = |l: int| a(l, i).times(b(l, j));
    let h = |l: int| grid::negated(a)(l, i).times(b(l, j));
    assert forall|l: int| 0 <= l < n implies #[trigger] h(l) == f(l).negated() by {
        algebra::lemma_negated_times(a(l, i), b(l, j));
    }
    algebra::lemma_total_negated(n, f, h);
    let h = |l: int| a(l, i).times(grid::negated(b)(l, j));
    assert forall|l: int| 0 <= l < n implies #[trigger] h(l) == f(l).negated() by {
        algebra::lemma_negated_times(a(l, i), b(l, j));
    }
    algebra::lemma_total_negated(n, f, h);
}

/// The tiles of the numbers decay where those of the chunk do.
proof fn lemma_values_regular<F: ExactScalar>(x: Chunk<Dual<F>>)
    requires
        regular(x),
    ensures
        values(x).padded(),
        values(x).tiles_decay(),
{
    let c = values(x);
    assert forall|r: int, s: int, i: int|
        c.n > c.tile && 0 <= s <= r < c.rows && 0 <= i < c.kd implies #[trigger] c.gap(
        r,
        s,
        i,
    ).below(
        F::nil(),
    ) by {
        let (p, q) = (r / x.tile, s / x.tile);
        lemma_decay_parts(x, p * x.tile - 1, i);
        lemma_decay_parts(x, q * x.tile - 1, i);
        assert(x.gap(r, s, i).below(Dual::nil()));
    }
    assert forall|r: int, i: int| c.n <= r < c.rows implies #[trigger] (c.k)(r, i)
        == F::nil() by {
        assert((x.k)(r, i) == Dual::<F>::nil());
    }
}

/// The parts of the gated inputs, as matrices.
proof fn lemma_input_grids<F: ExactScalar>(x: Chunk<Dual<F>>)
    ensures
        pairing::agree(x.rows, x.kd, re(qg_of(x)), |r: int, i: int| values(x).qg(r, i)),
        pairing::agree(x.rows, x.kd, re(kg_of(x)), |r: int, i: int| values(x).kg(r, i)),
        pairing::agree(x.rows, x.kd, re(rk_of(x)), |r: int, i: int| values(x).rhs_k(r, i)),
        pairing::agree(x.rows, x.vd, re(rv_of(x)), |r: int, i: int| values(x).rhs_v(r, i)),
{
    assert forall|r: int, i: int| true implies #[trigger] re(qg_of(x))(r, i) == values(x).qg(
        r,
        i,
    ) && re(kg_of(x))(r, i) == values(x).kg(r, i) && re(rk_of(x))(r, i) == values(x).rhs_k(r, i)
        && re(rv_of(x))(r, i) == values(x).rhs_v(r, i) by {
        lemma_input_parts(x, r, i);
    }
    assert forall|r: int, i: int| 0 <= r < x.rows && 0 <= i < x.kd implies #[trigger] re(kg_of(x))(
        r,
        i,
    ) == values(x).kg(r, i) by {
        assert(re(qg_of(x))(r, i) == values(x).qg(r, i));
    }
    assert forall|r: int, i: int| 0 <= r < x.rows && 0 <= i < x.kd implies #[trigger] re(rk_of(x))(
        r,
        i,
    ) == values(x).rhs_k(r, i) by {
        assert(re(qg_of(x))(r, i) == values(x).qg(r, i));
    }
    assert forall|r: int, i: int| 0 <= r < x.rows && 0 <= i < x.vd implies #[trigger] re(rv_of(x))(
        r,
        i,
    ) == values(x).rhs_v(r, i) by {
        assert(re(qg_of(x))(r, i) == values(x).qg(r, i));
    }
}

/// What the backward pass derives again is what the forward pass computed.
proof fn lemma_replay_grids<F: ExactScalar>(x: Chunk<Dual<F>>)
    requires
        regular(x),
    ensures
        ({
            let c = replay_of(values(x)).exports();
            &&& pairing::agree(x.rows, x.vd, c.v_new(), re(writes(x)))
            &&& pairing::agree(x.rows, x.kd, grid::times(c.decay(), c.k), re(kept(x)))
            &&& pairing::agree(
                x.rows,
                x.kd,
                c.decay(),
                |r: int, i: int| values(x).span(x.n, r, i),
            )
            &&& pairing::agree(x.rows, x.rows, c.aqk, grid::scaled(re(seen(x)), x.scale.re))
            &&& pairing::agree(x.rows, x.kd, c.rhs_k(), re(rk_of(x)))
            &&& pairing::agree(x.rows, x.kd, c.kg(), re(kg_of(x)))
            &&& pairing::agree(x.rows, x.kd, c.qg, re(qg_of(x)))
        }),
{
    let v = values(x);
    let rp = replay_of(v);
    let c = rp.exports();
    lemma_values_regular(x);
    lemma_input_grids(x);
    assert forall|r: int, j: int| 0 <= r < x.rows && 0 <= j < x.vd implies #[trigger] c.v_new()(
        r,
        j,
    ) == re(writes(x))(r, j) by {
        equivalence::lemma_writes_agree(v, r, j);
        lemma_writes_value(x, r, j);
        let f = |l: int| v.solver()(r, l).times(rp.rhs_v()(l, j));
        let f2 = |l: int| v.solver()(r, l).times(v.rhs_v(l, j));
        algebra::lemma_total_eq(x.rows, f, f2);
        let g = |i: int| c.w_wy()(r, i).times((c.s)(i, j));
        let g2 = |i: int| v.w_wy(v.solver(), r, i).times((v.s)(i, j));
        assert forall|i: int| 0 <= i < x.kd implies #[trigger] g(i) == g2(i) by {
            let h = |l: int| v.solver()(r, l).times(c.rhs_k()(l, i));
            let h2 = |l: int| v.solver()(r, l).times(v.rhs_k(l, i));
            algebra::lemma_total_eq(x.rows, h, h2);
        }
        algebra::lemma_total_eq(x.kd, g, g2);
    }
    assert forall|r: int, i: int| 0 <= r < x.rows && 0 <= i < x.kd implies #[trigger] c.decay()(
        r,
        i,
    ) == v.span(x.n, r, i) by {
        F::over_raised(v.e(x.n - 1, i), v.g_cum(r, i));
        algebra::lemma_raised_minus(v.g_cum(x.n - 1, i), v.g_cum(r, i));
    }
    assert forall|r: int, i: int| 0 <= r < x.rows && 0 <= i < x.kd implies #[trigger] grid::times(
        c.decay(),
        c.k,
    )(r, i) == re(kept(x))(r, i) by {
        assert(c.decay()(r, i) == v.span(x.n, r, i));
        F::times_commutes(v.span(x.n, r, i), (v.k)(r, i));
        lemma_decay_parts(x, x.n - 1, i);
        lemma_decay_parts(x, r, i);
    }
    assert forall|r: int, y: int| 0 <= r < x.rows && 0 <= y < x.rows implies #[trigger] (c.aqk)(
        r,
        y,
    ) == grid::scaled(re(seen(x)), x.scale.re)(r, y) by {
        lemma_score_parts(x, r, y);
        if y <= r {
            equivalence::lemma_scores(v, r, y);
        } else {
            equivalence::lemma_scores_above(v, r, y);
            algebra::lemma_times_nil(x.scale.re);
        }
    }
    assert forall|r: int, i: int| 0 <= r < x.rows && 0 <= i < x.kd implies #[trigger] c.rhs_k()(
        r,
        i,
    ) == re(rk_of(x))(r, i) by {
        assert(re(rk_of(x))(r, i) == v.rhs_k(r, i));
    }
    assert forall|r: int, i: int| 0 <= r < x.rows && 0 <= i < x.kd implies #[trigger] c.kg()(r, i)
        == re(kg_of(x))(r, i) by {
        assert(re(kg_of(x))(r, i) == v.kg(r, i));
    }
    assert forall|r: int, i: int| 0 <= r < x.rows && 0 <= i < x.kd implies #[trigger] (c.qg)(r, i)
        == re(qg_of(x))(r, i) by {
        assert(re(qg_of(x))(r, i) == v.qg(r, i));
    }
}

/// The backward pass of the chunk, given the gradients of its outputs and of its final state.
pub open spec fn adjoint_of<F: Scalar>(c: Chunk<F>, d_out: Grid<F>, d_acc: Grid<F>) -> Adjoint<F> {
    Adjoint { c: replay_of(c).exports(), d_out, d_acc }
}

/// The mask of the key-key scores.
pub open spec fn strict_mask<F: Scalar>() -> Grid<F> {
    |r: int, y: int| wy::strictly_causal::<F>(r, y)
}

/// The mask of the query-key scores.
pub open spec fn causal_mask<F: Scalar>() -> Grid<F> {
    |r: int, y: int| wy::causal::<F>(r, y)
}

/// The gradients of the written values, of the masked scores and of the solve.
proof fn lemma_solve_grids<F: ExactScalar>(x: Chunk<Dual<F>>, d_out: Grid<F>, d_acc: Grid<F>)
    requires
        regular(x),
    ensures
        ({
            let a = adjoint_of(values(x), d_out, d_acc);
            let ds = grid::scaled(d_out, x.scale.re);
            let y = a.d_rhs_v();
            let w = re(writes(x));
            &&& pairing::agree(
                x.rows,
                x.vd,
                a.d_v_new(),
                grid::plus(
                    grid::t_prod(x.rows, re(seen(x)), ds),
                    grid::prod(x.kd, re(kept(x)), d_acc),
                ),
            )
            &&& pairing::agree(
                x.rows,
                x.rows,
                a.d_qk(),
                grid::times(grid::prod_t(x.vd, ds, w), causal_mask()),
            )
            &&& pairing::agree(x.rows, x.kd, a.d_khat(), grid::prod_t(x.vd, w, d_acc))
            &&& pairing::agree(
                x.rows,
                x.kd,
                a.d_rhs_k(),
                grid::negated(grid::prod_t(x.vd, y, re(x.s))),
            )
            &&& pairing::agree(
                x.rows,
                x.rows,
                a.d_akk(),
                grid::negated(grid::times(grid::prod_t(x.vd, y, w), strict_mask())),
            )
        }),
{
    let (r, kd, vd) = (x.rows, x.kd, x.vd);
    let v = values(x);
    let a = adjoint_of(v, d_out, d_acc);
    let c = a.c;
    let ds = grid::scaled(d_out, x.scale.re);
    let y = a.d_rhs_v();
    let w = re(writes(x));
    lemma_replay_grids(x);
    // d_v_new
    let qs = grid::scaled(re(seen(x)), x.scale.re);
    locality::lemma_t_prod(r, r, vd, c.aqk, d_out, qs, d_out);
    locality::lemma_prod(r, kd, vd, grid::times(c.decay(), c.k), d_acc, re(kept(x)), d_acc);
    assert forall|i: int, j: int| 0 <= i < r && 0 <= j < vd implies #[trigger] a.d_v_new()(i, j)
        == grid::plus(
        grid::t_prod(r, re(seen(x)), ds),
        grid::prod(kd, re(kept(x)), d_acc),
    )(i, j) by {
        lemma_scaled_products(r, re(seen(x)), d_out, x.scale.re, i, j);
        assert(grid::t_prod(r, c.aqk, d_out)(i, j) == grid::t_prod(r, qs, d_out)(i, j));
        assert(grid::prod(kd, grid::times(c.decay(), c.k), d_acc)(i, j) == grid::prod(
            kd,
            re(kept(x)),
            d_acc,
        )(i, j));
    }
    // d_qk
    locality::lemma_prod_t(r, vd, r, d_out, c.v_new(), d_out, w);
    assert forall|i: int, j: int| 0 <= i < r && 0 <= j < r implies #[trigger] a.d_qk()(i, j)
        == grid::times(grid::prod_t(vd, ds, w), causal_mask())(i, j) by {
        assert(grid::prod_t(vd, d_out, c.v_new())(i, j) == grid::prod_t(vd, d_out, w)(i, j));
        lemma_scaled_products(vd, d_out, w, x.scale.re, i, j);
        let p = grid::prod_t(vd, d_out, w)(i, j);
        let m = wy::causal::<F>(i, j);
        F::times_commutes(m, x.scale.re);
        F::times_associates(p, x.scale.re, m);
    }
    // d_khat
    locality::lemma_prod_t(r, vd, kd, c.v_new(), d_acc, w, d_acc);
    // d_rhs_k = m^T (-(d_v_new s^T)) = -(m^T d_v_new) s^T
    let dv = a.d_v_new();
    assert forall|i: int, j: int| 0 <= i < r && 0 <= j < kd implies #[trigger] a.d_rhs_k()(i, j)
        == grid::negated(grid::prod_t(vd, y, re(x.s)))(i, j) by {
        let ys = grid::prod_t(vd, dv, c.s);
        lemma_negated_products(r, c.m, ys, i, j);
        // sum_z m(z, i) (sum_l dv(z, l) s(j, l)) = sum_l (sum_z m(z, i) dv(z, l)) s(j, l)
        let s_row = |l: int| (c.s)(j, l);
        let m_col = |z: int| (c.m)(z, i);
        lemma_bilinear(r, vd, dv, s_row, m_col);
        let lhs = |z: int| scalar::total(vd, |l: int| dv(z, l).times(s_row(l))).times(m_col(z));
        let shown = |z: int| (c.m)(z, i).times(ys(z, j));
        assert forall|z: int| 0 <= z < r implies #[trigger] shown(z) == lhs(z) by {
            let f = |l: int| dv(z, l).times((c.s)(j, l));
            let f2 = |l: int| dv(z, l).times(s_row(l));
            algebra::lemma_total_eq(vd, f, f2);
            F::times_commutes((c.m)(z, i), ys(z, j));
        }
        algebra::lemma_total_eq(r, shown, lhs);
        let rhs = |l: int| s_row(l).times(scalar::total(r, |z: int| dv(z, l).times(m_col(z))));
        let want = |l: int| y(i, l).times(re(x.s)(j, l));
        assert forall|l: int| 0 <= l < vd implies #[trigger] rhs(l) == want(l) by {
            let f = |z: int| dv(z, l).times(m_col(z));
            let f2 = |z: int| (c.m)(z, i).times(dv(z, l));
            assert forall|z: int| 0 <= z < r implies #[trigger] f(z) == f2(z) by {
                F::times_commutes(dv(z, l), m_col(z));
            }
            algebra::lemma_total_eq(r, f, f2);
            F::times_commutes(s_row(l), y(i, l));
        }
        algebra::lemma_total_eq(vd, rhs, want);
    }
    // d_akk = strict (-(d_rhs_k W^T) - d_rhs_v U^T) = -strict (y (U - W s)^T)
    assert forall|i: int, j: int| 0 <= i < r && 0 <= j < r implies #[trigger] a.d_akk()(i, j)
        == grid::negated(grid::times(grid::prod_t(vd, y, w), strict_mask()))(i, j) by {
        let ww = c.w_wy();
        let uu = c.u_wy();
        let ws = grid::prod(kd, ww, c.s);
        let yu = |l: int| y(i, l).times(uu(j, l));
        let yws = |l: int| y(i, l).times(ws(j, l));
        // -(d_rhs_k W^T)(i, j) = sum_l y(i, l) (W s)(j, l)
        let kw = |z: int| a.d_rhs_k()(i, z).times(ww(j, z));
        let ys = |z: int| scalar::total(vd, |l: int| y(i, l).times((c.s)(z, l)));
        let kw2 = |z: int| ys(z).times(ww(j, z));
        assert forall|z: int| 0 <= z < kd implies #[trigger] kw(z) == kw2(z).negated() by {
            assert(a.d_rhs_k()(i, z) == grid::negated(grid::prod_t(vd, y, re(x.s)))(i, z));
            let f = |l: int| y(i, l).times(re(x.s)(z, l));
            let f2 = |l: int| y(i, l).times((c.s)(z, l));
            algebra::lemma_total_eq(vd, f, f2);
            algebra::lemma_negated_times(ys(z), ww(j, z));
        }
        algebra::lemma_total_negated(kd, kw2, kw);
        algebra::lemma_negated_twice(scalar::total(kd, kw2));
        let sm = |z: int, l: int| (c.s)(z, l);
        let y_row = |l: int| y(i, l);
        let w_row = |z: int| ww(j, z);
        lemma_bilinear(kd, vd, sm, y_row, w_row);
        let lhs = |z: int| scalar::total(vd, |l: int| sm(z, l).times(y_row(l))).times(w_row(z));
        assert forall|z: int| 0 <= z < kd implies #[trigger] lhs(z) == kw2(z) by {
            let f = |l: int| sm(z, l).times(y_row(l));
            let f2 = |l: int| y(i, l).times((c.s)(z, l));
            assert forall|l: int| 0 <= l < vd implies #[trigger] f(l) == f2(l) by {
                F::times_commutes(sm(z, l), y_row(l));
            }
            algebra::lemma_total_eq(vd, f, f2);
        }
        algebra::lemma_total_eq(kd, lhs, kw2);
        let rhs = |l: int| y_row(l).times(scalar::total(kd, |z: int| sm(z, l).times(w_row(z))));
        assert forall|l: int| 0 <= l < vd implies #[trigger] rhs(l) == yws(l) by {
            let f = |z: int| sm(z, l).times(w_row(z));
            let f2 = |z: int| ww(j, z).times((c.s)(z, l));
            assert forall|z: int| 0 <= z < kd implies #[trigger] f(z) == f2(z) by {
                F::times_commutes(sm(z, l), w_row(z));
            }
            algebra::lemma_total_eq(kd, f, f2);
        }
        algebra::lemma_total_eq(vd, rhs, yws);
        // y (W s) - y U = -(y w)
        let (p, q) = (scalar::total(vd, yws), scalar::total(vd, yu));
        let yw = |l: int| y(i, l).times(w(j, l));
        assert forall|l: int| 0 <= l < vd implies #[trigger] yw(l) == yu(l).minus(yws(l)) by {
            assert(c.v_new()(j, l) == w(j, l));
            algebra::lemma_minus_times(uu(j, l), ws(j, l), y(i, l));
        }
        algebra::lemma_total_minus(vd, yu, yws, yw);
        F::minus_is_plus_negated(q, p);
        F::minus_is_plus_negated(p, q);
        algebra::lemma_negated_plus(q, p.negated());
        algebra::lemma_negated_twice(p);
        F::plus_commutes(q.negated(), p);
        assert(grid::prod_t(vd, y, w)(i, j) == scalar::total(vd, yw));
        assert(p.minus(q) == scalar::total(vd, yw).negated());
        algebra::lemma_negated_times(scalar::total(vd, yw), wy::strictly_causal::<F>(i, j));
    }
}

/// The gradients of the state and of the gated inputs.
proof fn lemma_gate_grids<F: ExactScalar>(x: Chunk<Dual<F>>, d_out: Grid<F>, d_acc: Grid<F>)
    requires
        regular(x),
    ensures
        ({
            let a = adjoint_of(values(x), d_out, d_acc);
            let ds = grid::scaled(d_out, x.scale.re);
            let y = a.d_rhs_v();
            let w = re(writes(x));
            let qm = grid::times(grid::prod_t(x.vd, ds, w), causal_mask());
            let km = grid::times(grid::prod_t(x.vd, y, w), strict_mask());
            &&& pairing::agree(
                x.kd,
                x.vd,
                a.d_s(),
                grid::plus(
                    grid::plus(
                        grid::t_prod(x.rows, re(qg_of(x)), ds),
                        grid::times(d_acc, last_of(values(x))),
                    ),
                    grid::negated(grid::t_prod(x.rows, re(rk_of(x)), y)),
                ),
            )
            &&& pairing::agree(
                x.rows,
                x.kd,
                a.d_qe(),
                grid::plus(
                    grid::prod_t(x.vd, ds, re(x.s)),
                    grid::prod(x.rows, qm, re(kg_of(x))),
                ),
            )
            &&& pairing::agree(
                x.rows,
                x.kd,
                a.d_kg(),
                grid::plus(
                    grid::t_prod(x.rows, qm, re(qg_of(x))),
                    grid::negated(grid::t_prod(x.rows, km, re(rk_of(x)))),
                ),
            )
            &&& pairing::agree(
                x.rows,
                x.kd,
                a.d_bke(),
                grid::negated(grid::prod(x.rows, km, re(kg_of(x)))),
            )
        }),
{
    let (r, kd, vd) = (x.rows, x.kd, x.vd);
    let v = values(x);
    let a = adjoint_of(v, d_out, d_acc);
    let c = a.c;
    let ds = grid::scaled(d_out, x.scale.re);
    let y = a.d_rhs_v();
    let w = re(writes(x));
    let qm = grid::times(grid::prod_t(vd, ds, w), causal_mask());
    let km = grid::times(grid::prod_t(vd, y, w), strict_mask());
    lemma_replay_grids(x);
    lemma_solve_grids(x, d_out, d_acc);
    // d_s
    locality::lemma_t_prod(kd, r, vd, c.qg, d_out, re(qg_of(x)), d_out);
    locality::lemma_t_prod(kd, r, vd, c.rhs_k(), y, re(rk_of(x)), y);
    let dv = a.d_v_new();
    assert forall|i: int, j: int| 0 <= i < kd && 0 <= j < vd implies #[trigger] a.d_s()(i, j)
        == grid::plus(
        grid::plus(grid::t_prod(r, re(qg_of(x)), ds), grid::times(d_acc, last_of(v))),
        grid::negated(grid::t_prod(r, re(rk_of(x)), y)),
    )(i, j) by {
        // W^T d_v_new = rhs_k^T y
        let rk_col = |z: int| c.rhs_k()(z, i);
        let dv_col = |z: int| dv(z, j);
        lemma_bilinear(r, r, c.m, rk_col, dv_col);
        let lhs = |z: int|
            scalar::total(r, |l: int| (c.m)(z, l).times(rk_col(l))).times(dv_col(z));
        let wd = |z: int| c.w_wy()(z, i).times(dv(z, j));
        assert forall|z: int| 0 <= z < r implies #[trigger] lhs(z) == wd(z) by {
            let f = |l: int| (c.m)(z, l).times(rk_col(l));
            let f2 = |l: int| (c.m)(z, l).times(c.rhs_k()(l, i));
            algebra::lemma_total_eq(r, f, f2);
        }
        algebra::lemma_total_eq(r, lhs, wd);
        let rhs = |l: int|
            rk_col(l).times(scalar::total(r, |z: int| (c.m)(z, l).times(dv_col(z))));
        let ky = |l: int| c.rhs_k()(l, i).times(y(l, j));
        assert forall|l: int| 0 <= l < r implies #[trigger] rhs(l) == ky(l) by {
            let f = |z: int| (c.m)(z, l).times(dv_col(z));
            let f2 = |z: int| (c.m)(z, l).times(dv(z, j));
            algebra::lemma_total_eq(r, f, f2);
        }
        algebra::lemma_total_eq(r, rhs, ky);
        assert(grid::t_prod(r, c.w_wy(), dv)(i, j) == grid::t_prod(r, c.rhs_k(), y)(i, j));
        assert(grid::t_prod(r, c.rhs_k(), y)(i, j) == grid::t_prod(r, re(rk_of(x)), y)(i, j));
        lemma_scaled_products(r, re(qg_of(x)), d_out, x.scale.re, i, j);
        assert(grid::t_prod(r, c.qg, d_out)(i, j) == grid::t_prod(r, re(qg_of(x)), d_out)(i, j));
        let (n, q, l) = (
            grid::t_prod(r, re(rk_of(x)), y)(i, j).negated(),
            grid::t_prod(r, re(qg_of(x)), ds)(i, j),
            grid::times(d_acc, last_of(v))(i, j),
        );
        F::times_commutes(v.e(x.n - 1, i), d_acc(i, j));
        F::plus_associates(n, q, l);
        F::plus_commutes(n, q.plus(l));
    }
    // d_qe
    locality::lemma_prod(r, r, kd, a.d_qk(), c.kg(), qm, re(kg_of(x)));
    assert forall|i: int, j: int| 0 <= i < r && 0 <= j < kd implies #[trigger] a.d_qe()(i, j)
        == grid::plus(grid::prod_t(vd, ds, re(x.s)), grid::prod(r, qm, re(kg_of(x))))(i, j) by {
        lemma_scaled_products(vd, d_out, re(x.s), x.scale.re, i, j);
        assert(grid::prod(r, a.d_qk(), c.kg())(i, j) == grid::prod(r, qm, re(kg_of(x)))(i, j));
    }
    // d_kg
    let nkm = grid::negated(km);
    locality::lemma_t_prod(r, r, kd, a.d_qk(), c.qg, qm, re(qg_of(x)));
    locality::lemma_t_prod(r, r, kd, a.d_akk(), c.rhs_k(), nkm, re(rk_of(x)));
    assert forall|i: int, j: int| 0 <= i < r && 0 <= j < kd implies #[trigger] a.d_kg()(i, j)
        == grid::plus(
        grid::t_prod(r, qm, re(qg_of(x))),
        grid::negated(grid::t_prod(r, km, re(rk_of(x)))),
    )(i, j) by {
        assert(grid::t_prod(r, a.d_qk(), c.qg)(i, j) == grid::t_prod(r, qm, re(qg_of(x)))(i, j));
        assert(grid::t_prod(r, a.d_akk(), c.rhs_k())(i, j) == grid::t_prod(
            r,
            nkm,
            re(rk_of(x)),
        )(i, j));
        lemma_negated_products(r, km, re(rk_of(x)), i, j);
    }
    // d_bke
    locality::lemma_prod(r, r, kd, a.d_akk(), c.kg(), nkm, re(kg_of(x)));
    assert forall|i: int, j: int| 0 <= i < r && 0 <= j < kd implies #[trigger] a.d_bke()(i, j)
        == grid::negated(grid::prod(r, km, re(kg_of(x))))(i, j) by {
        assert(grid::prod(r, a.d_akk(), c.kg())(i, j) == grid::prod(r, nkm, re(kg_of(x)))(i, j));
        lemma_negated_products(r, km, re(kg_of(x)), i, j);
    }
}

/// Regroups the contributions to the derivative of the loss by the intermediate that they go
/// through.
proof fn lemma_regroup<F: ExactScalar>(
    o1: F,
    o2: F,
    o3: F,
    o4a: F,
    o4b: F,
    n1: F,
    n2: F,
    n3: F,
    n4: F,
    v1: F,
    m2: F,
    m3: F,
    m4a: F,
    m4b: F,
)
    requires
        o3.plus(n3) == v1.plus(m2.plus(m3)).plus(m4a.plus(m4b)),
    ensures
        o1.plus(o2).plus(o3.plus(o4a.plus(o4b))).plus(n1.plus(n2).plus(n3.plus(n4))) == o1.plus(
            n2,
        ).plus(m2).plus(o2.plus(o4a)).plus(o4b.plus(m4b).plus(m3.plus(m4a))).plus(
            v1.plus(n4).plus(n1),
        ),
{
    let (o4, m4) = (o4a.plus(o4b), m4a.plus(m4b));
    let p = o1.plus(n2);
    // Outputs and state, term by term.
    algebra::lemma_plus_swap(o1.plus(o2), o3.plus(o4), n1.plus(n2), n3.plus(n4));
    algebra::lemma_plus_swap(o3, o4, n3, n4);
    F::plus_commutes(n1, n2);
    algebra::lemma_plus_swap(o1, o2, n2, n1);
    let w = v1.plus(m2.plus(m3)).plus(m4);
    let e0 = p.plus(o2.plus(n1)).plus(w.plus(o4.plus(n4)));
    assert(o1.plus(o2).plus(o3.plus(o4)).plus(n1.plus(n2).plus(n3.plus(n4))) == e0);
    // (v + m4) + (o4 + n4) = (v + n4) + (m4 + o4)
    let v = v1.plus(m2.plus(m3));
    F::plus_commutes(o4, n4);
    algebra::lemma_plus_swap(v, m4, n4, o4);
    // v + n4 = m2 + ((v1 + n4) + m3)
    let x = v1.plus(n4).plus(m3);
    assert(v.plus(n4) == m2.plus(x)) by {
        F::plus_commutes(v1, m2.plus(m3));
        F::plus_associates(m2, m3, v1);
        F::plus_associates(m2, m3.plus(v1), n4);
        F::plus_commutes(m3, v1);
        algebra::lemma_plus_rotate(v1, m3, n4);
    }
    // m4 + o4 = o4a + ((o4b + m4b) + m4a)
    let y = o4b.plus(m4b).plus(m4a);
    assert(m4.plus(o4) == o4a.plus(y)) by {
        F::plus_commutes(m4, o4);
        F::plus_associates(o4a, o4b, m4);
        F::plus_commutes(m4a, m4b);
        F::plus_associates(o4b, m4b, m4a);
    }
    assert(e0 == p.plus(o2.plus(n1)).plus(m2.plus(x).plus(o4a.plus(y))));
    algebra::lemma_plus_swap(m2, x, o4a, y);
    F::plus_associates(p.plus(o2.plus(n1)), m2.plus(o4a), x.plus(y));
    algebra::lemma_plus_swap(p, o2.plus(n1), m2, o4a);
    algebra::lemma_plus_rotate(o2, n1, o4a);
    let ds = p.plus(m2);
    let dq = o2.plus(o4a);
    assert(e0 == ds.plus(dq.plus(n1)).plus(x.plus(y)));
    F::plus_associates(ds, dq, n1);
    let (dk, dr) = (o4b.plus(m4b), m3.plus(m4a));
    let b = v1.plus(n4);
    assert(x.plus(y) == b.plus(dk.plus(dr))) by {
        F::plus_associates(b, m3, y);
        F::plus_commutes(m3, y);
        F::plus_associates(dk, m4a, m3);
        F::plus_commutes(m4a, m3);
    }
    F::plus_commutes(b, dk.plus(dr));
    algebra::lemma_plus_swap(ds.plus(dq), n1, dk.plus(dr), b);
    F::plus_commutes(n1, b);
}

/// The derivative of the loss, by the intermediates of the chunk.
proof fn lemma_by_intermediates<F: ExactScalar>(x: Chunk<Dual<F>>, d_out: Grid<F>, d_acc: Grid<F>)
    requires
        regular(x),
    ensures
        ({
            let a = adjoint_of(values(x), d_out, d_acc);
            pairing::pair(x.rows, x.vd, d_out, output_slopes(x)).plus(
                pairing::pair(x.kd, x.vd, d_acc, state_slopes(x)),
            ) == pairing::pair(x.kd, x.vd, a.d_s(), eps(x.s)).plus(
                pairing::pair(x.rows, x.kd, a.d_qe(), eps(qg_of(x))),
            ).plus(
                pairing::pair(x.rows, x.kd, a.d_kg(), eps(kg_of(x))).plus(
                    pairing::pair(
                        x.rows,
                        x.kd,
                        grid::plus(a.d_rhs_k(), a.d_bke()),
                        eps(rk_of(x)),
                    ),
                ),
            ).plus(
                pairing::pair(x.rows, x.vd, a.d_rhs_v(), eps(rv_of(x))).plus(
                    pairing::pair(x.rows, x.kd, a.d_khat(), eps(kept(x))),
                ).plus(
                    pairing::pair(
                        x.kd,
                        x.vd,
                        grid::times(d_acc, re(x.s)),
                        grid::times(last_of(values(x)), last_slope(x)),
                    ),
                ),
            )
        }),
{
    let (r, kd, vd) = (x.rows, x.kd, x.vd);
    let v = values(x);
    let a = adjoint_of(v, d_out, d_acc);
    let ds = grid::scaled(d_out, x.scale.re);
    let y = a.d_rhs_v();
    let w = re(writes(x));
    let (qg, kg, rk) = (qg_of(x), kg_of(x), rk_of(x));
    let qm = grid::times(grid::prod_t(vd, ds, w), causal_mask());
    let km = grid::times(grid::prod_t(vd, y, w), strict_mask());
    lemma_values_regular(x);
    lemma_solve_grids(x, d_out, d_acc);
    lemma_gate_grids(x, d_out, d_acc);
    lemma_pair_outputs(x, d_out);
    lemma_pair_state(x, d_acc);
    lemma_pair_writes(x, a.d_v_new());
    let o1 = pairing::pair(kd, vd, grid::t_prod(r, re(qg), ds), eps(x.s));
    let o2 = pairing::pair(r, kd, grid::prod_t(vd, ds, re(x.s)), eps(qg));
    let o3 = pairing::pair(r, vd, grid::t_prod(r, re(seen(x)), ds), eps(writes(x)));
    let o4a = pairing::pair(r, kd, grid::prod(r, qm, re(kg)), eps(qg));
    let o4b = pairing::pair(r, kd, grid::t_prod(r, qm, re(qg)), eps(kg));
    let last = last_of(v);
    let n1 = pairing::pair(kd, vd, grid::times(d_acc, re(x.s)), grid::times(last, last_slope(x)));
    let n2 = pairing::pair(kd, vd, grid::times(d_acc, last), eps(x.s));
    let n3 = pairing::pair(r, vd, grid::prod(kd, re(kept(x)), d_acc), eps(writes(x)));
    let n4 = pairing::pair(r, kd, grid::prod_t(vd, w, d_acc), eps(kept(x)));
    let v1 = pairing::pair(r, vd, y, eps(rv_of(x)));
    let v2 = pairing::pair(kd, vd, grid::t_prod(r, re(rk), y), eps(x.s));
    let v3 = pairing::pair(r, kd, grid::prod_t(vd, y, re(x.s)), eps(rk));
    let v4a = pairing::pair(r, kd, grid::prod(r, km, re(kg)), eps(rk));
    let v4b = pairing::pair(r, kd, grid::t_prod(r, km, re(rk)), eps(kg));
    // The scores.
    let dq = grid::prod_t(vd, ds, w);
    assert forall|i: int, z: int| 0 <= i < r && 0 <= z < r implies #[trigger] eps(seen(x))(i, z)
        == causal_mask::<F>()(i, z).times(
        grid::plus(grid::prod_t(kd, re(qg), eps(kg)), grid::prod_t(kd, eps(qg), re(kg)))(i, z),
    ) by {
        lemma_score_parts(x, i, z);
        let t = grid::plus(
            grid::prod_t(kd, re(qg), eps(kg)),
            grid::prod_t(kd, eps(qg), re(kg)),
        )(i, z);
        algebra::lemma_unit_times(t);
        algebra::lemma_times_nil(t);
    }
    lemma_pair_scores(x, dq, causal_mask(), seen(x), qg);
    let dk = grid::prod_t(vd, y, w);
    assert forall|i: int, z: int| 0 <= i < r && 0 <= z < r implies #[trigger] eps(lower(x))(i, z)
        == strict_mask::<F>()(i, z).times(
        grid::plus(grid::prod_t(kd, re(rk), eps(kg)), grid::prod_t(kd, eps(rk), re(kg)))(i, z),
    ) by {
        lemma_score_parts(x, i, z);
        let t = grid::plus(
            grid::prod_t(kd, re(rk), eps(kg)),
            grid::prod_t(kd, eps(rk), re(kg)),
        )(i, z);
        algebra::lemma_unit_times(t);
        algebra::lemma_times_nil(t);
    }
    lemma_pair_scores(x, dk, strict_mask(), lower(x), rk);
    algebra::lemma_negated_plus(v4a, v4b);
    // The written values.
    let dv = grid::plus(
        grid::t_prod(r, re(seen(x)), ds),
        grid::prod(kd, re(kept(x)), d_acc),
    );
    pairing::lemma_pair_eq(r, vd, a.d_v_new(), eps(writes(x)), dv, eps(writes(x)));
    pairing::lemma_plus_pair(
        r,
        vd,
        grid::t_prod(r, re(seen(x)), ds),
        grid::prod(kd, re(kept(x)), d_acc),
        eps(writes(x)),
    );
    lemma_regroup(
        o1,
        o2,
        o3,
        o4a,
        o4b,
        n1,
        n2,
        n3,
        n4,
        v1,
        v2.negated(),
        v3.negated(),
        v4a.negated(),
        v4b.negated(),
    );
    // The gradients are the sums of the contributions.
    let gs1 = grid::t_prod(r, re(qg), ds);
    let gs2 = grid::times(d_acc, last);
    let gs3 = grid::t_prod(r, re(rk), y);
    pairing::lemma_pair_eq(
        kd,
        vd,
        a.d_s(),
        eps(x.s),
        grid::plus(grid::plus(gs1, gs2), grid::negated(gs3)),
        eps(x.s),
    );
    pairing::lemma_plus_pair(kd, vd, grid::plus(gs1, gs2), grid::negated(gs3), eps(x.s));
    pairing::lemma_plus_pair(kd, vd, gs1, gs2, eps(x.s));
    pairing::lemma_pair_negated(kd, vd, gs3, eps(x.s));
    let gq1 = grid::prod_t(vd, ds, re(x.s));
    let gq2 = grid::prod(r, qm, re(kg));
    pairing::lemma_pair_eq(r, kd, a.d_qe(), eps(qg), grid::plus(gq1, gq2), eps(qg));
    pairing::lemma_plus_pair(r, kd, gq1, gq2, eps(qg));
    let gk1 = grid::t_prod(r, qm, re(qg));
    let gk2 = grid::t_prod(r, km, re(rk));
    pairing::lemma_pair_eq(
        r,
        kd,
        a.d_kg(),
        eps(kg),
        grid::plus(gk1, grid::negated(gk2)),
        eps(kg),
    );
    pairing::lemma_plus_pair(r, kd, gk1, grid::negated(gk2), eps(kg));
    pairing::lemma_pair_negated(r, kd, gk2, eps(kg));
    let gr1 = grid::prod_t(vd, y, re(x.s));
    let gr2 = grid::prod(r, km, re(kg));
    pairing::lemma_plus_pair(r, kd, a.d_rhs_k(), a.d_bke(), eps(rk));
    pairing::lemma_pair_eq(r, kd, a.d_rhs_k(), eps(rk), grid::negated(gr1), eps(rk));
    pairing::lemma_pair_eq(r, kd, a.d_bke(), eps(rk), grid::negated(gr2), eps(rk));
    pairing::lemma_pair_negated(r, kd, gr1, eps(rk));
    pairing::lemma_pair_negated(r, kd, gr2, eps(rk));
    pairing::lemma_pair_eq(
        r,
        kd,
        a.d_khat(),
        eps(kept(x)),
        grid::prod_t(vd, w, d_acc),
        eps(kept(x)),
    );
}

/// A product of an input and a decay, weighted by `d`, by the derivatives of both.
proof fn lemma_pair_leaf<F: ExactScalar>(
    rows: int,
    cols: int,
    d: Grid<F>,
    u: Grid<F>,
    p: Grid<F>,
    e: Grid<F>,
    sl: Grid<F>,
    pd: Grid<F>,
)
    requires
        pairing::agree(
            rows,
            cols,
            u,
            grid::plus(grid::times(p, grid::times(e, sl)), grid::times(pd, e)),
        ),
    ensures
        pairing::pair(rows, cols, d, u) == pairing::pair(
            rows,
            cols,
            grid::times(grid::times(d, p), e),
            sl,
        ).plus(pairing::pair(rows, cols, grid::times(d, e), pd)),
{
    let (a, b) = (grid::times(p, grid::times(e, sl)), grid::times(pd, e));
    pairing::lemma_pair_eq(rows, cols, d, u, d, grid::plus(a, b));
    pairing::lemma_pair_plus(rows, cols, d, a, b);
    pairing::lemma_pair_times(rows, cols, d, p, grid::times(e, sl));
    pairing::lemma_pair_times(rows, cols, grid::times(d, p), e, sl);
    let b2 = grid::times(e, pd);
    assert forall|i: int, j: int| 0 <= i < rows && 0 <= j < cols implies #[trigger] b(i, j) == b2(
        i,
        j,
    ) by {
        F::times_commutes(pd(i, j), e(i, j));
    }
    pairing::lemma_pair_eq(rows, cols, d, b, d, b2);
    pairing::lemma_pair_times(rows, cols, d, e, pd);
}

/// A product of two inputs, weighted by `d`, by the derivatives of both.
proof fn lemma_pair_inputs<F: ExactScalar>(
    rows: int,
    cols: int,
    d: Grid<F>,
    p: Grid<F>,
    pd: Grid<F>,
    q: Grid<F>,
    qd: Grid<F>,
)
    ensures
        pairing::pair(rows, cols, d, grid::plus(grid::times(p, qd), grid::times(pd, q)))
            == pairing::pair(rows, cols, grid::times(d, p), qd).plus(
            pairing::pair(rows, cols, grid::times(d, q), pd),
        ),
{
    let (a, b) = (grid::times(p, qd), grid::times(pd, q));
    pairing::lemma_pair_plus(rows, cols, d, a, b);
    pairing::lemma_pair_times(rows, cols, d, p, qd);
    let b2 = grid::times(q, pd);
    assert forall|i: int, j: int| 0 <= i < rows && 0 <= j < cols implies #[trigger] b(i, j) == b2(
        i,
        j,
    ) by {
        F::times_commutes(pd(i, j), q(i, j));
    }
    pairing::lemma_pair_eq(rows, cols, d, b, d, b2);
    pairing::lemma_pair_times(rows, cols, d, q, pd);
}

/// The decays of the numbers of a chunk.
pub open spec fn e_of<F: Scalar>(x: Chunk<Dual<F>>) -> Grid<F> {
    |r: int, i: int| values(x).e(r, i)
}

/// Their inverses.
pub open spec fn e_inv<F: Scalar>(x: Chunk<Dual<F>>) -> Grid<F> {
    |r: int, i: int| values(x).g_cum(r, i).negated().raised()
}

/// The decays from after each row to the end of the chunk.
pub open spec fn span_of<F: Scalar>(x: Chunk<Dual<F>>) -> Grid<F> {
    |r: int, i: int| values(x).span(x.n, r, i)
}

/// The slope of the decay through the last token, in every row.
pub open spec fn end_slope<F: Scalar>(x: Chunk<Dual<F>>) -> Grid<F> {
    |r: int, i: int| slope(x)(x.n - 1, i)
}

/// The gated keys.
pub open spec fn bk_of<F: Scalar>(x: Chunk<Dual<F>>) -> Grid<F> {
    |r: int, i: int| values(x).bk(r, i)
}

/// The contributions through the intermediates, by the inputs and the slopes of the decays.
proof fn lemma_by_inputs<F: ExactScalar>(x: Chunk<Dual<F>>, a: Adjoint<F>)
    requires
        regular(x),
        a.c == replay_of(values(x)).exports(),
    ensures
        ({
            let (r, kd, vd) = (x.rows, x.kd, x.vd);
            let z = grid::plus(a.d_rhs_k(), a.d_bke());
            let sl = slope(x);
            &&& pairing::pair(r, kd, a.d_qe(), eps(qg_of(x))) == pairing::pair(
                r,
                kd,
                grid::times(grid::times(a.d_qe(), re(x.q)), e_of(x)),
                sl,
            ).plus(pairing::pair(r, kd, a.d_q(), eps(x.q)))
            &&& pairing::pair(r, kd, a.d_kg(), eps(kg_of(x))) == pairing::pair(
                r,
                kd,
                grid::times(grid::times(a.d_kg(), re(x.k)), e_inv(x)),
                grid::negated(sl),
            ).plus(pairing::pair(r, kd, grid::times(a.d_kg(), e_inv(x)), eps(x.k)))
            &&& pairing::pair(r, kd, z, eps(rk_of(x))) == pairing::pair(
                r,
                kd,
                grid::times(grid::times(z, bk_of(x)), e_of(x)),
                sl,
            ).plus(
                pairing::pair(r, kd, grid::times(a.d_bk(), re(x.b)), eps(x.k)).plus(
                    pairing::pair(r, kd, a.d_b(), eps(x.b)),
                ),
            )
            &&& pairing::pair(r, vd, a.d_rhs_v(), eps(rv_of(x))) == pairing::pair(
                r,
                vd,
                a.d_v(),
                eps(x.v),
            ).plus(pairing::pair(r, vd, a.d_w(), eps(x.w)))
            &&& pairing::pair(r, kd, a.d_khat(), eps(kept(x))) == pairing::pair(
                r,
                kd,
                grid::times(grid::times(a.d_khat(), re(x.k)), span_of(x)),
                grid::minus(end_slope(x), sl),
            ).plus(pairing::pair(r, kd, grid::times(a.d_khat(), span_of(x)), eps(x.k)))
        }),
{
    let (r, kd, vd) = (x.rows, x.kd, x.vd);
    let z = grid::plus(a.d_rhs_k(), a.d_bke());
    let sl = slope(x);
    let (e, ei, sp) = (e_of(x), e_inv(x), span_of(x));
    // q E
    assert forall|i: int, j: int| 0 <= i < r && 0 <= j < kd implies #[trigger] eps(qg_of(x))(i, j)
        == grid::plus(
        grid::times(re(x.q), grid::times(e, sl)),
        grid::times(eps(x.q), e),
    )(i, j) by {
        lemma_input_parts(x, i, j);
    }
    lemma_pair_leaf(r, kd, a.d_qe(), eps(qg_of(x)), re(x.q), e, sl, eps(x.q));
    assert(a.d_q() =~= grid::times(a.d_qe(), e));
    // k / E
    assert forall|i: int, j: int| 0 <= i < r && 0 <= j < kd implies #[trigger] eps(kg_of(x))(i, j)
        == grid::plus(
        grid::times(re(x.k), grid::times(ei, grid::negated(sl))),
        grid::times(eps(x.k), ei),
    )(i, j) by {
        lemma_input_parts(x, i, j);
    }
    lemma_pair_leaf(
        r,
        kd,
        a.d_kg(),
        eps(kg_of(x)),
        re(x.k),
        ei,
        grid::negated(sl),
        eps(x.k),
    );
    // b k E
    let bkd = grid::plus(grid::times(re(x.b), eps(x.k)), grid::times(eps(x.b), re(x.k)));
    assert forall|i: int, j: int| 0 <= i < r && 0 <= j < kd implies #[trigger] eps(rk_of(x))(i, j)
        == grid::plus(
        grid::times(bk_of(x), grid::times(e, sl)),
        grid::times(bkd, e),
    )(i, j) by {
        lemma_input_parts(x, i, j);
    }
    lemma_pair_leaf(r, kd, z, eps(rk_of(x)), bk_of(x), e, sl, bkd);
    assert(a.d_bk() =~= grid::times(z, e));
    lemma_pair_inputs(r, kd, a.d_bk(), re(x.b), eps(x.b), re(x.k), eps(x.k));
    assert(a.d_b() =~= grid::times(a.d_bk(), re(x.k)));
    // w v
    let wv = grid::plus(grid::times(re(x.w), eps(x.v)), grid::times(eps(x.w), re(x.v)));
    assert forall|i: int, j: int| 0 <= i < r && 0 <= j < vd implies #[trigger] eps(rv_of(x))(i, j)
        == wv(i, j) by {
        lemma_input_parts(x, i, j);
    }
    pairing::lemma_pair_eq(r, vd, a.d_rhs_v(), eps(rv_of(x)), a.d_rhs_v(), wv);
    lemma_pair_inputs(r, vd, a.d_rhs_v(), re(x.w), eps(x.w), re(x.v), eps(x.v));
    assert(a.d_v() =~= grid::times(a.d_rhs_v(), re(x.w)));
    assert(a.d_w() =~= grid::times(a.d_rhs_v(), re(x.v)));
    // k E_last / E
    assert forall|i: int, j: int| 0 <= i < r && 0 <= j < kd implies #[trigger] eps(kept(x))(i, j)
        == grid::plus(
        grid::times(re(x.k), grid::times(sp, grid::minus(end_slope(x), sl))),
        grid::times(eps(x.k), sp),
    )(i, j) by {
        lemma_decay_parts(x, x.n - 1, j);
        lemma_decay_parts(x, i, j);
    }
    lemma_pair_leaf(
        r,
        kd,
        a.d_khat(),
        eps(kept(x)),
        re(x.k),
        sp,
        grid::minus(end_slope(x), sl),
        eps(x.k),
    );
}

/// `(a / e) e = a`, `(a / (e e)) e = a / e` and `(a e) / e = a` for a decay `e`.
proof fn lemma_decay_cancels<F: ExactScalar>(a: F, g: F)
    ensures
        a.over(g.raised()).times(g.raised()) == a,
        a.over(g.raised().times(g.raised())).times(g.raised()) == a.times(g.negated().raised()),
        a.times(g.raised()).over(g.raised()) == a,
{
    let e = g.raised();
    let d = g.negated().raised();
    algebra::lemma_raised_inverse(g);
    F::times_commutes(e, d);
    F::over_raised(a, g);
    F::times_associates(a, d, e);
    F::times_unit(a);
    F::raised_plus(g, g);
    F::over_raised(a, g.plus(g));
    algebra::lemma_negated_plus(g, g);
    F::raised_plus(g.negated(), g.negated());
    F::times_associates(a, d.times(d), e);
    F::times_associates(d, d, e);
    F::times_unit(d);
    F::over_raised(a.times(e), g);
    F::times_associates(a, e, d);
}

/// The gradient of the decays away from the last row, times the decays.
proof fn lemma_slope_weights<F: ExactScalar>(x: Chunk<Dual<F>>, a: Adjoint<F>, r: int, i: int)
    requires
        regular(x),
        a.c == replay_of(values(x)).exports(),
        0 <= r < x.rows,
        0 <= i < x.kd,
    ensures
        a.d_e_rows()(r, i).times(e_of(x)(r, i)) == grid::plus(
            grid::plus(
                grid::times(
                    grid::times(grid::plus(a.d_rhs_k(), a.d_bke()), bk_of(x)),
                    e_of(x),
                ),
                grid::negated(grid::times(grid::times(a.d_kg(), re(x.k)), e_inv(x))),
            ),
            grid::plus(
                grid::times(grid::times(a.d_qe(), re(x.q)), e_of(x)),
                grid::negated(grid::times(grid::times(a.d_khat(), re(x.k)), span_of(x))),
            ),
        )(r, i),
{
    let v = values(x);
    let g = v.g_cum(r, i);
    let e = g.raised();
    let d = g.negated().raised();
    let (rk, bke, kg, qe, kh) = (
        a.d_rhs_k()(r, i),
        a.d_bke()(r, i),
        a.d_kg()(r, i),
        a.d_qe()(r, i),
        a.d_khat()(r, i),
    );
    let (q, k, bk) = ((v.q)(r, i), (v.k)(r, i), v.bk(r, i));
    lemma_replay_grids(x);
    let sp = v.span(x.n, r, i);
    assert(a.c.decay()(r, i) == sp);
    lemma_decay_cancels(bk, g);
    assert(a.bk()(r, i) == bk);
    let t1 = rk.times(bk);
    let t2 = kg.times(k).over(e.times(e)).negated();
    let t3 = qe.times(q.times(e)).over(e);
    let t4 = bke.times(bk);
    let t5 = kh.times(k).times(sp).over(e).negated();
    assert(a.d_e_rows()(r, i) == t1.plus(t2).plus(t3).plus(t4).plus(t5));
    algebra::lemma_plus_times(t1.plus(t2).plus(t3).plus(t4), t5, e);
    algebra::lemma_plus_times(t1.plus(t2).plus(t3), t4, e);
    algebra::lemma_plus_times(t1.plus(t2), t3, e);
    algebra::lemma_plus_times(t1, t2, e);
    let (u1, u2, u3, u4, u5) = (t1.times(e), t2.times(e), t3.times(e), t4.times(e), t5.times(e));
    assert(u2 == kg.times(k).times(d).negated()) by {
        lemma_decay_cancels(kg.times(k), g);
        algebra::lemma_negated_times(kg.times(k).over(e.times(e)), e);
    }
    assert(u3 == qe.times(q).times(e)) by {
        lemma_decay_cancels(qe.times(q.times(e)), g);
        F::times_associates(qe, q, e);
    }
    assert(u5 == kh.times(k).times(sp).negated()) by {
        lemma_decay_cancels(kh.times(k).times(sp), g);
        algebra::lemma_negated_times(kh.times(k).times(sp).over(e), e);
    }
    assert(u1.plus(u4) == rk.plus(bke).times(bk).times(e)) by {
        algebra::lemma_plus_times(rk, bke, bk);
        algebra::lemma_plus_times(t1, t4, e);
    }
    // (((u1 + u2) + u3) + u4) + u5 = ((u1 + u4) + u2) + (u3 + u5)
    algebra::lemma_plus_rotate(u1.plus(u2), u3, u4);
    algebra::lemma_plus_rotate(u1, u2, u4);
    F::plus_associates(u1.plus(u4).plus(u2), u3, u5);
}

/// The gradient of the last decay, times that decay.
proof fn lemma_last_weight<F: ExactScalar>(x: Chunk<Dual<F>>, a: Adjoint<F>, i: int)
    requires
        regular(x),
        a.c == replay_of(values(x)).exports(),
        0 <= i < x.kd,
    ensures
        a.d_e_last()(i).times(e_of(x)(x.n - 1, i)) == scalar::total(
            x.rows,
            |r: int| grid::times(grid::times(a.d_khat(), re(x.k)), span_of(x))(r, i),
        ).plus(
            scalar::total(
                x.vd,
                |j: int| grid::times(grid::times(a.d_acc, re(x.s)), last_of(values(x)))(i, j),
            ),
        ),
{
    let v = values(x);
    let el = v.e(x.n - 1, i);
    let f = |r: int| grid::over(a.d_decay(), a.c.e)(r, i);
    let f2 = |r: int| grid::times(grid::times(a.d_khat(), re(x.k)), span_of(x))(r, i);
    lemma_replay_grids(x);
    assert forall|r: int| 0 <= r < x.rows implies #[trigger] f2(r) == f(r).times(el) by {
        let g = v.g_cum(r, i);
        let p = a.d_decay()(r, i);
        let d = g.negated().raised();
        F::over_raised(p, g);
        F::over_raised(el, g);
        assert(a.c.decay()(r, i) == v.span(x.n, r, i));
        F::times_commutes(d, el);
        F::times_associates(p, d, el);
    }
    algebra::lemma_total_times(x.rows, f, el, f2);
    let h = |j: int| grid::times(a.d_acc, a.c.s)(i, j);
    let h2 = |j: int| grid::times(grid::times(a.d_acc, re(x.s)), last_of(v))(i, j);
    assert forall|j: int| 0 <= j < x.vd implies #[trigger] h2(j) == h(j).times(el) by {}
    algebra::lemma_total_times(x.vd, h, el, h2);
    algebra::lemma_plus_times(scalar::total(x.rows, f), scalar::total(x.vd, h), el);
}

/// A row added to a matrix, under the inner product.
proof fn lemma_pair_plus_row<F: ExactScalar>(
    rows: int,
    cols: int,
    a: Grid<F>,
    n: int,
    b: spec_fn(int) -> F,
    c: Grid<F>,
)
    requires
        0 <= n < rows,
    ensures
        pairing::pair(rows, cols, grid::plus_row(a, n, b), c) == pairing::pair(
            rows,
            cols,
            a,
            c,
        ).plus(scalar::total(cols, |j: int| b(j).times(c(n, j)))),
{
    let only = |i: int, j: int|
        if i == n {
            b(j)
        } else {
            F::nil()
        };
    let s = grid::plus(a, only);
    assert forall|i: int, j: int| 0 <= i < rows && 0 <= j < cols implies #[trigger] grid::plus_row(
        a,
        n,
        b,
    )(i, j) == s(i, j) by {
        F::plus_nil(a(i, j));
    }
    pairing::lemma_pair_eq(rows, cols, grid::plus_row(a, n, b), c, s, c);
    pairing::lemma_plus_pair(rows, cols, a, only, c);
    let f = |i: int| pairing::row_pair(cols, only, c, i);
    assert forall|i: int| 0 <= i < rows && i != n implies #[trigger] f(i) == F::nil() by {
        let g = |j: int| only(i, j).times(c(i, j));
        assert forall|j: int| 0 <= j < cols implies #[trigger] g(j) == F::nil() by {
            algebra::lemma_times_nil(c(i, j));
        }
        algebra::lemma_total_nil(cols, g);
    }
    algebra::lemma_total_single(rows, n, f);
    let g = |j: int| only(n, j).times(c(n, j));
    let g2 = |j: int| b(j).times(c(n, j));
    algebra::lemma_total_eq(cols, g, g2);
}

/// The contributions through the slopes of the decays are those of the gradient of `g`.
proof fn lemma_by_slopes<F: ExactScalar>(x: Chunk<Dual<F>>, a: Adjoint<F>)
    requires
        regular(x),
        a.c == replay_of(values(x)).exports(),
    ensures
        ({
            let (r, kd, vd) = (x.rows, x.kd, x.vd);
            let z = grid::plus(a.d_rhs_k(), a.d_bke());
            let sl = slope(x);
            let h = grid::times(grid::times(a.d_khat(), re(x.k)), span_of(x));
            pairing::pair(r, kd, grid::times(grid::times(z, bk_of(x)), e_of(x)), sl).plus(
                pairing::pair(
                    r,
                    kd,
                    grid::times(grid::times(a.d_kg(), re(x.k)), e_inv(x)),
                    grid::negated(sl),
                ),
            ).plus(
                pairing::pair(
                    r,
                    kd,
                    grid::times(grid::times(a.d_qe(), re(x.q)), e_of(x)),
                    sl,
                ).plus(pairing::pair(r, kd, h, sl).negated()),
            ).plus(
                pairing::pair(r, kd, h, end_slope(x)).plus(
                    pairing::pair(
                        kd,
                        vd,
                        grid::times(a.d_acc, re(x.s)),
                        grid::times(last_of(values(x)), last_slope(x)),
                    ),
                ),
            ) == pairing::pair(r, kd, a.d_g(), eps(x.g))
        }),
{
    let (r, kd, vd) = (x.rows, x.kd, x.vd);
    let v = values(x);
    let z = grid::plus(a.d_rhs_k(), a.d_bke());
    let sl = slope(x);
    let c1 = grid::times(grid::times(a.d_qe(), re(x.q)), e_of(x));
    let c2 = grid::times(grid::times(a.d_kg(), re(x.k)), e_inv(x));
    let c3 = grid::times(grid::times(z, bk_of(x)), e_of(x));
    let h = grid::times(grid::times(a.d_khat(), re(x.k)), span_of(x));
    let w = grid::plus(grid::plus(c3, grid::negated(c2)), grid::plus(c1, grid::negated(h)));
    // The rows.
    pairing::lemma_plus_pair(
        r,
        kd,
        grid::plus(c3, grid::negated(c2)),
        grid::plus(c1, grid::negated(h)),
        sl,
    );
    pairing::lemma_plus_pair(r, kd, c3, grid::negated(c2), sl);
    pairing::lemma_plus_pair(r, kd, c1, grid::negated(h), sl);
    pairing::lemma_pair_negated(r, kd, c2, sl);
    pairing::lemma_pair_negated(r, kd, h, sl);
    // The last row.
    let hs = |i: int| scalar::total(r, |y: int| h(y, i));
    let das = grid::times(a.d_acc, re(x.s));
    let ds = |i: int| scalar::total(vd, |j: int| grid::times(das, last_of(v))(i, j));
    let rho = |i: int| hs(i).plus(ds(i));
    let end = |i: int| sl(x.n - 1, i);
    pairing::lemma_pair_transposed(r, kd, h, end_slope(x));
    let ht = |i: int, y: int| h(y, i);
    let et = |i: int, y: int| end_slope(x)(y, i);
    let fl = |i: int| pairing::row_pair(r, ht, et, i);
    let fl2 = |i: int| hs(i).times(end(i));
    assert forall|i: int| 0 <= i < kd implies #[trigger] fl(i) == fl2(i) by {
        let p = |y: int| h(y, i);
        let q = |y: int| ht(i, y).times(et(i, y));
        algebra::lemma_total_times(r, p, end(i), q);
    }
    algebra::lemma_total_eq(kd, fl, fl2);
    let ll = grid::times(last_of(v), last_slope(x));
    let fn_ = |i: int| pairing::row_pair(vd, das, ll, i);
    let fn2 = |i: int| ds(i).times(end(i));
    assert forall|i: int| 0 <= i < kd implies #[trigger] fn_(i) == fn2(i) by {
        let p = |j: int| grid::times(das, last_of(v))(i, j);
        let q = |j: int| das(i, j).times(ll(i, j));
        assert forall|j: int| 0 <= j < vd implies #[trigger] q(j) == p(j).times(end(i)) by {
            F::times_associates(das(i, j), last_of(v)(i, j), end(i));
        }
        algebra::lemma_total_times(vd, p, end(i), q);
    }
    algebra::lemma_total_eq(kd, fn_, fn2);
    let frho = |i: int| rho(i).times(end(i));
    assert forall|i: int| 0 <= i < kd implies #[trigger] frho(i) == fl2(i).plus(fn2(i)) by {
        algebra::lemma_plus_times(hs(i), ds(i), end(i));
    }
    algebra::lemma_total_plus(kd, fl2, fn2, frho);
    lemma_pair_plus_row(r, kd, w, x.n - 1, rho, sl);
    let frho2 = |i: int| rho(i).times(sl(x.n - 1, i));
    algebra::lemma_total_eq(kd, frho, frho2);
    // Together: the gradient of the decays, times the decays.
    let weights = grid::plus_row(w, x.n - 1, rho);
    let de = grid::times(a.d_e(), a.c.e);
    assert forall|y: int, i: int| 0 <= y < r && 0 <= i < kd implies #[trigger] weights(y, i) == de(
        y,
        i,
    ) by {
        lemma_slope_weights(x, a, y, i);
        if y == x.n - 1 {
            lemma_last_weight(x, a, i);
            let p = |l: int| grid::times(grid::times(a.d_khat(), re(x.k)), span_of(x))(l, i);
            let p2 = |l: int| h(l, i);
            algebra::lemma_total_eq(r, p, p2);
            let q = |j: int|
                grid::times(grid::times(a.d_acc, re(x.s)), last_of(values(x)))(i, j);
            let q2 = |j: int| grid::times(das, last_of(v))(i, j);
            algebra::lemma_total_eq(vd, q, q2);
            algebra::lemma_plus_times(
                a.d_e_rows()(y, i),
                a.d_e_last()(i),
                v.e(y, i),
            );
        }
    }
    pairing::lemma_pair_eq(r, kd, weights, sl, de, sl);
    // Slopes are prefix sums, so the weights become suffix sums.
    pairing::lemma_pair_transposed(r, kd, de, sl);
    pairing::lemma_pair_transposed(r, kd, a.d_g(), eps(x.g));
    let det = |i: int, y: int| de(y, i);
    let slt = |i: int, y: int| sl(y, i);
    let dgt = |i: int, y: int| a.d_g()(y, i);
    let gt = |i: int, y: int| eps(x.g)(y, i);
    let p = |i: int| pairing::row_pair(r, det, slt, i);
    let q = |i: int| pairing::row_pair(r, dgt, gt, i);
    assert forall|i: int| 0 <= i < kd implies #[trigger] p(i) == q(i) by {
        let hh = |y: int| de(y, i);
        let gg = |y: int| eps(x.g)(y, i);
        algebra::lemma_prefix_suffix(r, hh, gg);
        let l = |y: int| det(i, y).times(slt(i, y));
        let l2 = |y: int| hh(y).times(scalar::total(y + 1, gg));
        algebra::lemma_total_eq(r, l, l2);
        let m = |y: int| dgt(i, y).times(gt(i, y));
        let m2 = |y: int| scalar::total(r - y, |u: int| hh(r - 1 - u)).times(gg(y));
        assert forall|y: int| 0 <= y < r implies #[trigger] m(y) == m2(y) by {
            let s1 = |u: int| de(r - 1 - u, i);
            let s2 = |u: int| hh(r - 1 - u);
            algebra::lemma_total_eq(r - y, s1, s2);
        }
        algebra::lemma_total_eq(r, m, m2);
    }
    algebra::lemma_total_eq(kd, p, q);
}

/// Gradients of the tokens of a head, by token and channel.
pub struct TokenGradients<F> {
    pub d_q: Grid<F>,
    pub d_k: Grid<F>,
    pub d_v: Grid<F>,
    pub d_g: Grid<F>,
    pub d_b: Grid<F>,
    pub d_w: Grid<F>,
}

/// The change that the derivatives of token `t` make, by the gradients: the inner products with
/// the derivatives of `q`, `k`, `v`, `w`, `b` and `g`.
pub open spec fn change<F: Scalar>(d: TokenGradients<F>, x: Head<Dual<F>>, t: int) -> F {
    pairing::row_pair(x.kd, d.d_q, eps(x.q), t).plus(
        pairing::row_pair(x.kd, d.d_k, eps(x.k), t),
    ).plus(
        pairing::row_pair(x.vd, d.d_v, eps(x.v), t).plus(
            pairing::row_pair(x.vd, d.d_w, eps(x.w), t),
        ).plus(
            pairing::row_pair(x.kd, d.d_b, eps(x.b), t).plus(
                pairing::row_pair(x.kd, d.d_g, eps(x.g), t),
            ),
        ),
    )
}

/// The gradients of the tokens of a chunk.
pub open spec fn gradients_of<F: Scalar>(a: Adjoint<F>) -> TokenGradients<F> {
    TokenGradients {
        d_q: a.d_q(),
        d_k: a.d_k(),
        d_v: a.d_v(),
        d_g: a.d_g(),
        d_b: a.d_b(),
        d_w: a.d_w(),
    }
}

/// Regroups the contributions by the input that they belong to.
proof fn lemma_regroup_inputs<F: ExactScalar>(
    ds: F,
    q: F,
    k1: F,
    k2: F,
    k3: F,
    v: F,
    w: F,
    b: F,
    g1: F,
    g2: F,
    g3: F,
    g4: F,
    gl: F,
    gn: F,
)
    ensures
        ds.plus(g1.plus(q)).plus(g2.plus(k1).plus(g3.plus(k2.plus(b)))).plus(
            v.plus(w).plus(gl.plus(g4).plus(k3)).plus(gn),
        ) == ds.plus(
            q.plus(k2.plus(k1).plus(k3)).plus(
                v.plus(w).plus(
                    b.plus(g3.plus(g2).plus(g1.plus(g4)).plus(gl.plus(gn))),
                ),
            ),
        ),
{
    let kk = k2.plus(k1);
    let g32 = g3.plus(g2);
    let vw = v.plus(w);
    let gln = gl.plus(gn);
    let x1 = ds.plus(g1.plus(q));
    let x2 = g2.plus(k1).plus(g3.plus(k2.plus(b)));
    let x3 = vw.plus(gl.plus(g4).plus(k3)).plus(gn);
    assert(x1 == ds.plus(q).plus(g1)) by {
        F::plus_commutes(g1, q);
        F::plus_associates(ds, q, g1);
    }
    assert(x2 == kk.plus(b.plus(g32))) by {
        algebra::lemma_plus_swap(g2, k1, g3, k2.plus(b));
        F::plus_commutes(g2, g3);
        F::plus_associates(k1, k2, b);
        F::plus_commutes(k1, k2);
        F::plus_commutes(g32, kk.plus(b));
        F::plus_associates(kk, b, g32);
    }
    let y = vw.plus(gln.plus(g4));
    assert(x3 == k3.plus(y)) by {
        let gm = gl.plus(g4);
        F::plus_commutes(gm, k3);
        F::plus_associates(vw, k3, gm);
        F::plus_commutes(vw, k3);
        F::plus_associates(k3, vw, gm);
        F::plus_associates(k3, vw.plus(gm), gn);
        F::plus_associates(vw, gm, gn);
        algebra::lemma_plus_rotate(gl, g4, gn);
    }
    let p = ds.plus(q).plus(kk);
    let r = g1.plus(b.plus(g32));
    algebra::lemma_plus_swap(ds.plus(q), g1, kk, b.plus(g32));
    algebra::lemma_plus_swap(p, r, k3, y);
    assert(p.plus(k3) == ds.plus(q.plus(kk.plus(k3)))) by {
        F::plus_associates(ds.plus(q), kk, k3);
        F::plus_associates(ds, q, kk.plus(k3));
    }
    let g = g32.plus(g1.plus(g4)).plus(gln);
    assert(r.plus(y) == vw.plus(b.plus(g))) by {
        let c = gln.plus(g4);
        F::plus_commutes(r, y);
        F::plus_associates(vw, c, r);
        F::plus_commutes(c, r);
        F::plus_commutes(g1, b.plus(g32));
        F::plus_associates(b, g32, g1);
        F::plus_associates(b, g32.plus(g1), c);
        F::plus_commutes(gln, g4);
        F::plus_associates(g32.plus(g1), g4, gln);
        F::plus_associates(g32, g1, g4);
    }
    F::plus_associates(ds, q.plus(kk.plus(k3)), vw.plus(b.plus(g)));
}

/// In exact arithmetic the backward pass of a chunk is the adjoint of its derivative: for every
/// direction, the change of the outputs weighted by `d_out` and of the final state weighted by
/// `d_acc` is the change of the initial state and of the tokens weighted by the gradients.
pub proof fn chunk_gradient<F: ExactScalar>(x: Chunk<Dual<F>>, d_out: Grid<F>, d_acc: Grid<F>)
    requires
        regular(x),
    ensures
        pairing::pair(x.rows, x.vd, d_out, output_slopes(x)).plus(
            pairing::pair(x.kd, x.vd, d_acc, state_slopes(x)),
        ) == pairing::pair(
            x.kd,
            x.vd,
            adjoint_of(values(x), d_out, d_acc).d_s(),
            eps(x.s),
        ).plus(
            scalar::total(
                x.rows,
                |t: int|
                    change(gradients_of(adjoint_of(values(x), d_out, d_acc)), x.head(), t),
            ),
        ),
{
    let (r, kd, vd) = (x.rows, x.kd, x.vd);
    let a = adjoint_of(values(x), d_out, d_acc);
    let z = grid::plus(a.d_rhs_k(), a.d_bke());
    let sl = slope(x);
    let h = grid::times(grid::times(a.d_khat(), re(x.k)), span_of(x));
    lemma_by_intermediates(x, d_out, d_acc);
    lemma_by_inputs(x, a);
    lemma_by_slopes(x, a);
    pairing::lemma_pair_minus(r, kd, h, end_slope(x), sl);
    let ds = pairing::pair(kd, vd, a.d_s(), eps(x.s));
    let q = pairing::pair(r, kd, a.d_q(), eps(x.q));
    let k1 = pairing::pair(r, kd, grid::times(a.d_kg(), e_inv(x)), eps(x.k));
    let k2 = pairing::pair(r, kd, grid::times(a.d_bk(), re(x.b)), eps(x.k));
    let k3 = pairing::pair(r, kd, grid::times(a.d_khat(), span_of(x)), eps(x.k));
    let v = pairing::pair(r, vd, a.d_v(), eps(x.v));
    let w = pairing::pair(r, vd, a.d_w(), eps(x.w));
    let b = pairing::pair(r, kd, a.d_b(), eps(x.b));
    let c1 = grid::times(grid::times(a.d_qe(), re(x.q)), e_of(x));
    let c2 = grid::times(grid::times(a.d_kg(), re(x.k)), e_inv(x));
    let c3 = grid::times(grid::times(z, bk_of(x)), e_of(x));
    let g1 = pairing::pair(r, kd, c1, sl);
    let g2 = pairing::pair(r, kd, c2, grid::negated(sl));
    let g3 = pairing::pair(r, kd, c3, sl);
    let g4 = pairing::pair(r, kd, h, sl).negated();
    let gl = pairing::pair(r, kd, h, end_slope(x));
    let gn = pairing::pair(
        kd,
        vd,
        grid::times(a.d_acc, re(x.s)),
        grid::times(last_of(values(x)), last_slope(x)),
    );
    lemma_regroup_inputs(ds, q, k1, k2, k3, v, w, b, g1, g2, g3, g4, gl, gn);
    // The gradient of the keys has three parts.
    let p1 = grid::times(a.d_bk(), re(x.b));
    let p2 = grid::times(a.d_kg(), e_inv(x));
    let p3 = grid::times(a.d_khat(), span_of(x));
    let pk = grid::plus(grid::plus(p1, p2), p3);
    lemma_replay_grids(x);
    assert forall|i: int, j: int| 0 <= i < r && 0 <= j < kd implies #[trigger] a.d_k()(i, j) == pk(
        i,
        j,
    ) by {
        F::over_raised(a.d_kg()(i, j), values(x).g_cum(i, j));
        assert(a.c.decay()(i, j) == span_of(x)(i, j));
    }
    pairing::lemma_pair_eq(r, kd, a.d_k(), eps(x.k), pk, eps(x.k));
    pairing::lemma_plus_pair(r, kd, grid::plus(p1, p2), p3, eps(x.k));
    pairing::lemma_plus_pair(r, kd, p1, p2, eps(x.k));
    // Token by token.
    let d = gradients_of(a);
    let hd = x.head();
    let rq = |t: int| pairing::row_pair(kd, d.d_q, eps(hd.q), t);
    let rk = |t: int| pairing::row_pair(kd, d.d_k, eps(hd.k), t);
    let rv = |t: int| pairing::row_pair(vd, d.d_v, eps(hd.v), t);
    let rw = |t: int| pairing::row_pair(vd, d.d_w, eps(hd.w), t);
    let rb = |t: int| pairing::row_pair(kd, d.d_b, eps(hd.b), t);
    let rg = |t: int| pairing::row_pair(kd, d.d_g, eps(hd.g), t);
    let qk = |t: int| rq(t).plus(rk(t));
    let vw = |t: int| rv(t).plus(rw(t));
    let bg = |t: int| rb(t).plus(rg(t));
    let vb = |t: int| vw(t).plus(bg(t));
    let all = |t: int| change(d, hd, t);
    algebra::lemma_total_plus(r, rq, rk, qk);
    algebra::lemma_total_plus(r, rv, rw, vw);
    algebra::lemma_total_plus(r, rb, rg, bg);
    algebra::lemma_total_plus(r, vw, bg, vb);
    assert forall|t: int| 0 <= t < r implies #[trigger] all(t) == qk(t).plus(vb(t)) by {}
    algebra::lemma_total_plus(r, qk, vb, all);
}

/// The numbers of a head.
pub open spec fn head_values<F: Scalar>(h: Head<Dual<F>>) -> Head<F> {
    Head {
        kd: h.kd,
        vd: h.vd,
        q: re(h.q),
        k: re(h.k),
        v: re(h.v),
        g: re(h.g),
        b: re(h.b),
        w: re(h.w),
        scale: h.scale.re,
    }
}

/// The numbers of a head that is cut into chunks.
pub open spec fn chunking_values<F: Scalar>(ck: Chunking<Dual<F>>) -> Chunking<F> {
    Chunking {
        head: head_values(ck.head),
        tokens: ck.tokens,
        size: ck.size,
        tile: ck.tile,
        s: re(ck.s),
        saved: None,
    }
}

/// What the backward pass sees of a head after its forward pass.
pub open spec fn tape_of<F: Scalar>(ck: Chunking<F>, d_out: Grid<F>) -> Tape<F> {
    Tape {
        tokens: ck.tokens,
        size: ck.size,
        kd: ck.head.kd,
        vd: ck.head.vd,
        k: ck.head.k,
        v: ck.head.v,
        b: ck.head.b,
        w: ck.head.w,
        rows: |c: int| wy::padded_rows(ck.tile, ck.len(c)),
        e: |c: int, r: int, i: int| ck.chunk(c).e(r, i),
        qg: |c: int, r: int, i: int| ck.chunk(c).qg(r, i),
        aqk: |c: int, r: int, l: int| ck.chunk(c).aqk(r, l),
        m: |c: int, r: int, l: int| ck.inverse(c)(r, l),
        s: ck.s,
        d_out,
        scale: ck.head.scale,
    }
}

/// The gradients of all tokens.
pub open spec fn tape_gradients<F: Scalar>(t: Tape<F>) -> TokenGradients<F> {
    TokenGradients {
        d_q: |x: int, i: int| t.d_q(x, i),
        d_k: |x: int, i: int| t.d_k(x, i),
        d_v: |x: int, j: int| t.d_v(x, j),
        d_g: |x: int, i: int| t.d_g(x, i),
        d_b: |x: int, i: int| t.d_b(x, i),
        d_w: |x: int, j: int| t.d_w(x, j),
    }
}

/// A head that is cut into chunks, with a fixed scale, in which no decay between tiles is cut off.
pub open spec fn regular_chunking<F: Scalar>(ck: Chunking<Dual<F>>) -> bool {
    &&& ck.size > 0
    &&& ck.tile > 0
    &&& ck.tokens >= 0
    &&& ck.saved is None
    &&& ck.tiles_decay()
    &&& ck.head.scale.eps == F::nil()
}

/// The numbers of the state after a chunk are the state after its numbers.
proof fn lemma_run_value<F: ExactScalar>(x: Chunk<Dual<F>>, i: int, j: int)
    requires
        1 <= x.n,
    ensures
        x.head().run(x.s, 0, x.n)(i, j).re == values(x).head().run(values(x).s, 0, x.n)(i, j),
{
    let v = values(x);
    equivalence::lemma_state_form(x, x.n, i, j);
    equivalence::lemma_state_form(v, x.n, i, j);
    lemma_decay_parts(x, x.n - 1, i);
    let f = |r: int| (x.k)(r, i).times(x.span(x.n, r, i)).times(x.written(r, j));
    dual::lemma_total_parts(x.n, f);
    let a = |r: int| f(r).re;
    let b = |r: int| (v.k)(r, i).times(v.span(x.n, r, i)).times(v.written(r, j));
    assert forall|r: int| 0 <= r < x.n implies #[trigger] a(r) == b(r) by {
        lemma_decay_parts(x, r, i);
        lemma_writes_value(x, r, j);
    }
    algebra::lemma_total_eq(x.n, a, b);
    assert(x.cum(x.n, i) == x.g_cum(x.n - 1, i));
    assert(v.cum(x.n, i) == v.g_cum(x.n - 1, i));
}

/// Chunk `c` is regular.
proof fn lemma_chunk_regular<F: ExactScalar>(ck: Chunking<Dual<F>>, c: int)
    requires
        regular_chunking(ck),
        0 <= c < ck.count(),
    ensures
        regular(ck.chunk(c)),
{
    equivalence::lemma_chunk_bounds(ck, c);
    assert(ck.chunk(c).tiles_decay());
}

/// The numbers of the states are the states of the numbers.
proof fn lemma_state_values<F: ExactScalar>(ck: Chunking<Dual<F>>, c: int)
    requires
        regular_chunking(ck),
        0 <= c <= ck.count(),
    ensures
        re(ck.state(c)) == chunking_values(ck).state(c),
        c < ck.count() ==> values(ck.chunk(c)) == chunking_values(ck).chunk(c),
    decreases c,
{
    let v = chunking_values(ck);
    if c > 0 {
        lemma_state_values(ck, c - 1);
        lemma_chunk_regular(ck, c - 1);
        let x = ck.chunk(c - 1);
        lemma_values_regular(x);
        assert forall|i: int, j: int| true implies #[trigger] re(ck.state(c))(i, j) == v.state(c)(
            i,
            j,
        ) by {
            equivalence::lemma_states_agree(x, i, j);
            equivalence::lemma_states_agree(values(x), i, j);
            lemma_run_value(x, i, j);
        }
        assert(re(ck.state(c)) =~= v.state(c));
    } else {
        assert(re(ck.state(0)) =~= v.state(0));
    }
    if c < ck.count() {
        let (a, b) = (values(ck.chunk(c)), v.chunk(c));
        assert(a.q =~= b.q);
        assert(a.k =~= b.k);
        assert(a.v =~= b.v);
        assert(a.g =~= b.g);
        assert(a.b =~= b.b);
        assert(a.w =~= b.w);
        assert(a =~= b);
    }
}

/// The backward pass derives the states of the forward pass again.
pub proof fn lemma_tape_state<F: ExactScalar>(ck: Chunking<Dual<F>>, d_out: Grid<F>, c: int)
    requires
        regular_chunking(ck),
        0 <= c <= ck.count(),
    ensures
        tape_of(chunking_values(ck), d_out).state(c) == chunking_values(ck).state(c),
        c < ck.count() ==> tape_of(chunking_values(ck), d_out).replay(
            c,
            chunking_values(ck).state(c),
        ) == replay_of(chunking_values(ck).chunk(c)),
    decreases c,
{
    let v = chunking_values(ck);
    let tape = tape_of(v, d_out);
    if c < ck.count() {
        let (a, b) = (tape.replay(c, v.state(c)), replay_of(v.chunk(c)));
        assert(a.k =~= b.k);
        assert(a.v =~= b.v);
        assert(a.b =~= b.b);
        assert(a.w =~= b.w);
        assert(a.e =~= b.e);
        assert(a.qg =~= b.qg);
        assert(a.aqk =~= b.aqk);
        assert(a.m =~= b.m);
        assert(a =~= b);
    }
    if c > 0 {
        lemma_tape_state(ck, d_out, c - 1);
        lemma_state_values(ck, c - 1);
        lemma_chunk_regular(ck, c - 1);
        let x = v.chunk(c - 1);
        lemma_values_regular(ck.chunk(c - 1));
        let rp = replay_of(x);
        assert forall|i: int, j: int| true implies #[trigger] tape.state(c)(i, j) == v.state(c)(
            i,
            j,
        ) by {
            let f = |r: int| grid::times(rp.k, rp.decay())(r, i).times(rp.v_new()(r, j));
            let f2 = |r: int|
                (x.k)(r, i).times(x.decay_last(r, i)).times(x.v_new(x.solver(), r, j));
            assert forall|r: int| 0 <= r < x.rows implies #[trigger] f(r) == f2(r) by {
                F::over_raised(x.e(x.n - 1, i), x.g_cum(r, i));
                algebra::lemma_raised_minus(x.g_cum(x.n - 1, i), x.g_cum(r, i));
                let g = |l: int| x.solver()(r, l).times(rp.rhs_v()(l, j));
                let g2 = |l: int| x.solver()(r, l).times(x.rhs_v(l, j));
                algebra::lemma_total_eq(x.rows, g, g2);
                let h = |y: int| rp.w_wy()(r, y).times((rp.s)(y, j));
                let h2 = |y: int| x.w_wy(x.solver(), r, y).times((x.s)(y, j));
                assert forall|y: int| 0 <= y < x.kd implies #[trigger] h(y) == h2(y) by {
                    let p = |l: int| x.solver()(r, l).times(rp.rhs_k()(l, y));
                    let p2 = |l: int| x.solver()(r, l).times(x.rhs_k(l, y));
                    algebra::lemma_total_eq(x.rows, p, p2);
                }
                algebra::lemma_total_eq(x.kd, h, h2);
            }
            algebra::lemma_total_eq(x.rows, f, f2);
        }
        assert(tape.state(c) =~= v.state(c));
    } else {
        assert(tape.state(0) =~= v.state(0));
    }
}

/// Sums over the tokens from `lo` on.
pub open spec fn tail<F: Scalar>(lo: int, n: int, f: spec_fn(int) -> F) -> F {
    scalar::total(n - lo, |x: int| f(lo + x))
}

/// A tail split after its first `m` terms.
proof fn lemma_tail_split<F: ExactScalar>(lo: int, m: int, n: int, f: spec_fn(int) -> F)
    requires
        0 <= m,
        lo + m <= n,
    ensures
        tail(lo, n, f) == scalar::total(m, |x: int| f(lo + x)).plus(tail(lo + m, n, f)),
{
    let g = |x: int| f(lo + x);
    algebra::lemma_total_split(n - lo, m, g);
    let a = |i: int| g(m + i);
    let b = |x: int| f(lo + m + x);
    algebra::lemma_total_eq(n - lo - m, a, b);
}

/// The change that the tokens from chunk `c` on make to the outputs, by the gradients.
proof fn lemma_tail_gradient<F: ExactScalar>(ck: Chunking<Dual<F>>, d_out: Grid<F>, c: int)
    requires
        regular_chunking(ck),
        0 <= c <= ck.count(),
    ensures
        ({
            let tape = tape_of(chunking_values(ck), d_out);
            let lo = equivalence::chunk_start(ck, c);
            let outs = |t: int, j: int| ck.head.output(ck.s, t, j).eps;
            tail(lo, ck.tokens, |t: int| pairing::row_pair(ck.head.vd, d_out, outs, t))
                == pairing::pair(
                ck.head.kd,
                ck.head.vd,
                tape.passed_back(c - 1),
                eps(ck.state(c)),
            ).plus(
                tail(lo, ck.tokens, |t: int| change(tape_gradients(tape), ck.head, t)),
            )
        }),
    decreases ck.count() - c,
{
    let v = chunking_values(ck);
    let tape = tape_of(v, d_out);
    let (kd, vd, n) = (ck.head.kd, ck.head.vd, ck.tokens);
    let outs = |t: int, j: int| ck.head.output(ck.s, t, j).eps;
    let fo = |t: int| pairing::row_pair(vd, d_out, outs, t);
    let fc = |t: int| change(tape_gradients(tape), ck.head, t);
    if c == ck.count() {
        let z = grid::zero::<F>();
        let f = |i: int| pairing::row_pair(vd, z, eps(ck.state(c)), i);
        assert forall|i: int| 0 <= i < kd implies #[trigger] f(i) == F::nil() by {
            let g = |j: int| z(i, j).times(eps(ck.state(c))(i, j));
            assert forall|j: int| 0 <= j < vd implies #[trigger] g(j) == F::nil() by {
                algebra::lemma_times_nil(eps(ck.state(c))(i, j));
            }
            algebra::lemma_total_nil(vd, g);
        }
        algebra::lemma_total_nil(kd, f);
        F::plus_nil(F::nil());
    } else {
        lemma_tail_gradient(ck, d_out, c + 1);
        equivalence::lemma_chunk_bounds(ck, c);
        lemma_chunk_regular(ck, c);
        lemma_state_values(ck, c);
        lemma_tape_state(ck, d_out, c);
        let x = ck.chunk(c);
        let lo = c * ck.size;
        let len = ck.len(c);
        assert(equivalence::chunk_start(ck, c) == lo);
        assert(equivalence::chunk_start(ck, c + 1) == lo + len);
        let d = tape.padded(tape.d_out, c);
        let back = tape.passed_back(c);
        let a = adjoint_of(values(x), d, back);
        assert(tape.adjoint(c) == a);
        chunk_gradient(x, d, back);
        // The state after the chunk.
        let st = state_slopes(x);
        assert forall|i: int, j: int| 0 <= i < kd && 0 <= j < vd implies #[trigger] st(i, j)
            == eps(ck.state(c + 1))(i, j) by {
            equivalence::lemma_states_agree(x, i, j);
        }
        pairing::lemma_pair_eq(kd, vd, back, st, back, eps(ck.state(c + 1)));
        // The outputs of the chunk.
        lemma_chunk_outputs(ck, d_out, c);
        let co = |t: int| pairing::row_pair(vd, d, output_slopes(x), t);
        let ho = |t: int| fo(lo + t);
        assert(pairing::pair(x.rows, vd, d, output_slopes(x)) == scalar::total(x.rows, co));
        // The tokens of the chunk.
        lemma_chunk_changes(ck, d_out, c);
        let cc = |t: int| change(gradients_of(a), x.head(), t);
        let hc = |t: int| fc(lo + t);
        lemma_tail_split(lo, len, n, fo);
        lemma_tail_split(lo, len, n, fc);
        let fo2 = |y: int| fo(lo + y);
        let fc2 = |y: int| fc(lo + y);
        algebra::lemma_total_eq(len, ho, fo2);
        algebra::lemma_total_eq(len, hc, fc2);
        let s = pairing::pair(kd, vd, a.d_s(), eps(x.s));
        assert(tape.passed_back(c - 1) == a.d_s());
        let (p, q) = (scalar::total(len, ho), scalar::total(len, hc));
        let pb = pairing::pair(kd, vd, back, eps(ck.state(c + 1)));
        let later = tail(lo + len, n, fc);
        let ho2 = |t: int| pairing::row_pair(ck.head.vd, d_out, outs, c * ck.size + t);
        algebra::lemma_total_eq(len, ho, ho2);
        let hc2 = |t: int| change(tape_gradients(tape), ck.head, c * ck.size + t);
        algebra::lemma_total_eq(len, hc, hc2);
        let cc2 = |t: int| change(gradients_of(tape.adjoint(c)), x.head(), t);
        algebra::lemma_total_eq(x.rows, cc, cc2);
        assert(scalar::total(x.rows, co) == p);
        assert(scalar::total(x.rows, cc) == q);
        // p + (pb + later) = (p + pb) + later = (s + q) + later = s + (q + later)
        F::plus_associates(p, pb, later);
        F::plus_associates(s, q, later);
    }
}

/// The outputs of a chunk, weighted, are those of its tokens.
proof fn lemma_chunk_outputs<F: ExactScalar>(ck: Chunking<Dual<F>>, d_out: Grid<F>, c: int)
    requires
        regular_chunking(ck),
        0 <= c < ck.count(),
    ensures
        ({
            let tape = tape_of(chunking_values(ck), d_out);
            let x = ck.chunk(c);
            let outs = |t: int, j: int| ck.head.output(ck.s, t, j).eps;
            scalar::total(
                x.rows,
                |t: int|
                    pairing::row_pair(
                        x.vd,
                        tape.padded(tape.d_out, c),
                        output_slopes(x),
                        t,
                    ),
            ) == scalar::total(
                ck.len(c),
                |t: int| pairing::row_pair(ck.head.vd, d_out, outs, c * ck.size + t),
            )
        }),
{
    let tape = tape_of(chunking_values(ck), d_out);
    let x = ck.chunk(c);
    let (lo, len, vd) = (c * ck.size, ck.len(c), ck.head.vd);
    let d = tape.padded(tape.d_out, c);
    let outs = |t: int, j: int| ck.head.output(ck.s, t, j).eps;
    equivalence::lemma_chunk_bounds(ck, c);
    let co = |t: int| pairing::row_pair(x.vd, d, output_slopes(x), t);
    assert forall|t: int| len <= t < x.rows implies #[trigger] co(t) == F::nil() by {
        let g = |j: int| d(t, j).times(output_slopes(x)(t, j));
        assert forall|j: int| 0 <= j < vd implies #[trigger] g(j) == F::nil() by {
            algebra::lemma_times_nil(output_slopes(x)(t, j));
        }
        algebra::lemma_total_nil(vd, g);
    }
    algebra::lemma_total_cut(x.rows, len, co);
    equivalence::lemma_chunks_agree(ck, c);
    assert forall|t: int| 0 <= t < len implies #[trigger] x.head().same_token(
        t,
        ck.head,
        lo + t,
    ) by {}
    recurrence::lemma_run_same(x.head(), x.s, ck.head, ck.s, lo, len);
    let ho = |t: int| pairing::row_pair(vd, d_out, outs, lo + t);
    assert forall|t: int| 0 <= t < len implies #[trigger] co(t) == ho(t) by {
        let g = |j: int| d(t, j).times(output_slopes(x)(t, j));
        let g2 = |j: int| d_out(lo + t, j).times(outs(lo + t, j));
        assert forall|j: int| 0 <= j < vd implies #[trigger] g(j) == g2(j) by {
            assert(x.head().output(x.s, t, j) == ck.head.output(ck.s, lo + t, j));
        }
        algebra::lemma_total_eq(vd, g, g2);
    }
    algebra::lemma_total_eq(len, co, ho);
}

/// An inner product of rows, where one side is zero.
proof fn lemma_row_pair_nil<F: ExactScalar>(cols: int, a: Grid<F>, b: Grid<F>, i: int)
    requires
        forall|j: int| 0 <= j < cols ==> #[trigger] b(i, j) == F::nil(),
    ensures
        pairing::row_pair(cols, a, b, i) == F::nil(),
{
    let g = |j: int| a(i, j).times(b(i, j));
    assert forall|j: int| 0 <= j < cols implies #[trigger] g(j) == F::nil() by {
        assert(b(i, j) == F::nil());
        algebra::lemma_times_nil(a(i, j));
    }
    algebra::lemma_total_nil(cols, g);
}

/// The changes of the tokens of a chunk are those of the sequence.
proof fn lemma_chunk_changes<F: ExactScalar>(ck: Chunking<Dual<F>>, d_out: Grid<F>, c: int)
    requires
        regular_chunking(ck),
        0 <= c < ck.count(),
    ensures
        ({
            let tape = tape_of(chunking_values(ck), d_out);
            let x = ck.chunk(c);
            scalar::total(
                x.rows,
                |t: int| change(gradients_of(tape.adjoint(c)), x.head(), t),
            ) == scalar::total(
                ck.len(c),
                |t: int| change(tape_gradients(tape), ck.head, c * ck.size + t),
            )
        }),
{
    let tape = tape_of(chunking_values(ck), d_out);
    let x = ck.chunk(c);
    let (lo, len, size) = (c * ck.size, ck.len(c), ck.size);
    let (kd, vd) = (ck.head.kd, ck.head.vd);
    let d = gradients_of(tape.adjoint(c));
    let e = tape_gradients(tape);
    let h = x.head();
    equivalence::lemma_chunk_bounds(ck, c);
    let cc = |t: int| change(d, h, t);
    assert forall|t: int| len <= t < x.rows implies #[trigger] cc(t) == F::nil() by {
        lemma_row_pair_nil(kd, d.d_q, eps(h.q), t);
        lemma_row_pair_nil(kd, d.d_k, eps(h.k), t);
        lemma_row_pair_nil(vd, d.d_v, eps(h.v), t);
        lemma_row_pair_nil(vd, d.d_w, eps(h.w), t);
        lemma_row_pair_nil(kd, d.d_b, eps(h.b), t);
        lemma_row_pair_nil(kd, d.d_g, eps(h.g), t);
        F::plus_nil(F::nil());
    }
    algebra::lemma_total_cut(x.rows, len, cc);
    let hc = |t: int| change(e, ck.head, lo + t);
    assert forall|t: int| 0 <= t < len implies #[trigger] cc(t) == hc(t) by {
        let u = lo + t;
        assert(u / size == c && u % size == t) by (nonlinear_arith)
            requires
                size > 0,
                u == c * size + t,
                0 <= t < size,
        ;
        lemma_row_pair_same(kd, d.d_q, eps(h.q), t, e.d_q, eps(ck.head.q), u);
        lemma_row_pair_same(kd, d.d_k, eps(h.k), t, e.d_k, eps(ck.head.k), u);
        lemma_row_pair_same(vd, d.d_v, eps(h.v), t, e.d_v, eps(ck.head.v), u);
        lemma_row_pair_same(vd, d.d_w, eps(h.w), t, e.d_w, eps(ck.head.w), u);
        lemma_row_pair_same(kd, d.d_b, eps(h.b), t, e.d_b, eps(ck.head.b), u);
        lemma_row_pair_same(kd, d.d_g, eps(h.g), t, e.d_g, eps(ck.head.g), u);
    }
    algebra::lemma_total_eq(len, cc, hc);
}

/// Equal rows have equal inner products.
proof fn lemma_row_pair_same<F: Scalar>(
    cols: int,
    a: Grid<F>,
    b: Grid<F>,
    i: int,
    a2: Grid<F>,
    b2: Grid<F>,
    i2: int,
)
    requires
        forall|j: int| 0 <= j < cols ==> #[trigger] a(i, j) == a2(i2, j),
        forall|j: int| 0 <= j < cols ==> #[trigger] b(i, j) == b2(i2, j),
    ensures
        pairing::row_pair(cols, a, b, i) == pairing::row_pair(cols, a2, b2, i2),
{
    let g = |j: int| a(i, j).times(b(i, j));
    let g2 = |j: int| a2(i2, j).times(b2(i2, j));
    assert forall|j: int| 0 <= j < cols implies #[trigger] g(j) == g2(j) by {
        assert(a(i, j) == a2(i2, j) && b(i, j) == b2(i2, j));
    }
    algebra::lemma_total_eq(cols, g, g2);
}

/// In exact arithmetic the backward pass computes the gradient of the recurrence: for every
/// direction in which the inputs change, the change of the outputs weighted by `d_out` is the
/// change of the initial state and of the tokens weighted by the gradients.
pub proof fn backward_is_gradient<F: ExactScalar>(ck: Chunking<Dual<F>>, d_out: Grid<F>)
    requires
        regular_chunking(ck),
    ensures
        ({
            let tape = tape_of(chunking_values(ck), d_out);
            pairing::pair(
                ck.tokens,
                ck.head.vd,
                d_out,
                |t: int, j: int| ck.head.output(ck.s, t, j).eps,
            ) == pairing::pair(
                ck.head.kd,
                ck.head.vd,
                |i: int, j: int| tape.d_s(i, j),
                eps(ck.s),
            ).plus(
                scalar::total(
                    ck.tokens,
                    |t: int| change(tape_gradients(tape), ck.head, t),
                ),
            )
        }),
{
    let tape = tape_of(chunking_values(ck), d_out);
    let (size, tokens) = (ck.size, ck.tokens);
    assert(0 <= (tokens + size - 1) / size) by (nonlinear_arith)
        requires
            size > 0,
            tokens >= 0,
    ;
    lemma_tail_gradient(ck, d_out, 0);
    let outs = |t: int, j: int| ck.head.output(ck.s, t, j).eps;
    let lo = equivalence::chunk_start(ck, 0);
    assert(lo == 0) by {
        if ck.count() == 0 {
            assert(tokens == 0) by (nonlinear_arith)
                requires
                    size > 0,
                    tokens >= 0,
                    (tokens + size - 1) / size == 0,
            ;
        }
    }
    let f = |t: int| pairing::row_pair(ck.head.vd, d_out, outs, t);
    let f2 = |x: int| f(0 + x);
    algebra::lemma_total_eq(tokens, f, f2);
    let g = |t: int| change(tape_gradients(tape), ck.head, t);
    let g2 = |x: int| g(0 + x);
    algebra::lemma_total_eq(tokens, g, g2);
    let d_s = |i: int, j: int| tape.d_s(i, j);
    assert(d_s =~= tape.passed_back(-1));
}

/// A matrix and a direction in which it changes.
pub open spec fn lifted<F: Scalar>(a: Grid<F>, dir: Grid<F>) -> Grid<Dual<F>> {
    |i: int, j: int| Dual { re: a(i, j), eps: dir(i, j) }
}

/// A head and a direction in which its tokens change.
pub open spec fn lifted_head<F: Scalar>(h: Head<F>, dir: Head<F>) -> Head<Dual<F>> {
    Head {
        kd: h.kd,
        vd: h.vd,
        q: lifted(h.q, dir.q),
        k: lifted(h.k, dir.k),
        v: lifted(h.v, dir.v),
        g: lifted(h.g, dir.g),
        b: lifted(h.b, dir.b),
        w: lifted(h.w, dir.w),
        scale: Dual { re: h.scale, eps: F::nil() },
    }
}

/// A head that is cut into chunks, and a direction in which its tokens and its initial state
/// change.
pub open spec fn lifted_chunking<F: Scalar>(
    ck: Chunking<F>,
    dir: Head<F>,
    dir_s: Grid<F>,
) -> Chunking<Dual<F>> {
    Chunking {
        head: lifted_head(ck.head, dir),
        tokens: ck.tokens,
        size: ck.size,
        tile: ck.tile,
        s: lifted(ck.s, dir_s),
        saved: None,
    }
}

/// The numbers are those of the head, and its tiles decay.
pub proof fn lemma_lifted<F: ExactScalar>(ck: Chunking<F>, dir: Head<F>, dir_s: Grid<F>)
    requires
        ck.size > 0,
        ck.tile > 0,
        ck.tokens >= 0,
        ck.saved is None,
        ck.tiles_decay(),
    ensures
        chunking_values(lifted_chunking(ck, dir, dir_s)) == ck,
        regular_chunking(lifted_chunking(ck, dir, dir_s)),
{
    let x = lifted_chunking(ck, dir, dir_s);
    let v = chunking_values(x);
    assert(v.head.q =~= ck.head.q);
    assert(v.head.k =~= ck.head.k);
    assert(v.head.v =~= ck.head.v);
    assert(v.head.g =~= ck.head.g);
    assert(v.head.b =~= ck.head.b);
    assert(v.head.w =~= ck.head.w);
    assert(v.s =~= ck.s);
    assert(v.head =~= ck.head);
    assert(v =~= ck);
    assert forall|c: int| 0 <= c < x.count() implies (#[trigger] x.chunk(c)).tiles_decay() by {
        let (a, b) = (x.chunk(c), ck.chunk(c));
        assert(b.tiles_decay());
        assert(values(a).g =~= b.g);
        assert forall|r: int, l: int, i: int|
            a.n > a.tile && 0 <= l <= r < a.rows && 0 <= i < a.kd implies #[trigger] a.gap(r, l, i).below(
            Dual::nil(),
        ) by {
            let (p, q) = (r / a.tile, l / a.tile);
            lemma_decay_parts(a, p * a.tile - 1, i);
            lemma_decay_parts(a, q * a.tile - 1, i);
            assert(b.gap(r, l, i).below(F::nil()));
        }
    }
}

/// The change by a token depends on its gradients alone.
pub proof fn lemma_change_same<F: Scalar>(
    e: TokenGradients<F>,
    g: TokenGradients<F>,
    h: Head<Dual<F>>,
    t: int,
)
    requires
        forall|i: int| 0 <= i < h.kd ==> #[trigger] (e.d_q)(t, i) == (g.d_q)(t, i),
        forall|i: int| 0 <= i < h.kd ==> #[trigger] (e.d_k)(t, i) == (g.d_k)(t, i),
        forall|j: int| 0 <= j < h.vd ==> #[trigger] (e.d_v)(t, j) == (g.d_v)(t, j),
        forall|i: int| 0 <= i < h.kd ==> #[trigger] (e.d_g)(t, i) == (g.d_g)(t, i),
        forall|i: int| 0 <= i < h.kd ==> #[trigger] (e.d_b)(t, i) == (g.d_b)(t, i),
        forall|j: int| 0 <= j < h.vd ==> #[trigger] (e.d_w)(t, j) == (g.d_w)(t, j),
    ensures
        change(e, h, t) == change(g, h, t),
{
    lemma_row_pair_same(h.kd, e.d_q, eps(h.q), t, g.d_q, eps(h.q), t);
    lemma_row_pair_same(h.kd, e.d_k, eps(h.k), t, g.d_k, eps(h.k), t);
    lemma_row_pair_same(h.vd, e.d_v, eps(h.v), t, g.d_v, eps(h.v), t);
    lemma_row_pair_same(h.vd, e.d_w, eps(h.w), t, g.d_w, eps(h.w), t);
    lemma_row_pair_same(h.kd, e.d_b, eps(h.b), t, g.d_b, eps(h.b), t);
    lemma_row_pair_same(h.kd, e.d_g, eps(h.g), t, g.d_g, eps(h.g), t);
}

/// What `backward` returns for head `hi` of batch `bi`, token by token.
pub open spec fn returned<F: Scalar>(r: ChunkWyGradients<F>, bi: int, hi: int) -> TokenGradients<F> {
    TokenGradients {
        d_q: streams::state_of(r.d_q, bi, hi),
        d_k: streams::state_of(r.d_k, bi, hi),
        d_v: streams::state_of(r.d_v, bi, hi),
        d_g: streams::state_of(r.d_g, bi, hi),
        d_b: streams::state_of(r.d_b, bi, hi),
        d_w: streams::state_of(r.d_w, bi, hi),
    }
}

/// What `backward` returns is the gradient, where its tape is that of the head.
pub proof fn lemma_tape_gradient<F: ExactScalar>(
    ck: Chunking<F>,
    t1: Tape<F>,
    d: Grid<F>,
    r: ChunkWyGradients<F>,
    bi: int,
    hi: int,
    dir: Head<F>,
    dir_s: Grid<F>,
)
    requires
        ck.size > 0,
        ck.tile > 0,
        ck.tokens >= 0,
        ck.saved is None,
        ck.tiles_decay(),
        t1.agrees(tape_of(ck, d)),
        r.rows_are(t1, bi, hi, 0),
        forall|i: int, j: int|
            0 <= i < t1.kd && 0 <= j < t1.vd ==> #[trigger] r.d_s.at(bi, hi, i, j) == t1.d_s(i, j),
    ensures
        ({
            let h = lifted_head(ck.head, dir);
            let s = lifted(ck.s, dir_s);
            pairing::pair(
                ck.tokens,
                ck.head.vd,
                d,
                |t: int, j: int| h.output(s, t, j).eps,
            ) == pairing::pair(
                ck.head.kd,
                ck.head.vd,
                streams::state_of(r.d_s, bi, hi),
                dir_s,
            ).plus(
                scalar::total(ck.tokens, |t: int| change(returned(r, bi, hi), h, t)),
            )
        }),
{
    let x = lifted_chunking(ck, dir, dir_s);
    lemma_lifted(ck, dir, dir_s);
    backward_is_gradient(x, d);
    let t2 = tape_of(ck, d);
    // What was returned is what the tape says.
    let outs = |t: int, j: int| x.head.output(x.s, t, j).eps;
    let f1 = |t: int| change(returned(r, bi, hi), x.head, t);
    let f2 = |t: int| change(tape_gradients(t2), x.head, t);
    assert forall|t: int| 0 <= t < ck.tokens implies #[trigger] f1(t) == f2(t) by {
        t1.lemma_local(t2, t);
        let (e, g) = (returned(r, bi, hi), tape_gradients(t2));
        let (kd, vd) = (t1.kd, t1.vd);
        assert forall|i: int| 0 <= i < kd implies #[trigger] (e.d_q)(t, i) == (g.d_q)(t, i) by {
            assert(r.d_q.at(bi, hi, t, i) == t1.d_q(t, i));
        }
        assert forall|i: int| 0 <= i < kd implies #[trigger] (e.d_k)(t, i) == (g.d_k)(t, i) by {
            assert(r.d_k.at(bi, hi, t, i) == t1.d_k(t, i));
        }
        assert forall|j: int| 0 <= j < vd implies #[trigger] (e.d_v)(t, j) == (g.d_v)(t, j) by {
            assert(r.d_v.at(bi, hi, t, j) == t1.d_v(t, j));
        }
        assert forall|j: int| 0 <= j < vd implies #[trigger] (e.d_w)(t, j) == (g.d_w)(t, j) by {
            assert(r.d_w.at(bi, hi, t, j) == t1.d_w(t, j));
        }
        assert forall|i: int| 0 <= i < kd implies #[trigger] (e.d_b)(t, i) == (g.d_b)(t, i) by {
            assert(r.d_b.at(bi, hi, t, i) == t1.d_b(t, i));
        }
        assert forall|i: int| 0 <= i < kd implies #[trigger] (e.d_g)(t, i) == (g.d_g)(t, i) by {
            assert(r.d_g.at(bi, hi, t, i) == t1.d_g(t, i));
        }
        lemma_change_same(e, g, x.head, t);
    }
    algebra::lemma_total_eq(ck.tokens, f1, f2);
    let (s1, s2) = (streams::state_of(r.d_s, bi, hi), |i: int, j: int| t2.d_s(i, j));
    assert(pairing::agree(ck.head.kd, ck.head.vd, s1, s2)) by {
        t1.lemma_bounds_count();
        t1.lemma_back_local(t2, -1);
        assert forall|i: int, j: int| 0 <= i < t1.kd && 0 <= j < t1.vd implies #[trigger] s1(i, j)
            == s2(i, j) by {
            assert(r.d_s.at(bi, hi, i, j) == t1.d_s(i, j));
            assert(t1.passed_back(-1)(i, j) == t2.passed_back(-1)(i, j));
        }
    }
    assert(eps(x.s) =~= dir_s);
    pairing::lemma_pair_eq(ck.head.kd, ck.head.vd, s1, dir_s, s2, dir_s);
    let h = lifted_head(ck.head, dir);
    let s = lifted(ck.s, dir_s);
    assert(h == x.head && s == x.s);
    let outs2 = |t: int, j: int| h.output(s, t, j).eps;
    pairing::lemma_pair_eq(ck.tokens, ck.head.vd, d, outs, d, outs2);
}

/// What the backward pass gets is what the forward pass `p` left.
pub open spec fn follows<F: Scalar>(y: ChunkWy<F>, p: Pass<F>) -> bool {
    &&& *y.k == *p.x.k
    &&& *y.v == *p.x.v
    &&& *y.b == *p.x.b
    &&& *y.w == *p.x.w
    &&& *y.s_in == p.state
    &&& y.scale == p.scale
    &&& y.chunk_size == p.size
    &&& forall|c: int|
        0 <= c < p.count() ==> (#[trigger] y.scratch.chunks@[c]).is_of(p, c)
}

/// What the backward pass sees of a head is what the forward pass left of it.
pub proof fn lemma_follows<F: ExactScalar>(
    p: Pass<F>,
    y: ChunkWy<F>,
    d_out: Tensor4<F>,
    bi: int,
    hi: int,
)
    requires
        p.wf(),
        p.saved is None,
        y.wf(),
        follows(y, p),
        0 <= bi < p.x.batch(),
        0 <= hi < p.x.heads(),
    ensures
        y.head(d_out, bi, hi).agrees(tape_of(p.head(bi, hi), streams::state_of(d_out, bi, hi))),
{
    let ck = p.head(bi, hi);
    let t1 = y.head(d_out, bi, hi);
    let t2 = tape_of(ck, streams::state_of(d_out, bi, hi));
    assert forall|t: int, i: int|
        0 <= t < t1.tokens && 0 <= i < t1.kd implies #[trigger] (t1.b)(t, i) == (t2.b)(t, i) by {}
    assert forall|c: int| 0 <= c < t1.count() implies #[trigger] t1.chunk_agrees(t2, c) by {
        let sc = y.scratch.chunks@[c];
        assert(sc.is_of(p, c));
        assert(sc.head_is(ck.chunk(c), ck.inverse(c), bi, hi));
        equivalence::lemma_chunk_bounds(ck, c);
    }
}

/// In exact arithmetic `ChunkWy::backward`, run on what the forward pass left, returns the gradient
/// of the outputs: for every direction in which the tokens and the initial state of a head change,
/// the change of its outputs weighted by `d_out` is the change of its inputs weighted by what was
/// returned.
pub proof fn backward_pass_is_gradient<F: ExactScalar>(
    p: Pass<F>,
    y: ChunkWy<F>,
    d_out: Tensor4<F>,
    r: ChunkWyGradients<F>,
    bi: int,
    hi: int,
    dir: Head<F>,
    dir_s: Grid<F>,
)
    requires
        p.wf(),
        p.saved is None,
        y.wf(),
        follows(y, p),
        0 <= bi < p.x.batch(),
        0 <= hi < p.x.heads(),
        p.head(bi, hi).tiles_decay(),
        r.rows_are(y.head(d_out, bi, hi), bi, hi, 0),
        forall|i: int, j: int|
            0 <= i < y.kd() && 0 <= j < y.vd() ==> #[trigger] r.d_s.at(bi, hi, i, j) == y.head(
                d_out,
                bi,
                hi,
            ).d_s(i, j),
    ensures
        ({
            let h = lifted_head(p.x.head(p.scale, bi, hi), dir);
            let s = lifted(streams::state_of(p.state, bi, hi), dir_s);
            pairing::pair(
                p.x.tokens(),
                p.x.vd(),
                streams::state_of(d_out, bi, hi),
                |t: int, j: int| h.output(s, t, j).eps,
            ) == pairing::pair(
                p.x.kd(),
                p.x.vd(),
                streams::state_of(r.d_s, bi, hi),
                dir_s,
            ).plus(
                scalar::total(p.x.tokens(), |t: int| change(returned(r, bi, hi), h, t)),
            )
        }),
{
    let ck = p.head(bi, hi);
    let d = streams::state_of(d_out, bi, hi);
    let t1 = y.head(d_out, bi, hi);
    lemma_follows(p, y, d_out, bi, hi);
    lemma_tape_gradient(ck, t1, d, r, bi, hi, dir, dir_s);
}

} // verus!
