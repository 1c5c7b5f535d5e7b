//! What the parts of a layer do, in terms of what goes in and what comes out: activations,
//! projections, convolution and normalization.

use vstd::prelude::*;

use crate::activation;
use crate::algebra;
use crate::l2norm;
use crate::layer;
use crate::linear::Linear;
use crate::scalar;
use crate::scalar::{ExactScalar, Scalar};
use crate::short_conv;
use crate::tensor::Matrix;

verus! {

/// Where one can divide by `1 + exp(-x)`, the logistic function is its reciprocal, and the sigmoid
/// linear unit times it is `x`.
pub proof fn logistic_is_reciprocal<F: ExactScalar>(x: F)
    requires
        l2norm::divides(F::unit().plus(x.negated().raised())),
    ensures
        activation::logistic(x).times(F::unit().plus(x.negated().raised())) == F::unit(),
        activation::swish(x).times(F::unit().plus(x.negated().raised())) == x,
{
    let d = F::unit().plus(x.negated().raised());
    assert(F::unit().over(d).times(d) == F::unit());
    F::times_associates(x, activation::logistic(x), d);
    F::times_unit(x);
}

/// The sigmoid linear unit of 0 is 0.
pub proof fn swish_of_nothing<F: ExactScalar>()
    ensures
        activation::swish(F::nil()) == F::nil(),
{
    algebra::lemma_times_nil(activation::logistic(F::nil()));
}

/// The exponential of the softplus function is `exp(x) + 1`, where the logarithm of that can be
/// undone.
pub proof fn softplus_undone<F: ExactScalar>(x: F)
    requires
        x.raised().plus(F::unit()).logged().raised() == x.raised().plus(F::unit()),
    ensures
        activation::smooth_ramp(x).raised() == F::unit().plus(x.raised()),
{
    F::plus_commutes(x.raised(), F::unit());
}

/// Doubled gates are twice the gates that are not, and these are the logistic function of their
/// input.
pub proof fn gates_double<F: ExactScalar>(x: F)
    requires
        F::fraction(2, 1) == F::unit().plus(F::unit()),
        l2norm::divides(F::unit().plus(x.negated().raised())),
    ensures
        activation::gate(true, x) == activation::gate(false, x).plus(activation::gate(false, x)),
        activation::gate(false, x).times(F::unit().plus(x.negated().raised())) == F::unit(),
{
    let y = activation::logistic(x);
    F::times_distributes(y, F::unit(), F::unit());
    F::times_unit(y);
    logistic_is_reciprocal(x);
}

/// A linear layer without bias is linear: the output of a weighted sum of two inputs is the weighted
/// sum of their outputs.
pub proof fn linear_layers_are_linear<F: ExactScalar>(
    lin: Linear<F>,
    x: Seq<F>,
    y: Seq<F>,
    z: Seq<F>,
    a: F,
    o: int,
)
    requires
        lin.bias is None,
        forall|i: int|
            0 <= i < lin.weight.rows ==> #[trigger] z[i] == x[i].times(a).plus(y[i]),
    ensures
        lin.value(z, o) == lin.value(x, o).times(a).plus(lin.value(y, o)),
{
    let n = lin.weight.rows as int;
    let f = |i: int| x[i].times(lin.weight.at(i, o));
    let fa = |i: int| f(i).times(a);
    let g = |i: int| y[i].times(lin.weight.at(i, o));
    let h = |i: int| z[i].times(lin.weight.at(i, o));
    assert forall|i: int| 0 <= i < n implies #[trigger] h(i) == fa(i).plus(g(i)) by {
        let w = lin.weight.at(i, o);
        assert(z[i] == x[i].times(a).plus(y[i]));
        algebra::lemma_plus_times(x[i].times(a), y[i], w);
        algebra::lemma_times_rotate(x[i], a, w);
    }
    algebra::lemma_total_plus(n, fa, g, h);
    algebra::lemma_total_times(n, f, a, fa);
}

/// An input that is 1 in one place and 0 elsewhere reads out that row of the weights, and the bias.
pub proof fn linear_layers_read_rows<F: ExactScalar>(lin: Linear<F>, x: Seq<F>, r: int, o: int)
    requires
        0 <= r < lin.weight.rows,
        x[r] == F::unit(),
        forall|i: int| 0 <= i < lin.weight.rows && i != r ==> #[trigger] x[i] == F::nil(),
    ensures
        lin.bias is None ==> lin.value(x, o) == lin.weight.at(r, o),
        lin.bias matches Some(b) ==> lin.value(x, o) == lin.weight.at(r, o).plus(b@[o]),
{
    let n = lin.weight.rows as int;
    let f = |i: int| x[i].times(lin.weight.at(i, o));
    assert forall|i: int| 0 <= i < n && i != r implies #[trigger] f(i) == F::nil() by {
        assert(x[i] == F::nil());
        algebra::lemma_times_nil(lin.weight.at(i, o));
    }
    algebra::lemma_total_single(n, r, f);
    algebra::lemma_unit_times(lin.weight.at(r, o));
}

/// The convolution is depthwise: channel `c` is the convolution of that channel alone with row `c` of
/// the weights alone.
pub proof fn convolution_is_depthwise<F: Scalar>(
    x: spec_fn(int) -> Seq<F>,
    past: Option<spec_fn(int) -> Seq<F>>,
    weight: Matrix<F>,
    x1: spec_fn(int) -> Seq<F>,
    past1: Option<spec_fn(int) -> Seq<F>>,
    weight1: Matrix<F>,
    t: int,
    c: int,
)
    requires
        0 <= t,
        forall|u: int| 0 <= u ==> (#[trigger] x1(u))[0] == x(u)[c],
        past is Some == past1 is Some,
        past matches Some(p) ==> forall|r: int|
            0 <= r < 3 ==> (#[trigger] (past1->0)(r))[0] == p(r)[c],
        forall|i: int| 0 <= i < 4 ==> #[trigger] weight1.at(0, i) == weight.at(c, i),
    ensures
        short_conv::convolved(x, past, weight, t, c) == short_conv::convolved(
            x1,
            past1,
            weight1,
            t,
            0,
        ),
{
    let f = |i: int| short_conv::history(x, past, t + i)[c].times(weight.at(c, i));
    let g = |i: int| short_conv::history(x1, past1, t + i)[0].times(weight1.at(0, i));
    assert forall|i: int| 0 <= i < 4 implies #[trigger] f(i) == g(i) by {
        assert(weight1.at(0, i) == weight.at(c, i));
        let r = t + i;
        if r < 3 {
            if past is None {
                assert(x1(0)[0] == x(0)[c]);
            } else {
                assert((past1->0)(r)[0] == (past->0)(r)[c]);
            }
        } else {
            assert(x1(r - 3)[0] == x(r - 3)[c]);
        }
    }
    algebra::lemma_total_eq(4, f, g);
}

/// The token that lies `back` tokens before token `t`, in channel `c`: one of the three rows before
/// the first token where it lies further back, and without those the first token.
pub open spec fn before<F>(
    x: spec_fn(int) -> Seq<F>,
    past: Option<spec_fn(int) -> Seq<F>>,
    t: int,
    back: int,
    c: int,
) -> F {
    if t >= back {
        x(t - back)[c]
    } else {
        match past {
            Some(p) => p(3 + t - back)[c],
            None => x(0)[c],
        }
    }
}

/// The convolution has four taps, the last of them for the token itself: channel `c` at token `t` is
/// the sigmoid linear unit of the sum of the token and the three before it, each times its tap.
pub proof fn convolution_has_four_taps<F: ExactScalar>(
    x: spec_fn(int) -> Seq<F>,
    past: Option<spec_fn(int) -> Seq<F>>,
    weight: Matrix<F>,
    t: int,
    c: int,
)
    requires
        0 <= t,
    ensures
        short_conv::convolved(x, past, weight, t, c) == activation::swish(
            before(x, past, t, 0, c).times(weight.at(c, 3)).plus(
                before(x, past, t, 1, c).times(weight.at(c, 2)),
            ).plus(
                before(x, past, t, 2, c).times(weight.at(c, 1)),
            ).plus(before(x, past, t, 3, c).times(weight.at(c, 0))),
        ),
{
    let f = |i: int| short_conv::history(x, past, t + i)[c].times(weight.at(c, i));
    reveal_with_fuel(scalar::total, 5);
    let (a, b, d, e) = (f(0), f(1), f(2), f(3));
    assert(scalar::total(4, f) == F::nil().plus(a).plus(b).plus(d).plus(e));
    algebra::lemma_nil_plus(a);
    // ((a + b) + d) + e = ((e + d) + b) + a
    F::plus_commutes(a.plus(b).plus(d), e);
    F::plus_commutes(a.plus(b), d);
    F::plus_associates(e, d, a.plus(b));
    F::plus_commutes(a, b);
    F::plus_associates(e.plus(d), b, a);
}

/// A weight with a single 1, at tap `j`, hands the token that lies `3 - j` tokens back on to the
/// sigmoid linear unit.
pub proof fn single_taps_shift<F: ExactScalar>(
    x: spec_fn(int) -> Seq<F>,
    past: Option<spec_fn(int) -> Seq<F>>,
    weight: Matrix<F>,
    t: int,
    c: int,
    j: int,
)
    requires
        0 <= t,
        0 <= j < 4,
        weight.at(c, j) == F::unit(),
        forall|i: int| 0 <= i < 4 && i != j ==> #[trigger] weight.at(c, i) == F::nil(),
    ensures
        short_conv::convolved(x, past, weight, t, c) == activation::swish(
            before(x, past, t, 3 - j, c),
        ),
{
    let f = |i: int| short_conv::history(x, past, t + i)[c].times(weight.at(c, i));
    assert forall|i: int| 0 <= i < 4 && i != j implies #[trigger] f(i) == F::nil() by {
        let y = short_conv::history(x, past, t + i)[c];
        assert(weight.at(c, i) == F::nil());
        F::times_commutes(y, F::nil());
        algebra::lemma_times_nil(y);
    }
    algebra::lemma_total_single(4, j, f);
    F::times_unit(short_conv::history(x, past, t + j)[c]);
}

/// The root of the mean square of a row and `eps`, by which the row is normalized: its square is
/// the mean square and `eps`, one can divide by it, and by the number of channels.
pub open spec fn mean_root<F: Scalar>(row: Seq<F>, eps: F, mean: F, root: F) -> bool {
    let n = F::fraction(row.len() as u64, 1);
    &&& l2norm::divides(n)
    &&& mean.times(n) == scalar::total(row.len() as int, |i: int| row[i].times(row[i]))
    &&& root == mean.plus(eps).rooted()
    &&& root.times(root) == mean.plus(eps)
    &&& l2norm::divides(root)
}

/// A row after its normalization, weights and gate: element `d` times the root of the mean square,
/// and times `1 + exp(-gate)`, is the element before, times its weight, times its gate. It depends
/// on no other weight and no other gate.
pub proof fn norms_weigh_and_gate<F: ExactScalar>(
    row: Seq<F>,
    gate: Seq<F>,
    weight: Seq<F>,
    eps: F,
    mean: F,
    root: F,
    d: int,
)
    requires
        0 <= d < row.len(),
        mean_root(row, eps, mean, root),
        l2norm::divides(F::unit().plus(gate[d].negated().raised())),
    ensures
        layer::gated_row(row, gate, weight, eps).len() == row.len(),
        layer::gated_row(row, gate, weight, eps)[d].times(root).times(
            F::unit().plus(gate[d].negated().raised()),
        ) == row[d].times(weight[d]).times(gate[d]),
{
    let n = F::fraction(row.len() as u64, 1);
    let f = |i: int| row[i].times(row[i]);
    assert(l2norm::sum_of_squares(row) == mean.times(n));
    assert(mean.times(n).over(n) == mean);
    let (y, s, q) = (
        row[d].over(root),
        activation::swish(gate[d]),
        F::unit().plus(gate[d].negated().raised()),
    );
    assert(y.times(root) == row[d]);
    logistic_is_reciprocal(gate[d]);
    // ((y w) s) root q = ((y root) w) (s q)
    let w = weight[d];
    algebra::lemma_times_rotate(y.times(w), s, root);
    algebra::lemma_times_rotate(y, w, root);
    F::times_associates(row[d].times(w), s, q);
}

/// Normalization takes the length of a row away: without weights and gate, its squares add up to
/// the squares of the row over the mean square and `eps`.
pub proof fn norms_take_length_away<F: ExactScalar>(
    row: Seq<F>,
    gate: Seq<F>,
    weight: Seq<F>,
    eps: F,
    mean: F,
    root: F,
)
    requires
        mean_root(row, eps, mean, root),
        forall|d: int| 0 <= d < row.len() ==> #[trigger] weight[d] == F::unit(),
        forall|d: int|
            0 <= d < row.len() ==> activation::swish(#[trigger] gate[d]) == F::unit(),
    ensures
        ({
            let r = layer::gated_row(row, gate, weight, eps);
            scalar::total(row.len() as int, |i: int| r[i].times(r[i])).times(mean.plus(eps))
                == scalar::total(row.len() as int, |i: int| row[i].times(row[i]))
        }),
{
    let n = F::fraction(row.len() as u64, 1);
    assert(l2norm::sum_of_squares(row) == mean.times(n));
    assert(mean.times(n).over(n) == mean);
    let r = layer::gated_row(row, gate, weight, eps);
    let f = |i: int| r[i].times(r[i]);
    let g = |i: int| row[i].times(row[i]);
    let qq = mean.plus(eps);
    assert forall|i: int| 0 <= i < row.len() implies #[trigger] g(i) == f(i).times(qq) by {
        assert(weight[i] == F::unit());
        assert(activation::swish(gate[i]) == F::unit());
        F::times_unit(row[i].over(root));
        assert(r[i] == row[i].over(root));
        assert(row[i].over(root).times(root) == row[i]);
        algebra::lemma_times_swap(r[i], r[i], root, root);
    }
    algebra::lemma_total_times(row.len() as int, f, qq, g);
}

} // verus!
