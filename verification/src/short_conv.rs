//! A causal depthwise convolution over the last few tokens, with a cache that continues it.

use vstd::prelude::*;

use crate::activation;
use crate::algebra;
use crate::scalar;
use crate::scalar::Scalar;
use crate::tensor::{Matrix, Tensor3};

verus! {

/// Number of taps of the short convolution.
pub const SHORT_CONV_KERNEL: usize = 4;

/// Number of earlier tokens that the convolution looks at.
pub const SHORT_CONV_CACHE: usize = 3;

/// Row `r` of the tokens `x` with the rows before them put in front: the cached ones, or the first
/// token over and over.
pub open spec fn history<F>(
    x: spec_fn(int) -> Seq<F>,
    past: Option<spec_fn(int) -> Seq<F>>,
    r: int,
) -> Seq<F> {
    if r < SHORT_CONV_CACHE {
        match past {
            Some(p) => p(r),
            None => x(0),
        }
    } else {
        x(r - SHORT_CONV_CACHE)
    }
}

/// The rows that a convolution over the first `t` tokens leaves to the next one.
pub open spec fn cached<F>(
    x: spec_fn(int) -> Seq<F>,
    past: Option<spec_fn(int) -> Seq<F>>,
    t: int,
) -> spec_fn(int) -> Seq<F> {
    |r: int| history(x, past, t + r)
}

/// Channel `c` of the convolution at token `t`.
pub open spec fn convolved<F: Scalar>(
    x: spec_fn(int) -> Seq<F>,
    past: Option<spec_fn(int) -> Seq<F>>,
    weight: Matrix<F>,
    t: int,
    c: int,
) -> F {
    activation::swish(
        scalar::total(
            SHORT_CONV_KERNEL as int,
            |i: int| history(x, past, t + i)[c].times(weight.at(c, i)),
        ),
    )
}

/// The tokens from token `m` on.
pub open spec fn later<F>(x: spec_fn(int) -> Seq<F>, m: int) -> spec_fn(int) -> Seq<F> {
    |t: int| x(m + t)
}

/// The tokens of batch `a`.
pub open spec fn tokens_of<F: Scalar>(x: Tensor3<F>, a: int) -> spec_fn(int) -> Seq<F> {
    |t: int| x.row(a, t)
}

/// The cached rows of batch `a`.
pub open spec fn past_of<F: Scalar>(cache: Option<&Tensor3<F>>, a: int) -> Option<
    spec_fn(int) -> Seq<F>,
> {
    match cache {
        Some(p) => Some(tokens_of(*p, a)),
        None => None,
    }
}

/// The convolution can be continued at any token: with the rows that the first `m` tokens leave,
/// the tokens after them give the outputs and the rows that they give in one pass.
pub proof fn convolution_continues<F: Scalar>(
    x: spec_fn(int) -> Seq<F>,
    past: Option<spec_fn(int) -> Seq<F>>,
    weight: Matrix<F>,
    m: int,
    n: int,
)
    requires
        0 <= m,
        0 <= n,
    ensures
        forall|t: int, c: int|
            0 <= t ==> #[trigger] convolved(
                later(x, m),
                Some(cached(x, past, m)),
                weight,
                t,
                c,
            ) == convolved(x, past, weight, m + t, c),
        forall|r: int|
            0 <= r ==> #[trigger] cached(later(x, m), Some(cached(x, past, m)), n)(r)
                == cached(x, past, m + n)(r),
{
    let rest = later(x, m);
    let mid = Some(cached(x, past, m));
    assert forall|t: int, c: int| 0 <= t implies #[trigger] convolved(rest, mid, weight, t, c)
        == convolved(x, past, weight, m + t, c) by {
        let f = |i: int| history(rest, mid, t + i)[c].times(weight.at(c, i));
        let g = |i: int| history(x, past, m + t + i)[c].times(weight.at(c, i));
        assert forall|i: int| 0 <= i < SHORT_CONV_KERNEL implies #[trigger] f(i) == g(i) by {
            assert(m + (t + i) == m + t + i);
            assert(history(rest, mid, t + i) == history(x, past, m + t + i));
        }
        algebra::lemma_total_eq(SHORT_CONV_KERNEL as int, f, g);
    }
    assert forall|r: int| 0 <= r implies #[trigger] cached(rest, mid, n)(r) == cached(
        x,
        past,
        m + n,
    )(r) by {
        assert(m + (n + r) == m + n + r);
    }
}

/// Token `t` and the rows that `n` tokens leave depend on those tokens alone.
pub proof fn lemma_convolution_local<F: Scalar>(
    x: spec_fn(int) -> Seq<F>,
    y: spec_fn(int) -> Seq<F>,
    past: Option<spec_fn(int) -> Seq<F>>,
    weight: Matrix<F>,
    n: int,
)
    requires
        forall|t: int| 0 <= t < n ==> #[trigger] x(t) == y(t),
        n >= 1 || past is Some,
        n >= 0,
    ensures
        forall|t: int, c: int|
            0 <= t < n ==> #[trigger] convolved(x, past, weight, t, c) == convolved(
                y,
                past,
                weight,
                t,
                c,
            ),
        forall|r: int|
            0 <= r < SHORT_CONV_CACHE ==> #[trigger] cached(x, past, n)(r) == cached(y, past, n)(r),
{
    assert forall|t: int, c: int| 0 <= t < n implies #[trigger] convolved(x, past, weight, t, c)
        == convolved(y, past, weight, t, c) by {
        let f = |i: int| history(x, past, t + i)[c].times(weight.at(c, i));
        let g = |i: int| history(y, past, t + i)[c].times(weight.at(c, i));
        algebra::lemma_total_eq(SHORT_CONV_KERNEL as int, f, g);
    }
}

/// Element `c` of row `r` of the tokens of batch `a` with the rows before them.
fn history_value<F: Scalar>(
    x: &Tensor3<F>,
    cache: Option<&Tensor3<F>>,
    a: usize,
    r: usize,
    c: usize,
) -> (v: F)
    requires
        x.wf(),
        a < x.d0,
        c < x.d2,
        r < x.d1 + SHORT_CONV_CACHE,
        cache matches Some(p) ==> p.shaped(x.d0 as int, SHORT_CONV_CACHE as int, x.d2 as int),
        cache is Some || x.d1 >= 1,
    ensures
        v == history(tokens_of(*x, a as int), past_of(cache, a as int), r as int)[c as int],
{
    if r < SHORT_CONV_CACHE {
        match cache {
            Some(p) => p.get(a, r, c),
            None => x.get(a, 0, c),
        }
    } else {
        x.get(a, r - SHORT_CONV_CACHE, c)
    }
}

/// Causal depthwise convolution with four taps and SiLU activation.
///
/// Returns the outputs and the last rows of the input, which continue the convolution in a later
/// call. Without such a cache the first token is repeated in front of the sequence.
pub fn short_conv_1d<F: Scalar>(
    x: &Tensor3<F>,
    weight: &Matrix<F>,
    cache: Option<&Tensor3<F>>,
) -> (r: (Tensor3<F>, Tensor3<F>))
    requires
        x.wf(),
        x.d1 + SHORT_CONV_CACHE <= usize::MAX,
        x.d0 * x.d1 <= usize::MAX,
        x.d0 * SHORT_CONV_CACHE <= usize::MAX,
        x.d0 * SHORT_CONV_CACHE * x.d2 <= usize::MAX,
        weight.shaped(x.d2 as int, SHORT_CONV_KERNEL as int),
        cache matches Some(p) ==> p.shaped(x.d0 as int, SHORT_CONV_CACHE as int, x.d2 as int),
        cache is Some || x.d1 >= 1,
    ensures
        r.0.shaped(x.d0 as int, x.d1 as int, x.d2 as int),
        forall|a: int, t: int, c: int|
            0 <= a < x.d0 && 0 <= t < x.d1 && 0 <= c < x.d2 ==> #[trigger] r.0.at(a, t, c)
                == convolved(tokens_of(*x, a), past_of(cache, a), *weight, t, c),
        r.1.shaped(x.d0 as int, SHORT_CONV_CACHE as int, x.d2 as int),
        forall|a: int, l: int|
            0 <= a < x.d0 && 0 <= l < SHORT_CONV_CACHE ==> #[trigger] r.1.row(a, l) == cached(
                tokens_of(*x, a),
                past_of(cache, a),
                x.d1 as int,
            )(l),
{
    let mut out = Tensor3::<F>::zeros(x.d0, x.d1, x.d2);
    let mut next = Tensor3::<F>::zeros(x.d0, SHORT_CONV_CACHE, x.d2);
    for a in 0..x.d0
        invariant
            x.wf(),
            x.d1 + SHORT_CONV_CACHE <= usize::MAX,
            weight.shaped(x.d2 as int, SHORT_CONV_KERNEL as int),
            cache matches Some(p) ==> p.shaped(x.d0 as int, SHORT_CONV_CACHE as int, x.d2 as int),
            cache is Some || x.d1 >= 1,
            out.shaped(x.d0 as int, x.d1 as int, x.d2 as int),
            next.shaped(x.d0 as int, SHORT_CONV_CACHE as int, x.d2 as int),
            forall|b: int, t: int, c: int|
                0 <= b < a && 0 <= t < x.d1 && 0 <= c < x.d2 ==> #[trigger] out.at(b, t, c)
                    == convolved(tokens_of(*x, b), past_of(cache, b), *weight, t, c),
            forall|b: int, l: int|
                0 <= b < a && 0 <= l < SHORT_CONV_CACHE ==> #[trigger] next.row(b, l) == cached(
                    tokens_of(*x, b),
                    past_of(cache, b),
                    x.d1 as int,
                )(l),
    {
        for t in 0..x.d1
            invariant
                x.wf(),
                a < x.d0,
                x.d1 + SHORT_CONV_CACHE <= usize::MAX,
                weight.shaped(x.d2 as int, SHORT_CONV_KERNEL as int),
                cache matches Some(p) ==> p.shaped(
                    x.d0 as int,
                    SHORT_CONV_CACHE as int,
                    x.d2 as int,
                ),
                cache is Some || x.d1 >= 1,
                out.shaped(x.d0 as int, x.d1 as int, x.d2 as int),
                forall|b: int, u: int, c: int|
                    0 <= u < x.d1 && 0 <= c < x.d2 && (0 <= b < a || (b == a && u < t))
                        ==> #[trigger] out.at(b, u, c) == convolved(
                        tokens_of(*x, b),
                        past_of(cache, b),
                        *weight,
                        u,
                        c,
                    ),
        {
            let row = conv_row(x, weight, cache, a, t);
            let ghost before = out;
            out.set_row(a, t, &row);
            assert forall|b: int, u: int, c: int|
                0 <= u < x.d1 && 0 <= c < x.d2 && (0 <= b < a || (b == a && u < t
                    + 1)) implies #[trigger] out.at(b, u, c) == convolved(
                tokens_of(*x, b),
                past_of(cache, b),
                *weight,
                u,
                c,
            ) by {
                if b == a && u == t {
                    assert(out.row(b, u)[c] == row@[c]);
                } else {
                    assert(out.row(b, u)[c] == before.row(b, u)[c]);
                }
            }
        }
        for l in 0..SHORT_CONV_CACHE
            invariant
                x.wf(),
                a < x.d0,
                x.d1 + SHORT_CONV_CACHE <= usize::MAX,
                cache matches Some(p) ==> p.shaped(
                    x.d0 as int,
                    SHORT_CONV_CACHE as int,
                    x.d2 as int,
                ),
                cache is Some || x.d1 >= 1,
                next.shaped(x.d0 as int, SHORT_CONV_CACHE as int, x.d2 as int),
                forall|b: int, m: int|
                    0 <= m < SHORT_CONV_CACHE && (0 <= b < a || (b == a && m < l))
                        ==> #[trigger] next.row(b, m) == cached(
                        tokens_of(*x, b),
                        past_of(cache, b),
                        x.d1 as int,
                    )(m),
        {
            let row = cache_row(x, cache, a, l);
            next.set_row(a, l, &row);
        }
    }
    (out, next)
}

/// The outputs of token `t` of batch `a`.
fn conv_row<F: Scalar>(
    x: &Tensor3<F>,
    weight: &Matrix<F>,
    cache: Option<&Tensor3<F>>,
    a: usize,
    t: usize,
) -> (row: Vec<F>)
    requires
        x.wf(),
        a < x.d0,
        t < x.d1,
        x.d1 + SHORT_CONV_CACHE <= usize::MAX,
        weight.shaped(x.d2 as int, SHORT_CONV_KERNEL as int),
        cache matches Some(p) ==> p.shaped(x.d0 as int, SHORT_CONV_CACHE as int, x.d2 as int),
    ensures
        row@.len() == x.d2,
        forall|c: int|
            0 <= c < x.d2 ==> #[trigger] row@[c] == convolved(
                tokens_of(*x, a as int),
                past_of(cache, a as int),
                *weight,
                t as int,
                c,
            ),
{
    let ghost (xs, past) = (tokens_of(*x, a as int), past_of(cache, a as int));
    let mut row: Vec<F> = Vec::new();
    for c in 0..x.d2
        invariant
            x.wf(),
            a < x.d0,
            t < x.d1,
            x.d1 + SHORT_CONV_CACHE <= usize::MAX,
            weight.shaped(x.d2 as int, SHORT_CONV_KERNEL as int),
            cache matches Some(p) ==> p.shaped(x.d0 as int, SHORT_CONV_CACHE as int, x.d2 as int),
            xs == tokens_of(*x, a as int),
            past == past_of(cache, a as int),
            row@.len() == c,
            forall|l: int|
                0 <= l < c ==> #[trigger] row@[l] == convolved(xs, past, *weight, t as int, l),
    {
        let ghost f = |i: int| history(xs, past, t + i)[c as int].times(weight.at(c as int, i));
        let mut y = F::zero();
        for i in 0..SHORT_CONV_KERNEL
            invariant
                x.wf(),
                a < x.d0,
                t < x.d1,
                c < x.d2,
                x.d1 + SHORT_CONV_CACHE <= usize::MAX,
                weight.shaped(x.d2 as int, SHORT_CONV_KERNEL as int),
                cache matches Some(p) ==> p.shaped(
                    x.d0 as int,
                    SHORT_CONV_CACHE as int,
                    x.d2 as int,
                ),
                xs == tokens_of(*x, a as int),
                past == past_of(cache, a as int),
                f == (|i: int|
                    history(xs, past, t + i)[c as int].times(weight.at(c as int, i))),
                y == scalar::total(i as int, f),
        {
            y = y.add(history_value(x, cache, a, t + i, c).mul(weight.get(c, i)));
        }
        proof {
            algebra::lemma_total_eq(
                SHORT_CONV_KERNEL as int,
                f,
                |i: int| history(xs, past, t as int + i)[c as int].times(weight.at(c as int, i)),
            );
        }
        row.push(activation::silu(y));
    }
    row
}

/// Row `l` of what batch `a` leaves to the next call.
fn cache_row<F: Scalar>(
    x: &Tensor3<F>,
    cache: Option<&Tensor3<F>>,
    a: usize,
    l: usize,
) -> (row: Vec<F>)
    requires
        x.wf(),
        a < x.d0,
        l < SHORT_CONV_CACHE,
        x.d1 + SHORT_CONV_CACHE <= usize::MAX,
        cache matches Some(p) ==> p.shaped(x.d0 as int, SHORT_CONV_CACHE as int, x.d2 as int),
        cache is Some || x.d1 >= 1,
    ensures
        row@.len() == x.d2,
        row@ == cached(tokens_of(*x, a as int), past_of(cache, a as int), x.d1 as int)(l as int),
{
    let ghost h = history(tokens_of(*x, a as int), past_of(cache, a as int), x.d1 + l);
    let mut row: Vec<F> = Vec::new();
    for c in 0..x.d2
        invariant
            x.wf(),
            a < x.d0,
            l < SHORT_CONV_CACHE,
            x.d1 + SHORT_CONV_CACHE <= usize::MAX,
            cache matches Some(p) ==> p.shaped(x.d0 as int, SHORT_CONV_CACHE as int, x.d2 as int),
            cache is Some || x.d1 >= 1,
            h == history(tokens_of(*x, a as int), past_of(cache, a as int), x.d1 + l),
            row@.len() == c,
            forall|i: int| 0 <= i < c ==> #[trigger] row@[i] == h[i],
    {
        row.push(history_value(x, cache, a, x.d1 + l, c));
    }
    assert(row@ =~= h);
    row
}

} // verus!
