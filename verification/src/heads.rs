//! How the channels of a token are dealt out to heads, and gathered again.

use vstd::prelude::*;

use crate::scalar::Scalar;
use crate::tensor;
use crate::tensor::{Tensor3, Tensor4};

verus! {

/// Head `h` has its channels among those of all `n` heads.
pub proof fn lemma_head_span(n: int, d: int, h: int)
    requires
        0 <= h < n,
        0 <= d,
    ensures
        0 <= h * d,
        h * d + d <= n * d,
{
    assert(0 <= h * d && h * d + d <= n * d) by (nonlinear_arith)
        requires
            0 <= h < n,
            0 <= d,
    ;
}

/// Where channel `c` of all heads lies in its head.
pub proof fn lemma_head_channel(n: int, d: int, c: int)
    requires
        0 <= c < n * d,
        d >= 1,
    ensures
        0 <= c / d < n,
        0 <= c % d < d,
        c == c / d * d + c % d,
{
    assert(0 <= c / d < n && 0 <= c % d < d && c == c / d * d + c % d) by (nonlinear_arith)
        requires
            0 <= c < n * d,
            d >= 1,
    ;
}

/// The key head of value head `h`.
pub proof fn lemma_group(heads: int, rep: int, h: int)
    requires
        0 <= h < heads * rep,
        rep >= 1,
    ensures
        0 <= h / rep < heads,
{
    lemma_head_channel(heads, rep, h);
}

impl<F: Scalar> Tensor3<F> {
    /// Elements `start .. start + n` of row `(a, b)`.
    pub fn get_part(&self, a: usize, b: usize, start: usize, n: usize) -> (r: Vec<F>)
        requires
            self.wf(),
            a < self.d0,
            b < self.d1,
            start + n <= self.d2,
        ensures
            r@ == self.row(a as int, b as int).subrange(start as int, start + n),
    {
        let mut r: Vec<F> = Vec::new();
        for c in 0..n
            invariant
                self.wf(),
                a < self.d0,
                b < self.d1,
                start + n <= self.d2,
                r@.len() == c,
                forall|i: int|
                    0 <= i < c ==> #[trigger] r@[i] == self.at(a as int, b as int, start + i),
        {
            r.push(self.get(a, b, start + c));
        }
        assert(r@ =~= self.row(a as int, b as int).subrange(start as int, start + n));
        r
    }

    /// Deals the channels out to `n` heads of `d` channels: `[batch, n, tokens, d]`.
    pub fn split_heads(&self, n: usize, d: usize) -> (r: Tensor4<F>)
        requires
            self.wf(),
            self.d2 == n * d,
        ensures
            r.shaped(self.d0 as int, n as int, self.d1 as int, d as int),
            forall|a: int, h: int, t: int|
                0 <= a < self.d0 && 0 <= h < n && 0 <= t < self.d1 ==> #[trigger] r.row(a, h, t)
                    == self.row(a, t).subrange(h * d, h * d + d),
    {
        let batch: usize = self.d0;
        let tokens: usize = self.d1;
        proof {
            let (b, t, m, k) = (batch as int, tokens as int, n as int, d as int);
            assert(b * m * t * k == b * t * (m * k)) by (nonlinear_arith);
        }
        let mut r = Tensor4::from_vec(
            tensor::zero_vec::<F>(self.data.len()),
            batch,
            n,
            tokens,
            d,
        );
        for a in 0..batch
            invariant
                self.wf(),
                self.d2 == n * d,
                batch == self.d0,
                tokens == self.d1,
                r.shaped(batch as int, n as int, tokens as int, d as int),
                forall|x: int, y: int, z: int|
                    0 <= x < a && 0 <= y < n && 0 <= z < tokens ==> #[trigger] r.row(x, y, z)
                        == self.row(x, z).subrange(y * d, y * d + d),
        {
            for b in 0..n
                invariant
                    self.wf(),
                    self.d2 == n * d,
                    batch == self.d0,
                    tokens == self.d1,
                    r.shaped(batch as int, n as int, tokens as int, d as int),
                    a < batch,
                    forall|x: int, y: int, z: int|
                        0 <= y < n && 0 <= z < tokens && (0 <= x < a || (x == a && y < b))
                            ==> #[trigger] r.row(x, y, z) == self.row(x, z).subrange(y * d, y * d + d),
            {
                for c in 0..tokens
                    invariant
                        self.wf(),
                        self.d2 == n * d,
                        batch == self.d0,
                        tokens == self.d1,
                        r.shaped(batch as int, n as int, tokens as int, d as int),
                        a < batch,
                        b < n,
                        forall|x: int, y: int, z: int|
                            0 <= y < n && 0 <= z < tokens && (0 <= x < a || (x == a && (y < b || (y
                                == b && z < c)))) ==> #[trigger] r.row(x, y, z) == self.row(x, z).subrange(y * d, y * d + d),
                {
                    proof {
                        lemma_head_span(n as int, d as int, b as int);
                    }
                    let row = self.get_part(a, c, b * d, d);
                    r.set_row(a, b, c, &row);
                }
            }
        }
        r
    }
}

impl<F: Scalar> Tensor4<F> {
    /// Every head `rep` times in a row.
    pub fn repeat_heads(&self, rep: usize) -> (r: Self)
        requires
            self.wf(),
            rep >= 1,
            self.d0 * (self.d1 * rep) * self.d2 * self.d3 <= usize::MAX,
            self.d0 * (self.d1 * rep) * self.d2 <= usize::MAX,
            self.d0 * (self.d1 * rep) <= usize::MAX,
            self.d1 * rep <= usize::MAX,
        ensures
            r.shaped(self.d0 as int, self.d1 * rep, self.d2 as int, self.d3 as int),
            forall|a: int, h: int, t: int|
                0 <= a < self.d0 && 0 <= h < self.d1 * rep && 0 <= t < self.d2 ==> #[trigger] r.row(
                    a,
                    h,
                    t,
                ) == self.row(a, h / (rep as int), t),
    {
        let batch: usize = self.d0;
        let heads: usize = self.d1;
        let tokens: usize = self.d2;
        let all: usize = heads * rep;
        let mut r = Tensor4::<F>::zeros(batch, all, tokens, self.d3);
        for a in 0..batch
            invariant
                self.wf(),
                rep >= 1,
                heads == self.d1,
                all == heads * rep,
                batch == self.d0,
                tokens == self.d2,
                r.shaped(batch as int, all as int, tokens as int, self.d3 as int),
                forall|x: int, y: int, z: int|
                    0 <= x < a && 0 <= y < all && 0 <= z < tokens ==> #[trigger] r.row(x, y, z)
                        == self.row(x, y / (rep as int), z),
        {
            for b in 0..all
                invariant
                    self.wf(),
                    rep >= 1,
                    heads == self.d1,
                    all == heads * rep,
                    batch == self.d0,
                    tokens == self.d2,
                    r.shaped(batch as int, all as int, tokens as int, self.d3 as int),
                    a < batch,
                    forall|x: int, y: int, z: int|
                        0 <= y < all && 0 <= z < tokens && (0 <= x < a || (x == a && y < b))
                            ==> #[trigger] r.row(x, y, z) == self.row(x, y / (rep as int), z),
            {
                for c in 0..tokens
                    invariant
                        self.wf(),
                        rep >= 1,
                        heads == self.d1,
                        all == heads * rep,
                        batch == self.d0,
                        tokens == self.d2,
                        r.shaped(batch as int, all as int, tokens as int, self.d3 as int),
                        a < batch,
                        b < all,
                        forall|x: int, y: int, z: int|
                            0 <= y < all && 0 <= z < tokens && (0 <= x < a || (x == a && (y < b || (y
                                == b && z < c)))) ==> #[trigger] r.row(x, y, z) == self.row(x, y / (rep as int), z),
                {
                    proof {
                        lemma_group(heads as int, rep as int, b as int);
                    }
                    let row = self.get_row(a, b / rep, c);
                    r.set_row(a, b, c, &row);
                }
            }
        }
        r
    }

    /// The two middle dimensions, swapped.
    pub fn swap_middle(&self) -> (r: Self)
        requires
            self.wf(),
        ensures
            r.shaped(self.d0 as int, self.d2 as int, self.d1 as int, self.d3 as int),
            forall|a: int, b: int, c: int|
                0 <= a < self.d0 && 0 <= b < self.d2 && 0 <= c < self.d1 ==> #[trigger] r.row(
                    a,
                    b,
                    c,
                ) == self.row(a, c, b),
    {
        let batch: usize = self.d0;
        let outer: usize = self.d2;
        let inner: usize = self.d1;
        proof {
            let (b, x, y, z) = (batch as int, inner as int, outer as int, self.d3 as int);
            assert(b * y * x * z == b * x * y * z) by (nonlinear_arith);
        }
        let mut r = Tensor4::from_vec(
            tensor::zero_vec::<F>(self.data.len()),
            batch,
            outer,
            inner,
            self.d3,
        );
        for a in 0..batch
            invariant
                self.wf(),
                batch == self.d0,
                outer == self.d2,
                inner == self.d1,
                r.shaped(batch as int, outer as int, inner as int, self.d3 as int),
                forall|x: int, y: int, z: int|
                    0 <= x < a && 0 <= y < outer && 0 <= z < inner ==> #[trigger] r.row(x, y, z)
                        == self.row(x, z, y),
        {
            for b in 0..outer
                invariant
                    self.wf(),
                    batch == self.d0,
                    outer == self.d2,
                    inner == self.d1,
                    r.shaped(batch as int, outer as int, inner as int, self.d3 as int),
                    a < batch,
                    forall|x: int, y: int, z: int|
                        0 <= y < outer && 0 <= z < inner && (0 <= x < a || (x == a && y < b))
                            ==> #[trigger] r.row(x, y, z) == self.row(x, z, y),
            {
                for c in 0..inner
                    invariant
                        self.wf(),
                        batch == self.d0,
                        outer == self.d2,
                        inner == self.d1,
                        r.shaped(batch as int, outer as int, inner as int, self.d3 as int),
                        a < batch,
                        b < outer,
                        forall|x: int, y: int, z: int|
                            0 <= y < outer && 0 <= z < inner && (0 <= x < a || (x == a && (y < b || (y
                                == b && z < c)))) ==> #[trigger] r.row(x, y, z) == self.row(x, z, y),
                {
                    let row = self.get_row(a, c, b);
                    r.set_row(a, b, c, &row);
                }
            }
        }
        r
    }

    /// The heads of `[batch, tokens, heads, d]` side by side: `[batch, tokens, heads * d]`.
    pub fn merge_heads(&self) -> (r: Tensor3<F>)
        requires
            self.wf(),
            self.d3 >= 1,
            self.d2 * self.d3 <= usize::MAX,
        ensures
            r.shaped(self.d0 as int, self.d1 as int, self.d2 * self.d3),
            forall|a: int, t: int, c: int|
                0 <= a < self.d0 && 0 <= t < self.d1 && 0 <= c < self.d2 * self.d3
                    ==> #[trigger] r.at(a, t, c) == self.at(
                    a,
                    t,
                    c / (self.d3 as int),
                    c % (self.d3 as int),
                ),
    {
        let n: usize = self.d2 * self.d3;
        proof {
            let (b, t, m, k) = (self.d0 as int, self.d1 as int, self.d2 as int, self.d3 as int);
            assert(b * t * m * k == b * t * (m * k)) by (nonlinear_arith);
        }
        let mut r = Tensor3::from_vec(
            tensor::zero_vec::<F>(self.data.len()),
            self.d0,
            self.d1,
            n,
        );
        for a in 0..self.d0
            invariant
                self.wf(),
                self.d3 >= 1,
                n == self.d2 * self.d3,
                r.shaped(self.d0 as int, self.d1 as int, n as int),
                forall|x: int, y: int, c: int|
                    0 <= x < a && 0 <= y < self.d1 && 0 <= c < n ==> #[trigger] r.at(x, y, c)
                        == self.at(x, y, c / (self.d3 as int), c % (self.d3 as int)),
        {
            for t in 0..self.d1
                invariant
                    self.wf(),
                    self.d3 >= 1,
                    a < self.d0,
                    n == self.d2 * self.d3,
                    r.shaped(self.d0 as int, self.d1 as int, n as int),
                    forall|x: int, y: int, c: int|
                        0 <= y < self.d1 && 0 <= c < n && (0 <= x < a || (x == a && y < t))
                            ==> #[trigger] r.at(x, y, c) == self.at(
                            x,
                            y,
                            c / (self.d3 as int),
                            c % (self.d3 as int),
                        ),
            {
                for c in 0..n
                    invariant
                        self.wf(),
                        self.d3 >= 1,
                        a < self.d0,
                        t < self.d1,
                        n == self.d2 * self.d3,
                        r.shaped(self.d0 as int, self.d1 as int, n as int),
                        forall|x: int, y: int, i: int|
                            0 <= y < self.d1 && 0 <= i < n && (0 <= x < a || (x == a && (y < t || (y
                                == t && i < c)))) ==> #[trigger] r.at(x, y, i) == self.at(
                                x,
                                y,
                                i / (self.d3 as int),
                                i % (self.d3 as int),
                            ),
                {
                    proof {
                        lemma_head_channel(self.d2 as int, self.d3 as int, c as int);
                    }
                    r.set(a, t, c, self.get(a, t, c / self.d3, c % self.d3));
                }
            }
        }
        r
    }
}

} // verus!
