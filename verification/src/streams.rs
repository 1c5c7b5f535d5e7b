//! The inputs of the recurrence, for all batches and heads.

use vstd::prelude::*;

use crate::recurrence::Head;
use crate::scalar::Scalar;
use crate::tensor::Tensor4;

verus! {

/// Queries, keys, values, logarithms of decays, erase and write gates, each `[batch, heads,
/// tokens, channels]`. The decays and the erase gates may have a single channel, which then
/// stands for all key channels.
pub struct Streams<'a, F> {
    pub q: &'a Tensor4<F>,
    pub k: &'a Tensor4<F>,
    pub v: &'a Tensor4<F>,
    pub g: &'a Tensor4<F>,
    pub b: &'a Tensor4<F>,
    pub w: &'a Tensor4<F>,
}

/// The channel of `t` that stands for channel `i`.
pub open spec fn channel_of<F>(t: Tensor4<F>, i: int) -> int {
    if t.d3 == 1 {
        0
    } else {
        i
    }
}

/// The channel of `t` that stands for channel `i`.
pub fn channel<F>(t: &Tensor4<F>, i: usize) -> (r: usize)
    ensures
        r == channel_of(*t, i as int),
{
    if t.d3 == 1 {
        0
    } else {
        i
    }
}

impl<'a, F: Scalar> Streams<'a, F> {
    /// Number of batches.
    pub open spec fn batch(self) -> int {
        self.q.d0 as int
    }

    /// Number of heads.
    pub open spec fn heads(self) -> int {
        self.q.d1 as int
    }

    /// Number of tokens.
    pub open spec fn tokens(self) -> int {
        self.q.d2 as int
    }

    /// Number of key channels.
    pub open spec fn kd(self) -> int {
        self.q.d3 as int
    }

    /// Number of value channels.
    pub open spec fn vd(self) -> int {
        self.v.d3 as int
    }

    /// The extents match.
    pub open spec fn wf(self) -> bool {
        let (b, h, t) = (self.batch(), self.heads(), self.tokens());
        &&& self.q.wf()
        &&& self.k.shaped(b, h, t, self.kd())
        &&& self.v.shaped(b, h, t, self.vd())
        &&& self.w.shaped(b, h, t, self.vd())
        &&& self.g.shaped(b, h, t, self.kd()) || self.g.shaped(b, h, t, 1)
        &&& self.b.shaped(b, h, t, self.kd()) || self.b.shaped(b, h, t, 1)
    }

    /// Whether `s` can be the state of these heads.
    pub open spec fn carries(self, s: Tensor4<F>) -> bool {
        s.shaped(self.batch(), self.heads(), self.kd(), self.vd())
    }

    /// The tokens of head `hi` in batch `bi`.
    pub open spec fn head(self, scale: F, bi: int, hi: int) -> Head<F> {
        Head {
            kd: self.kd(),
            vd: self.vd(),
            q: |t: int, i: int| self.q.at(bi, hi, t, i),
            k: |t: int, i: int| self.k.at(bi, hi, t, i),
            v: |t: int, j: int| self.v.at(bi, hi, t, j),
            g: |t: int, i: int| self.g.at(bi, hi, t, channel_of(*self.g, i)),
            b: |t: int, i: int| self.b.at(bi, hi, t, channel_of(*self.b, i)),
            w: |t: int, j: int| self.w.at(bi, hi, t, j),
            scale,
        }
    }
}

/// The state of head `hi` in batch `bi`.
pub open spec fn state_of<F: Scalar>(s: Tensor4<F>, bi: int, hi: int) -> spec_fn(int, int) -> F {
    |i: int, j: int| s.at(bi, hi, i, j)
}

} // verus!
