//! The chunked form of the recurrence: one chunk of tokens by matrix products.

use vstd::prelude::*;

use crate::recurrence::Head;
use crate::scalar;
use crate::scalar::Scalar;
use crate::streams;
use crate::streams::Streams;
use crate::tensor::Tensor4;

verus! {

/// Number of tokens in a tile of the decay scheme for long chunks.
pub const TILE: usize = 16;

/// One chunk of one head: `rows` rows, of which the first `n` are tokens and the rest padding,
/// and the state before the chunk.
#[verifier::ext_equal]
pub struct Chunk<F> {
    /// Number of tokens.
    pub n: int,
    /// Number of rows.
    pub rows: int,
    /// Number of rows in a tile.
    pub tile: int,
    /// Number of key channels.
    pub kd: int,
    /// Number of value channels.
    pub vd: int,
    /// Queries.
    pub q: spec_fn(int, int) -> F,
    /// Keys.
    pub k: spec_fn(int, int) -> F,
    /// Values.
    pub v: spec_fn(int, int) -> F,
    /// Logarithms of the decays.
    pub g: spec_fn(int, int) -> F,
    /// Erase gates.
    pub b: spec_fn(int, int) -> F,
    /// Write gates.
    pub w: spec_fn(int, int) -> F,
    /// The state before the chunk.
    pub s: spec_fn(int, int) -> F,
    /// Factor of the output.
    pub scale: F,
}

/// The lower triangle with its diagonal, times `scale`.
pub open spec fn scaled_causal<F: Scalar>(scale: F, r: int, s: int) -> F {
    causal::<F>(r, s).times(scale)
}

/// The lower triangle with its diagonal.
pub open spec fn causal<F: Scalar>(r: int, s: int) -> F {
    if s <= r {
        F::unit()
    } else {
        F::nil()
    }
}

/// The lower triangle without its diagonal.
pub open spec fn strictly_causal<F: Scalar>(r: int, s: int) -> F {
    if s < r {
        F::unit()
    } else {
        F::nil()
    }
}

impl<F: Scalar> Chunk<F> {
    /// Logarithm of the decay from the start of the chunk through row `r`.
    pub open spec fn g_cum(self, r: int, i: int) -> F {
        scalar::total(r + 1, |x: int| (self.g)(x, i))
    }

    /// The decay from the start of the chunk through row `r`.
    pub open spec fn e(self, r: int, i: int) -> F {
        self.g_cum(r, i).raised()
    }

    /// Gated keys.
    pub open spec fn bk(self, r: int, i: int) -> F {
        (self.b)(r, i).times((self.k)(r, i))
    }

    /// Decayed queries.
    pub open spec fn qg(self, r: int, i: int) -> F {
        (self.q)(r, i).times(self.e(r, i))
    }

    /// Keys with the decay divided out.
    pub open spec fn kg(self, r: int, i: int) -> F {
        (self.k)(r, i).over(self.e(r, i))
    }

    /// Right-hand side of the solve for the pseudo-keys.
    pub open spec fn rhs_k(self, r: int, i: int) -> F {
        self.bk(r, i).times(self.e(r, i))
    }

    /// Right-hand side of the solve for the pseudo-values.
    pub open spec fn rhs_v(self, r: int, j: int) -> F {
        (self.w)(r, j).times((self.v)(r, j))
    }

    /// Query-key scores, the decays taken from the start of the chunk.
    pub open spec fn aqk_direct(self, r: int, s: int) -> F {
        scalar::total(self.kd, |i: int| self.qg(r, i).times(self.kg(s, i))).times(
            scaled_causal(self.scale, r, s),
        )
    }

    /// Key-key scores, the decays taken from the start of the chunk.
    pub open spec fn akk_direct(self, r: int, s: int) -> F {
        scalar::total(self.kd, |i: int| self.rhs_k(r, i).times(self.kg(s, i))).times(
            strictly_causal(r, s),
        )
    }

    /// Logarithm of the decay before tile `p`.
    pub open spec fn bound(self, p: int, i: int) -> F {
        if p <= 0 {
            F::nil()
        } else {
            self.g_cum(p * self.tile - 1, i)
        }
    }

    /// The decay from the start of its tile through row `r`.
    pub open spec fn rel(self, r: int, i: int) -> F {
        self.g_cum(r, i).minus(self.bound(r / self.tile, i)).raised()
    }

    /// Logarithm of the decay between the tiles of rows `s` and `r`.
    pub open spec fn gap(self, r: int, s: int, i: int) -> F {
        self.bound(r / self.tile, i).minus(self.bound(s / self.tile, i))
    }

    /// The decay between the tiles of rows `s` and `r`, at most 1.
    pub open spec fn hop(self, r: int, s: int, i: int) -> F {
        scalar::at_most(self.gap(r, s, i), F::nil()).raised()
    }

    /// Query-key scores by tiles.
    pub open spec fn aqk_tiled(self, r: int, s: int) -> F {
        scalar::total(
            self.kd,
            |i: int|
                (self.q)(r, i).times(self.rel(r, i)).times(
                    (self.k)(s, i).over(self.rel(s, i)),
                ).times(self.hop(r, s, i)),
        ).times(scaled_causal(self.scale, r, s))
    }

    /// Key-key scores by tiles.
    pub open spec fn akk_tiled(self, r: int, s: int) -> F {
        scalar::total(
            self.kd,
            |i: int|
                self.bk(r, i).times(self.rel(r, i)).times(
                    (self.k)(s, i).over(self.rel(s, i)),
                ).times(self.hop(r, s, i)),
        ).times(strictly_causal(r, s))
    }

    /// Query-key scores: by tiles where the chunk is longer than one.
    pub open spec fn aqk(self, r: int, s: int) -> F {
        if self.n > self.tile {
            self.aqk_tiled(r, s)
        } else {
            self.aqk_direct(r, s)
        }
    }

    /// Key-key scores: by tiles where the chunk is longer than one.
    pub open spec fn akk(self, r: int, s: int) -> F {
        if self.n > self.tile {
            self.akk_tiled(r, s)
        } else {
            self.akk_direct(r, s)
        }
    }

    /// The inverse of the unit lower triangular matrix `I + a`, by forward substitution.
    pub open spec fn inverse(a: spec_fn(int, int) -> F, r: int, s: int) -> F
        decreases r, r + 1,
    {
        if s == r {
            F::unit()
        } else if s > r || r <= 0 {
            F::nil()
        } else {
            Self::substituted(a, r, s, r).negated()
        }
    }

    /// Row `r` of `a` times column `s` of the inverse, over the first `n` terms.
    pub open spec fn substituted(a: spec_fn(int, int) -> F, r: int, s: int, n: int) -> F
        decreases r, n,
        when n <= r
    {
        if n <= 0 {
            F::nil()
        } else {
            Self::substituted(a, r, s, n - 1).plus(a(r, n - 1).times(Self::inverse(a, n - 1, s)))
        }
    }

    /// The inverse of `I + akk`.
    pub open spec fn m_inv(self, r: int, s: int) -> F {
        Self::inverse(|x: int, y: int| self.akk(x, y), r, s)
    }

    /// The inverse of `I + akk`, as a function of row and column.
    pub open spec fn solver(self) -> spec_fn(int, int) -> F {
        |x: int, y: int| self.m_inv(x, y)
    }

    /// Pseudo-keys, for the inverse `m`.
    pub open spec fn w_wy(self, m: spec_fn(int, int) -> F, r: int, i: int) -> F {
        scalar::total(self.rows, |l: int| m(r, l).times(self.rhs_k(l, i)))
    }

    /// Pseudo-values, for the inverse `m`.
    pub open spec fn u_wy(self, m: spec_fn(int, int) -> F, r: int, j: int) -> F {
        scalar::total(self.rows, |l: int| m(r, l).times(self.rhs_v(l, j)))
    }

    /// The values that the rows write, for the inverse `m`.
    pub open spec fn v_new(self, m: spec_fn(int, int) -> F, r: int, j: int) -> F {
        self.u_wy(m, r, j).minus(
            scalar::total(self.kd, |i: int| self.w_wy(m, r, i).times((self.s)(i, j))),
        )
    }

    /// What row `r` reads out of the values written in the chunk.
    pub open spec fn intra(self, m: spec_fn(int, int) -> F, r: int, j: int) -> F {
        scalar::total(self.rows, |l: int| self.aqk(r, l).times(self.v_new(m, l, j)))
    }

    /// What row `r` reads out of the state before the chunk.
    pub open spec fn inter(self, r: int, j: int) -> F {
        scalar::total(self.kd, |i: int| self.qg(r, i).times((self.s)(i, j))).times(self.scale)
    }

    /// The outputs of the chunk, for the inverse `m`.
    pub open spec fn out(self, m: spec_fn(int, int) -> F, r: int, j: int) -> F {
        self.intra(m, r, j).plus(self.inter(r, j))
    }

    /// The decay from after row `r` to the end of the chunk.
    pub open spec fn decay_last(self, r: int, i: int) -> F {
        self.g_cum(self.n - 1, i).minus(self.g_cum(r, i)).raised()
    }

    /// The state after the chunk, where its rows write `v`.
    pub open spec fn next_with(self, v: spec_fn(int, int) -> F, i: int, j: int) -> F {
        (self.s)(i, j).times(self.e(self.n - 1, i)).plus(
            scalar::total(
                self.rows,
                |r: int| (self.k)(r, i).times(self.decay_last(r, i)).times(v(r, j)),
            ),
        )
    }

    /// The state after the chunk, for the inverse `m`.
    pub open spec fn next(self, m: spec_fn(int, int) -> F, i: int, j: int) -> F {
        (self.s)(i, j).times(self.e(self.n - 1, i)).plus(
            scalar::total(
                self.rows,
                |r: int| (self.k)(r, i).times(self.decay_last(r, i)).times(self.v_new(m, r, j)),
            ),
        )
    }
}

/// Number of rows for `n` tokens: as many where they fit one tile, else whole tiles.
pub open spec fn padded_rows(tile: int, n: int) -> int {
    if n <= tile {
        n
    } else {
        (n + tile - 1) / tile * tile
    }
}

/// A head cut into chunks of `size` tokens, the last of which may be shorter.
#[verifier::ext_equal]
pub struct Chunking<F> {
    /// The tokens.
    pub head: Head<F>,
    /// Number of tokens.
    pub tokens: int,
    /// Number of tokens in a chunk.
    pub size: int,
    /// Number of tokens in a tile.
    pub tile: int,
    /// The state before the first token.
    pub s: spec_fn(int, int) -> F,
    /// Inverses to use in place of those of the chunks, by chunk, row and column.
    pub saved: Option<spec_fn(int, int, int) -> F>,
}

impl<F: Scalar> Chunking<F> {
    /// Number of chunks.
    pub open spec fn count(self) -> int {
        (self.tokens + self.size - 1) / self.size
    }

    /// Number of tokens in chunk `c`.
    pub open spec fn len(self, c: int) -> int {
        if (c + 1) * self.size <= self.tokens {
            self.size
        } else {
            self.tokens - c * self.size
        }
    }

    /// Chunk `c`, from the state `s` before it.
    pub open spec fn piece(self, c: int, s: spec_fn(int, int) -> F) -> Chunk<F> {
        let (h, start, n) = (self.head, c * self.size, self.len(c));
        Chunk {
            n,
            rows: padded_rows(self.tile, n),
            tile: self.tile,
            kd: h.kd,
            vd: h.vd,
            q: |r: int, i: int| if r < n { (h.q)(start + r, i) } else { F::nil() },
            k: |r: int, i: int| if r < n { (h.k)(start + r, i) } else { F::nil() },
            v: |r: int, j: int| if r < n { (h.v)(start + r, j) } else { F::nil() },
            g: |r: int, i: int| if r < n { (h.g)(start + r, i) } else { F::nil() },
            b: |r: int, i: int| if r < n { (h.b)(start + r, i) } else { F::nil() },
            w: |r: int, j: int| if r < n { (h.w)(start + r, j) } else { F::nil() },
            s,
            scale: h.scale,
        }
    }

    /// The inverse that chunk `c` uses, where the state before it is `s`.
    pub open spec fn solver(self, c: int, s: spec_fn(int, int) -> F) -> spec_fn(int, int) -> F {
        match self.saved {
            Some(m) => |r: int, l: int| m(c, r, l),
            None => self.piece(c, s).solver(),
        }
    }

    /// The state before chunk `c`.
    pub open spec fn state(self, c: int) -> spec_fn(int, int) -> F
        decreases c,
    {
        if c <= 0 {
            self.s
        } else {
            let s = self.state(c - 1);
            |i: int, j: int| self.piece(c - 1, s).next(self.solver(c - 1, s), i, j)
        }
    }

    /// Chunk `c`.
    pub open spec fn chunk(self, c: int) -> Chunk<F> {
        self.piece(c, self.state(c))
    }

    /// The inverse that chunk `c` uses.
    pub open spec fn inverse(self, c: int) -> spec_fn(int, int) -> F {
        self.solver(c, self.state(c))
    }

    /// The output of token `t`.
    pub open spec fn output(self, t: int, j: int) -> F {
        self.chunk(t / self.size).out(self.inverse(t / self.size), t % self.size, j)
    }
}

/// Number of tokens in chunk `c`, where `tokens` tokens are cut into chunks of `size`.
pub open spec fn chunk_len(tokens: int, size: int, c: int) -> int {
    if (c + 1) * size <= tokens {
        size
    } else {
        tokens - c * size
    }
}

/// The arrays of a chunked pass over `bh` heads are small enough to be addressed.
pub open spec fn chunk_room(bh: int, tokens: int, size: int, kd: int, vd: int) -> bool {
    forall|c: int|
        0 <= c < (tokens + size - 1) / size ==> {
            let rows = padded_rows(TILE as int, #[trigger] chunk_len(tokens, size, c));
            &&& bh * rows * rows <= usize::MAX
            &&& bh * rows * kd <= usize::MAX
            &&& bh * rows <= usize::MAX
            &&& bh <= usize::MAX
            &&& rows * rows <= usize::MAX
            &&& rows * kd <= usize::MAX
            &&& rows * vd <= usize::MAX
        }
}

/// A chunked pass over all batches and heads: the inputs, the scale, the chunk size, the state
/// before the first token, and inverses to use in place of those of the chunks.
pub struct Pass<'a, F> {
    pub x: Streams<'a, F>,
    pub scale: F,
    pub size: int,
    pub state: Tensor4<F>,
    pub saved: Option<Seq<Tensor4<F>>>,
}

impl<'a, F: Scalar> Pass<'a, F> {
    /// Head `hi` of batch `bi`, cut into chunks.
    pub open spec fn head(self, bi: int, hi: int) -> Chunking<F> {
        Chunking {
            head: self.x.head(self.scale, bi, hi),
            tokens: self.x.tokens(),
            size: self.size,
            tile: TILE as int,
            s: streams::state_of(self.state, bi, hi),
            saved: match self.saved {
                Some(m) => Some(|c: int, r: int, l: int| m[c].at(bi, hi, r, l)),
                None => None,
            },
        }
    }

    /// Number of chunks.
    pub open spec fn count(self) -> int {
        (self.x.tokens() + self.size - 1) / self.size
    }

    /// Number of tokens in chunk `c`.
    pub open spec fn len(self, c: int) -> int {
        chunk_len(self.x.tokens(), self.size, c)
    }

    /// Number of rows of chunk `c`.
    pub open spec fn rows(self, c: int) -> int {
        padded_rows(TILE as int, self.len(c))
    }

    /// The extents match, and each inverse that is given has those of its chunk.
    pub open spec fn wf(self) -> bool {
        &&& self.x.wf()
        &&& self.x.carries(self.state)
        &&& self.size > 0
        &&& match self.saved {
            Some(m) => {
                &&& m.len() >= self.count()
                &&& forall|c: int|
                    0 <= c < self.count() ==> (#[trigger] m[c]).shaped(
                        self.x.batch(),
                        self.x.heads(),
                        self.rows(c),
                        self.rows(c),
                    )
            },
            None => true,
        }
    }

    /// The arrays that the pass makes are small enough to be addressed.
    pub open spec fn addressable(self) -> bool {
        chunk_room(
            self.x.batch() * self.x.heads(),
            self.x.tokens(),
            self.size,
            self.x.kd(),
            self.x.vd(),
        )
    }
}

} // verus!
