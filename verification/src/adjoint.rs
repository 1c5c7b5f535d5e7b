//! The gradient of a chunk, by the adjoint of its matrix form.

use vstd::prelude::*;

use crate::grid;
use crate::grid::Grid;
use crate::scalar;
use crate::scalar::Scalar;
use crate::wy;

verus! {

/// One chunk of one head as the backward pass sees it: the inputs and the intermediates of the
/// forward pass, and the state before the chunk.
#[verifier::ext_equal]
pub struct Replay<F> {
    /// Number of tokens.
    pub n: int,
    /// Number of rows, tokens first.
    pub rows: int,
    /// Number of key channels.
    pub kd: int,
    /// Number of value channels.
    pub vd: int,
    /// Keys.
    pub k: Grid<F>,
    /// Values.
    pub v: Grid<F>,
    /// Erase gates.
    pub b: Grid<F>,
    /// Write gates.
    pub w: Grid<F>,
    /// Decays from the start of the chunk.
    pub e: Grid<F>,
    /// Decayed queries.
    pub qg: Grid<F>,
    /// Query-key scores.
    pub aqk: Grid<F>,
    /// The inverse of the solve.
    pub m: Grid<F>,
    /// The state before the chunk.
    pub s: Grid<F>,
    /// Factor of the output.
    pub scale: F,
}

impl<F: Scalar> Replay<F> {
    /// Right-hand side of the solve for the pseudo-keys.
    pub open spec fn rhs_k(self) -> Grid<F> {
        grid::times(grid::times(self.b, self.k), self.e)
    }

    /// Right-hand side of the solve for the pseudo-values.
    pub open spec fn rhs_v(self) -> Grid<F> {
        grid::times(self.w, self.v)
    }

    /// Pseudo-keys.
    pub open spec fn w_wy(self) -> Grid<F> {
        grid::prod(self.rows, self.m, self.rhs_k())
    }

    /// Pseudo-values.
    pub open spec fn u_wy(self) -> Grid<F> {
        grid::prod(self.rows, self.m, self.rhs_v())
    }

    /// The values that the rows write.
    pub open spec fn v_new(self) -> Grid<F> {
        grid::minus(self.u_wy(), grid::prod(self.kd, self.w_wy(), self.s))
    }

    /// Keys with the decay divided out.
    pub open spec fn kg(self) -> Grid<F> {
        grid::over(self.k, self.e)
    }

    /// The decay through the last token, in every row.
    pub open spec fn last(self) -> Grid<F> {
        |r: int, i: int| (self.e)(self.n - 1, i)
    }

    /// The decay through the last token, in every column.
    pub open spec fn last_t(self) -> Grid<F> {
        |i: int, j: int| (self.e)(self.n - 1, i)
    }

    /// The decay from after each row to the end of the chunk.
    pub open spec fn decay(self) -> Grid<F> {
        grid::over(self.last(), self.e)
    }

    /// The state after the chunk.
    pub open spec fn next(self) -> Grid<F> {
        grid::plus(
            grid::times(self.s, self.last_t()),
            grid::t_prod(self.rows, grid::times(self.k, self.decay()), self.v_new()),
        )
    }
}

/// One chunk of one head with the values that its forward pass wrote: all that the gradients of
/// the chunk are computed from.
#[verifier::ext_equal]
pub struct Exports<F> {
    /// Number of tokens.
    pub n: int,
    /// Number of rows, tokens first.
    pub rows: int,
    /// Number of key channels.
    pub kd: int,
    /// Number of value channels.
    pub vd: int,
    /// Keys.
    pub k: Grid<F>,
    /// Values.
    pub v: Grid<F>,
    /// Erase gates.
    pub b: Grid<F>,
    /// Write gates.
    pub w: Grid<F>,
    /// Decays from the start of the chunk.
    pub e: Grid<F>,
    /// Decays through the last token, by channel.
    pub el: spec_fn(int) -> F,
    /// Decayed queries.
    pub qg: Grid<F>,
    /// Query-key scores.
    pub aqk: Grid<F>,
    /// The inverse of the solve.
    pub m: Grid<F>,
    /// The state before the chunk.
    pub s: Grid<F>,
    /// Pseudo-keys.
    pub pk: Grid<F>,
    /// Pseudo-values.
    pub pv: Grid<F>,
    /// The values that the rows write.
    pub fresh: Grid<F>,
    /// Factor of the output.
    pub scale: F,
}

impl<F: Scalar> Exports<F> {
    /// Right-hand side of the solve for the pseudo-keys.
    pub open spec fn rhs_k(self) -> Grid<F> {
        grid::times(grid::times(self.b, self.k), self.e)
    }

    /// Pseudo-keys.
    pub open spec fn w_wy(self) -> Grid<F> {
        self.pk
    }

    /// Pseudo-values.
    pub open spec fn u_wy(self) -> Grid<F> {
        self.pv
    }

    /// The values that the rows write.
    pub open spec fn v_new(self) -> Grid<F> {
        self.fresh
    }

    /// Keys with the decay divided out.
    pub open spec fn kg(self) -> Grid<F> {
        grid::over(self.k, self.e)
    }

    /// The decay through the last token, in every row.
    pub open spec fn last(self) -> Grid<F> {
        |r: int, i: int| (self.el)(i)
    }

    /// The decay through the last token, in every column.
    pub open spec fn last_t(self) -> Grid<F> {
        |i: int, j: int| (self.el)(i)
    }

    /// The decay from after each row to the end of the chunk.
    pub open spec fn decay(self) -> Grid<F> {
        grid::over(self.last(), self.e)
    }
}

impl<F: Scalar> Replay<F> {
    /// The chunk with what its forward pass wrote, derived again.
    pub open spec fn exports(self) -> Exports<F> {
        Exports {
            n: self.n,
            rows: self.rows,
            kd: self.kd,
            vd: self.vd,
            k: self.k,
            v: self.v,
            b: self.b,
            w: self.w,
            e: self.e,
            el: |i: int| (self.e)(self.n - 1, i),
            qg: self.qg,
            aqk: self.aqk,
            m: self.m,
            s: self.s,
            pk: self.w_wy(),
            pv: self.u_wy(),
            fresh: self.v_new(),
            scale: self.scale,
        }
    }
}

/// A chunk with the gradients of its outputs and of the state after it.
#[verifier::ext_equal]
pub struct Adjoint<F> {
    pub c: Exports<F>,
    /// Gradient of the outputs.
    pub d_out: Grid<F>,
    /// Gradient of the state after the chunk.
    pub d_acc: Grid<F>,
}

impl<F: Scalar> Adjoint<F> {
    /// Gradient of the unmasked query-key scores.
    pub open spec fn d_qk(self) -> Grid<F> {
        grid::times(
            grid::prod_t(self.c.vd, self.d_out, self.c.v_new()),
            |r: int, s: int| wy::scaled_causal(self.c.scale, r, s),
        )
    }

    /// Gradient of the decayed keys of the state update.
    pub open spec fn d_khat(self) -> Grid<F> {
        grid::prod_t(self.c.vd, self.c.v_new(), self.d_acc)
    }

    /// Gradient of the decays to the end of the chunk.
    pub open spec fn d_decay(self) -> Grid<F> {
        grid::times(self.d_khat(), self.c.k)
    }

    /// Gradient of the written values.
    pub open spec fn d_v_new(self) -> Grid<F> {
        grid::plus(
            grid::t_prod(self.c.rows, self.c.aqk, self.d_out),
            grid::prod(self.c.kd, grid::times(self.c.decay(), self.c.k), self.d_acc),
        )
    }

    /// Gradient of the state before the chunk.
    pub open spec fn d_s(self) -> Grid<F> {
        grid::plus(
            grid::plus(
                grid::negated(grid::t_prod(self.c.rows, self.c.w_wy(), self.d_v_new())),
                grid::scaled(grid::t_prod(self.c.rows, self.c.qg, self.d_out), self.c.scale),
            ),
            grid::times(self.c.last_t(), self.d_acc),
        )
    }

    /// Gradient of the decay through the last token, where the state update uses it.
    pub open spec fn d_e_last(self) -> spec_fn(int) -> F {
        |i: int|
            scalar::total(
                self.c.rows,
                |r: int| grid::over(self.d_decay(), self.c.e)(r, i),
            ).plus(
                scalar::total(self.c.vd, |j: int| grid::times(self.d_acc, self.c.s)(i, j)),
            )
    }

    /// Gradient of the decays, by way of the decays to the end of the chunk.
    pub open spec fn d_e_decay(self) -> Grid<F> {
        grid::negated(grid::over(grid::times(self.d_decay(), self.c.decay()), self.c.e))
    }

    /// Gradient of the decayed queries.
    pub open spec fn d_qe(self) -> Grid<F> {
        grid::plus(
            grid::scaled(grid::prod_t(self.c.vd, self.d_out, self.c.s), self.c.scale),
            grid::prod(self.c.rows, self.d_qk(), self.c.kg()),
        )
    }

    /// Gradient of the right-hand side of the pseudo-keys.
    pub open spec fn d_rhs_k(self) -> Grid<F> {
        grid::t_prod(
            self.c.rows,
            self.c.m,
            grid::negated(grid::prod_t(self.c.vd, self.d_v_new(), self.c.s)),
        )
    }

    /// Gradient of the right-hand side of the pseudo-values.
    pub open spec fn d_rhs_v(self) -> Grid<F> {
        grid::t_prod(self.c.rows, self.c.m, self.d_v_new())
    }

    /// Gradient of the key-key scores.
    pub open spec fn d_akk(self) -> Grid<F> {
        grid::times(
            grid::minus(
                grid::negated(grid::prod_t(self.c.kd, self.d_rhs_k(), self.c.w_wy())),
                grid::prod_t(self.c.vd, self.d_rhs_v(), self.c.u_wy()),
            ),
            |r: int, s: int| wy::strictly_causal::<F>(r, s),
        )
    }

    /// Gradient of the keys with the decay divided out.
    pub open spec fn d_kg(self) -> Grid<F> {
        grid::plus(
            grid::t_prod(self.c.rows, self.d_qk(), self.c.qg),
            grid::t_prod(self.c.rows, self.d_akk(), self.c.rhs_k()),
        )
    }

    /// Gradient of the decayed gated keys, by way of the key-key scores.
    pub open spec fn d_bke(self) -> Grid<F> {
        grid::prod(self.c.rows, self.d_akk(), self.c.kg())
    }

    /// The gated keys.
    pub open spec fn bk(self) -> Grid<F> {
        grid::over(self.c.rhs_k(), self.c.e)
    }

    /// Gradient of the gated keys.
    pub open spec fn d_bk(self) -> Grid<F> {
        grid::times(grid::plus(self.d_rhs_k(), self.d_bke()), self.c.e)
    }

    /// Gradient of the queries.
    pub open spec fn d_q(self) -> Grid<F> {
        grid::times(self.d_qe(), self.c.e)
    }

    /// Gradient of the keys.
    pub open spec fn d_k(self) -> Grid<F> {
        grid::plus(
            grid::plus(
                grid::times(self.d_bk(), self.c.b),
                grid::over(self.d_kg(), self.c.e),
            ),
            grid::times(self.d_khat(), self.c.decay()),
        )
    }

    /// Gradient of the values.
    pub open spec fn d_v(self) -> Grid<F> {
        grid::times(self.d_rhs_v(), self.c.w)
    }

    /// Gradient of the erase gates.
    pub open spec fn d_b(self) -> Grid<F> {
        grid::times(self.d_bk(), self.c.k)
    }

    /// Gradient of the write gates.
    pub open spec fn d_w(self) -> Grid<F> {
        grid::times(self.d_rhs_v(), self.c.v)
    }

    /// Gradient of the decays, row by row.
    pub open spec fn d_e_rows(self) -> Grid<F> {
        grid::plus(
            grid::plus(
                grid::plus(
                    grid::plus(
                        grid::times(self.d_rhs_k(), self.bk()),
                        grid::negated(
                            grid::over(
                                grid::times(self.d_kg(), self.c.k),
                                grid::times(self.c.e, self.c.e),
                            ),
                        ),
                    ),
                    grid::over(grid::times(self.d_qe(), self.c.qg), self.c.e),
                ),
                grid::times(self.d_bke(), self.bk()),
            ),
            self.d_e_decay(),
        )
    }

    /// Gradient of the decays.
    pub open spec fn d_e(self) -> Grid<F> {
        grid::plus_row(self.d_e_rows(), self.c.n - 1, self.d_e_last())
    }

    /// Gradient of the logarithms of the decays.
    pub open spec fn d_g(self) -> Grid<F> {
        grid::suffix_sums(self.c.rows, grid::times(self.d_e(), self.c.e))
    }
}

/// One head as the backward pass sees it, cut into chunks of `size` tokens. The intermediates of
/// the forward pass are given by chunk, row and column.
#[verifier::ext_equal]
pub struct Tape<F> {
    pub tokens: int,
    pub size: int,
    pub kd: int,
    pub vd: int,
    pub k: Grid<F>,
    pub v: Grid<F>,
    pub b: Grid<F>,
    pub w: Grid<F>,
    /// Number of rows of each chunk.
    pub rows: spec_fn(int) -> int,
    pub e: spec_fn(int, int, int) -> F,
    pub qg: spec_fn(int, int, int) -> F,
    pub aqk: spec_fn(int, int, int) -> F,
    pub m: spec_fn(int, int, int) -> F,
    /// The state before the first token.
    pub s: Grid<F>,
    /// Gradient of the outputs.
    pub d_out: Grid<F>,
    pub scale: F,
}

impl<F: Scalar> Tape<F> {
    /// Number of chunks.
    pub open spec fn count(self) -> int {
        (self.tokens + self.size - 1) / self.size
    }

    /// Number of tokens in chunk `c`.
    pub open spec fn len(self, c: int) -> int {
        if (c + 1) * self.size <= self.tokens {
            self.size
        } else {
            self.tokens - c * self.size
        }
    }

    /// The rows of chunk `c`: its tokens, then zeros.
    pub open spec fn padded(self, f: Grid<F>, c: int) -> Grid<F> {
        |r: int, i: int|
            if r < self.len(c) {
                f(c * self.size + r, i)
            } else {
                F::nil()
            }
    }

    /// Chunk `c`, from the state `s` before it.
    pub open spec fn replay(self, c: int, s: Grid<F>) -> Replay<F> {
        Replay {
            n: self.len(c),
            rows: (self.rows)(c),
            kd: self.kd,
            vd: self.vd,
            k: self.padded(self.k, c),
            v: self.padded(self.v, c),
            b: self.padded(self.b, c),
            w: self.padded(self.w, c),
            e: |r: int, i: int| (self.e)(c, r, i),
            qg: |r: int, i: int| (self.qg)(c, r, i),
            aqk: |r: int, l: int| (self.aqk)(c, r, l),
            m: |r: int, l: int| (self.m)(c, r, l),
            s,
            scale: self.scale,
        }
    }

    /// The state before chunk `c`.
    pub open spec fn state(self, c: int) -> Grid<F>
        decreases c,
    {
        if c <= 0 {
            self.s
        } else {
            self.replay(c - 1, self.state(c - 1)).next()
        }
    }

    /// Chunk `c`, with the gradients of its outputs and, as `d_acc`, of the state after it.
    pub open spec fn adjoint_from(self, c: int, d_acc: Grid<F>) -> Adjoint<F> {
        Adjoint {
            c: self.replay(c, self.state(c)).exports(),
            d_out: self.padded(self.d_out, c),
            d_acc,
        }
    }

    /// Gradient of the state after chunk `c`: what the later chunks pass back.
    pub open spec fn passed_back(self, c: int) -> Grid<F>
        decreases self.count() - c,
    {
        if c + 1 >= self.count() {
            grid::zero()
        } else {
            self.adjoint_from(c + 1, self.passed_back(c + 1)).d_s()
        }
    }

    /// Chunk `c`, with the gradients of its outputs and of the state after it.
    pub open spec fn adjoint(self, c: int) -> Adjoint<F> {
        self.adjoint_from(c, self.passed_back(c))
    }

    /// Gradient of the query of token `t`.
    pub open spec fn d_q(self, t: int, i: int) -> F {
        self.adjoint(t / self.size).d_q()(t % self.size, i)
    }

    /// Gradient of the key of token `t`.
    pub open spec fn d_k(self, t: int, i: int) -> F {
        self.adjoint(t / self.size).d_k()(t % self.size, i)
    }

    /// Gradient of the value of token `t`.
    pub open spec fn d_v(self, t: int, j: int) -> F {
        self.adjoint(t / self.size).d_v()(t % self.size, j)
    }

    /// Gradient of the logarithms of the decays of token `t`.
    pub open spec fn d_g(self, t: int, i: int) -> F {
        self.adjoint(t / self.size).d_g()(t % self.size, i)
    }

    /// Gradient of the erase gates of token `t`.
    pub open spec fn d_b(self, t: int, i: int) -> F {
        self.adjoint(t / self.size).d_b()(t % self.size, i)
    }

    /// Gradient of the write gates of token `t`.
    pub open spec fn d_w(self, t: int, j: int) -> F {
        self.adjoint(t / self.size).d_w()(t % self.size, j)
    }

    /// Gradient of the state before the first token.
    pub open spec fn d_s(self, i: int, j: int) -> F {
        self.passed_back(-1)(i, j)
    }
}

} // verus!
