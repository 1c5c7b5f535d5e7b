//! Matrices that agree in range have results that agree in range.

use vstd::prelude::*;

use crate::adjoint::{Adjoint, Exports, Replay, Tape};
use crate::algebra;
use crate::equivalence;
use crate::grid;
use crate::grid::Grid;
use crate::pairing;
use crate::scalar::Scalar;
use crate::wy::{Chunk, Chunking};

verus! {

pub proof fn lemma_prod<F: Scalar>(
    rows: int,
    n: int,
    cols: int,
    a: Grid<F>,
    b: Grid<F>,
    a2: Grid<F>,
    b2: Grid<F>,
)
    requires
        pairing::agree(rows, n, a, a2),
        pairing::agree(n, cols, b, b2),
    ensures
        pairing::agree(rows, cols, grid::prod(n, a, b), grid::prod(n, a2, b2)),
{
    let (p, p2) = (grid::prod(n, a, b), grid::prod(n, a2, b2));
    assert forall|i: int, j: int| 0 <= i < rows && 0 <= j < cols implies #[trigger] p(i, j) == p2(
        i,
        j,
    ) by {
        let f = |l: int| a(i, l).times(b(l, j));
        let f2 = |l: int| a2(i, l).times(b2(l, j));
        assert forall|l: int| 0 <= l < n implies #[trigger] f(l) == f2(l) by {
            assert(a(i, l) == a2(i, l) && b(l, j) == b2(l, j));
        }
        algebra::lemma_total_eq(n, f, f2);
    }
}

pub proof fn lemma_prod_t<F: Scalar>(
    rows: int,
    n: int,
    cols: int,
    a: Grid<F>,
    b: Grid<F>,
    a2: Grid<F>,
    b2: Grid<F>,
)
    requires
        pairing::agree(rows, n, a, a2),
        pairing::agree(cols, n, b, b2),
    ensures
        pairing::agree(rows, cols, grid::prod_t(n, a, b), grid::prod_t(n, a2, b2)),
{
    let (p, p2) = (grid::prod_t(n, a, b), grid::prod_t(n, a2, b2));
    assert forall|i: int, j: int| 0 <= i < rows && 0 <= j < cols implies #[trigger] p(i, j) == p2(
        i,
        j,
    ) by {
        let f = |l: int| a(i, l).times(b(j, l));
        let f2 = |l: int| a2(i, l).times(b2(j, l));
        assert forall|l: int| 0 <= l < n implies #[trigger] f(l) == f2(l) by {
            assert(a(i, l) == a2(i, l) && b(j, l) == b2(j, l));
        }
        algebra::lemma_total_eq(n, f, f2);
    }
}

pub proof fn lemma_t_prod<F: Scalar>(
    rows: int,
    n: int,
    cols: int,
    a: Grid<F>,
    b: Grid<F>,
    a2: Grid<F>,
    b2: Grid<F>,
)
    requires
        pairing::agree(n, rows, a, a2),
        pairing::agree(n, cols, b, b2),
    ensures
        pairing::agree(rows, cols, grid::t_prod(n, a, b), grid::t_prod(n, a2, b2)),
{
    let (p, p2) = (grid::t_prod(n, a, b), grid::t_prod(n, a2, b2));
    assert forall|i: int, j: int| 0 <= i < rows && 0 <= j < cols implies #[trigger] p(i, j) == p2(
        i,
        j,
    ) by {
        let f = |l: int| a(l, i).times(b(l, j));
        let f2 = |l: int| a2(l, i).times(b2(l, j));
        assert forall|l: int| 0 <= l < n implies #[trigger] f(l) == f2(l) by {
            assert(a(l, i) == a2(l, i) && b(l, j) == b2(l, j));
        }
        algebra::lemma_total_eq(n, f, f2);
    }
}

impl<F: Scalar> Replay<F> {
    /// Whether the two agree in range.
    pub open spec fn agrees(self, o: Self) -> bool {
        &&& self.n == o.n
        &&& self.rows == o.rows
        &&& self.kd == o.kd
        &&& self.vd == o.vd
        &&& self.scale == o.scale
        &&& 1 <= self.n <= self.rows
        &&& pairing::agree(self.rows, self.kd, self.k, o.k)
        &&& pairing::agree(self.rows, self.vd, self.v, o.v)
        &&& pairing::agree(self.rows, self.kd, self.b, o.b)
        &&& pairing::agree(self.rows, self.vd, self.w, o.w)
        &&& pairing::agree(self.rows, self.kd, self.e, o.e)
        &&& pairing::agree(self.rows, self.kd, self.qg, o.qg)
        &&& pairing::agree(self.rows, self.rows, self.aqk, o.aqk)
        &&& pairing::agree(self.rows, self.rows, self.m, o.m)
        &&& pairing::agree(self.kd, self.vd, self.s, o.s)
    }

    /// Chunks that agree write values that agree and leave states that agree.
    pub proof fn lemma_local(self, o: Self)
        requires
            self.agrees(o),
        ensures
            pairing::agree(self.rows, self.kd, self.rhs_k(), o.rhs_k()),
            pairing::agree(self.rows, self.kd, self.w_wy(), o.w_wy()),
            pairing::agree(self.rows, self.vd, self.u_wy(), o.u_wy()),
            pairing::agree(self.rows, self.vd, self.v_new(), o.v_new()),
            pairing::agree(self.kd, self.vd, self.next(), o.next()),
            self.exports().agrees(o.exports()),
    {
        let (r, kd, vd) = (self.rows, self.kd, self.vd);
        assert(pairing::agree(r, kd, self.rhs_k(), o.rhs_k()));
        assert(pairing::agree(r, vd, self.rhs_v(), o.rhs_v()));
        lemma_prod(r, r, kd, self.m, self.rhs_k(), o.m, o.rhs_k());
        lemma_prod(r, r, vd, self.m, self.rhs_v(), o.m, o.rhs_v());
        lemma_prod(r, kd, vd, self.w_wy(), self.s, o.w_wy(), o.s);
        assert(pairing::agree(r, vd, self.v_new(), o.v_new()));
        assert(pairing::agree(r, kd, self.last(), o.last()));
        assert(pairing::agree(r, kd, self.decay(), o.decay()));
        let (x, x2) = (grid::times(self.k, self.decay()), grid::times(o.k, o.decay()));
        assert(pairing::agree(r, kd, x, x2));
        lemma_t_prod(kd, r, vd, x, self.v_new(), x2, o.v_new());
    }
}

impl<F: Scalar> Exports<F> {
    /// Whether the two agree in range.
    pub open spec fn agrees(self, o: Self) -> bool {
        &&& self.n == o.n
        &&& self.rows == o.rows
        &&& self.kd == o.kd
        &&& self.vd == o.vd
        &&& self.scale == o.scale
        &&& 1 <= self.n <= self.rows
        &&& pairing::agree(self.rows, self.kd, self.k, o.k)
        &&& pairing::agree(self.rows, self.vd, self.v, o.v)
        &&& pairing::agree(self.rows, self.kd, self.b, o.b)
        &&& pairing::agree(self.rows, self.vd, self.w, o.w)
        &&& pairing::agree(self.rows, self.kd, self.e, o.e)
        &&& forall|i: int| 0 <= i < self.kd ==> #[trigger] (self.el)(i) == (o.el)(i)
        &&& pairing::agree(self.rows, self.kd, self.qg, o.qg)
        &&& pairing::agree(self.rows, self.rows, self.aqk, o.aqk)
        &&& pairing::agree(self.rows, self.rows, self.m, o.m)
        &&& pairing::agree(self.kd, self.vd, self.s, o.s)
        &&& pairing::agree(self.rows, self.kd, self.pk, o.pk)
        &&& pairing::agree(self.rows, self.vd, self.pv, o.pv)
        &&& pairing::agree(self.rows, self.vd, self.fresh, o.fresh)
    }

    proof fn lemma_local(self, o: Self)
        requires
            self.agrees(o),
        ensures
            pairing::agree(self.rows, self.kd, self.rhs_k(), o.rhs_k()),
            pairing::agree(self.rows, self.kd, self.kg(), o.kg()),
            pairing::agree(self.rows, self.kd, self.decay(), o.decay()),
            pairing::agree(self.kd, self.vd, self.last_t(), o.last_t()),
    {
        let (r, kd) = (self.rows, self.kd);
        assert(pairing::agree(r, kd, self.last(), o.last()));
        assert(pairing::agree(r, kd, self.decay(), o.decay()));
    }
}

impl<F: Scalar> Adjoint<F> {
    /// Whether the two agree in range.
    pub open spec fn agrees(self, o: Self) -> bool {
        &&& self.c.agrees(o.c)
        &&& pairing::agree(self.c.rows, self.c.vd, self.d_out, o.d_out)
        &&& pairing::agree(self.c.kd, self.c.vd, self.d_acc, o.d_acc)
    }

    proof fn lemma_local_solve(self, o: Self)
        requires
            self.agrees(o),
        ensures
            pairing::agree(self.c.rows, self.c.rows, self.d_qk(), o.d_qk()),
            pairing::agree(self.c.rows, self.c.kd, self.d_khat(), o.d_khat()),
            pairing::agree(self.c.rows, self.c.kd, self.d_decay(), o.d_decay()),
            pairing::agree(self.c.rows, self.c.vd, self.d_v_new(), o.d_v_new()),
            pairing::agree(self.c.kd, self.c.vd, self.d_s(), o.d_s()),
            pairing::agree(self.c.rows, self.c.kd, self.d_rhs_k(), o.d_rhs_k()),
            pairing::agree(self.c.rows, self.c.vd, self.d_rhs_v(), o.d_rhs_v()),
            pairing::agree(self.c.rows, self.c.rows, self.d_akk(), o.d_akk()),
    {
        let (a, b) = (self.c, o.c);
        let (r, kd, vd) = (a.rows, a.kd, a.vd);
        a.lemma_local(b);
        lemma_prod_t(r, vd, r, self.d_out, a.v_new(), o.d_out, b.v_new());
        assert(pairing::agree(r, r, self.d_qk(), o.d_qk()));
        lemma_prod_t(r, vd, kd, a.v_new(), self.d_acc, b.v_new(), o.d_acc);
        assert(pairing::agree(r, kd, self.d_decay(), o.d_decay()));
        lemma_t_prod(r, r, vd, a.aqk, self.d_out, b.aqk, o.d_out);
        let (x, x2) = (grid::times(a.decay(), a.k), grid::times(b.decay(), b.k));
        assert(pairing::agree(r, kd, x, x2));
        lemma_prod(r, kd, vd, x, self.d_acc, x2, o.d_acc);
        assert(pairing::agree(r, vd, self.d_v_new(), o.d_v_new()));
        lemma_t_prod(kd, r, vd, a.w_wy(), self.d_v_new(), b.w_wy(), o.d_v_new());
        lemma_t_prod(kd, r, vd, a.qg, self.d_out, b.qg, o.d_out);
        assert(pairing::agree(kd, vd, self.d_s(), o.d_s()));
        lemma_prod_t(r, vd, kd, self.d_v_new(), a.s, o.d_v_new(), b.s);
        let y = grid::negated(grid::prod_t(vd, self.d_v_new(), a.s));
        let y2 = grid::negated(grid::prod_t(vd, o.d_v_new(), b.s));
        assert(pairing::agree(r, kd, y, y2));
        lemma_t_prod(r, r, kd, a.m, y, b.m, y2);
        lemma_t_prod(r, r, vd, a.m, self.d_v_new(), b.m, o.d_v_new());
        lemma_prod_t(r, kd, r, self.d_rhs_k(), a.w_wy(), o.d_rhs_k(), b.w_wy());
        lemma_prod_t(r, vd, r, self.d_rhs_v(), a.u_wy(), o.d_rhs_v(), b.u_wy());
        assert(pairing::agree(r, r, self.d_akk(), o.d_akk()));
    }

    /// Chunks that agree have gradients that agree.
    pub proof fn lemma_local(self, o: Self)
        requires
            self.agrees(o),
        ensures
            pairing::agree(self.c.rows, self.c.kd, self.d_q(), o.d_q()),
            pairing::agree(self.c.rows, self.c.kd, self.d_k(), o.d_k()),
            pairing::agree(self.c.rows, self.c.vd, self.d_v(), o.d_v()),
            pairing::agree(self.c.rows, self.c.kd, self.d_g(), o.d_g()),
            pairing::agree(self.c.rows, self.c.kd, self.d_b(), o.d_b()),
            pairing::agree(self.c.rows, self.c.vd, self.d_w(), o.d_w()),
            pairing::agree(self.c.kd, self.c.vd, self.d_s(), o.d_s()),
    {
        let (a, b) = (self.c, o.c);
        let (r, kd, vd) = (a.rows, a.kd, a.vd);
        a.lemma_local(b);
        self.lemma_local_solve(o);
        lemma_prod_t(r, vd, kd, self.d_out, a.s, o.d_out, b.s);
        lemma_prod(r, r, kd, self.d_qk(), a.kg(), o.d_qk(), b.kg());
        assert(pairing::agree(r, kd, self.d_qe(), o.d_qe()));
        lemma_t_prod(r, r, kd, self.d_qk(), a.qg, o.d_qk(), b.qg);
        lemma_t_prod(r, r, kd, self.d_akk(), a.rhs_k(), o.d_akk(), b.rhs_k());
        assert(pairing::agree(r, kd, self.d_kg(), o.d_kg()));
        lemma_prod(r, r, kd, self.d_akk(), a.kg(), o.d_akk(), b.kg());
        assert(pairing::agree(r, kd, self.d_bk(), o.d_bk()));
        assert(pairing::agree(r, kd, self.bk(), o.bk()));
        assert(pairing::agree(r, kd, self.d_e_decay(), o.d_e_decay()));
        assert(pairing::agree(r, kd, self.d_e_rows(), o.d_e_rows()));
        assert forall|i: int| 0 <= i < kd implies #[trigger] self.d_e_last()(i) == o.d_e_last()(
            i,
        ) by {
            let f = |x: int| grid::over(self.d_decay(), a.e)(x, i);
            let f2 = |x: int| grid::over(o.d_decay(), b.e)(x, i);
            assert forall|x: int| 0 <= x < r implies #[trigger] f(x) == f2(x) by {
                assert(self.d_decay()(x, i) == o.d_decay()(x, i));
                assert((a.e)(x, i) == (b.e)(x, i));
            }
            algebra::lemma_total_eq(r, f, f2);
            let h = |j: int| grid::times(self.d_acc, a.s)(i, j);
            let h2 = |j: int| grid::times(o.d_acc, b.s)(i, j);
            assert forall|j: int| 0 <= j < vd implies #[trigger] h(j) == h2(j) by {
                assert((self.d_acc)(i, j) == (o.d_acc)(i, j));
                assert((a.s)(i, j) == (b.s)(i, j));
            }
            algebra::lemma_total_eq(vd, h, h2);
        }
        assert(pairing::agree(r, kd, self.d_e(), o.d_e()));
        let (y, y2) = (grid::times(self.d_e(), a.e), grid::times(o.d_e(), b.e));
        assert(pairing::agree(r, kd, y, y2));
        let (g, g2) = (self.d_g(), o.d_g());
        assert forall|x: int, i: int| 0 <= x < r && 0 <= i < kd implies #[trigger] g(x, i) == g2(
            x,
            i,
        ) by {
            let f = |l: int| y(r - 1 - l, i);
            let f2 = |l: int| y2(r - 1 - l, i);
            assert forall|l: int| 0 <= l < r - x implies #[trigger] f(l) == f2(l) by {
                assert(y(r - 1 - l, i) == y2(r - 1 - l, i));
            }
            algebra::lemma_total_eq(r - x, f, f2);
        }
    }
}

impl<F: Scalar> Tape<F> {
    /// Whether the intermediates of chunk `c` agree in range.
    pub open spec fn chunk_agrees(self, o: Self, c: int) -> bool {
        let rows = (self.rows)(c);
        &&& rows == (o.rows)(c)
        &&& self.len(c) <= rows
        &&& forall|r: int, i: int|
            0 <= r < rows && 0 <= i < self.kd ==> #[trigger] (self.e)(c, r, i) == (o.e)(c, r, i)
        &&& forall|r: int, i: int|
            0 <= r < rows && 0 <= i < self.kd ==> #[trigger] (self.qg)(c, r, i) == (o.qg)(c, r, i)
        &&& forall|r: int, l: int|
            0 <= r < rows && 0 <= l < rows ==> #[trigger] (self.aqk)(c, r, l) == (o.aqk)(c, r, l)
        &&& forall|r: int, l: int|
            0 <= r < rows && 0 <= l < rows ==> #[trigger] (self.m)(c, r, l) == (o.m)(c, r, l)
    }

    /// Whether the two agree in range.
    pub open spec fn agrees(self, o: Self) -> bool {
        &&& self.size > 0
        &&& self.tokens >= 0
        &&& self.tokens == o.tokens
        &&& self.size == o.size
        &&& self.kd == o.kd
        &&& self.vd == o.vd
        &&& self.scale == o.scale
        &&& pairing::agree(self.tokens, self.kd, self.k, o.k)
        &&& pairing::agree(self.tokens, self.vd, self.v, o.v)
        &&& pairing::agree(self.tokens, self.kd, self.b, o.b)
        &&& pairing::agree(self.tokens, self.vd, self.w, o.w)
        &&& pairing::agree(self.tokens, self.vd, self.d_out, o.d_out)
        &&& pairing::agree(self.kd, self.vd, self.s, o.s)
        &&& forall|c: int| 0 <= c < self.count() ==> #[trigger] self.chunk_agrees(o, c)
    }

    /// There is no negative number of chunks.
    pub proof fn lemma_bounds_count(self)
        requires
            self.size > 0,
            self.tokens >= 0,
        ensures
            self.count() >= 0,
    {
        let (size, tokens) = (self.size, self.tokens);
        assert((tokens + size - 1) / size >= 0) by (nonlinear_arith)
            requires
                size > 0,
                tokens >= 0,
        ;
    }

    /// Where chunk `c` lies among the tokens.
    proof fn lemma_bounds(self, c: int)
        requires
            self.size > 0,
            0 <= c < self.count(),
        ensures
            0 <= c * self.size,
            1 <= self.len(c),
            c * self.size + self.len(c) <= self.tokens,
    {
        let (size, tokens, count) = (self.size, self.tokens, self.count());
        assert((c + 1) * size == c * size + size) by (nonlinear_arith);
        assert(0 <= c * size < tokens) by (nonlinear_arith)
            requires
                size > 0,
                0 <= c < count,
                count == (tokens + size - 1) / size,
        ;
    }

    proof fn lemma_replay_local(self, o: Self, c: int, s: Grid<F>, s2: Grid<F>)
        requires
            self.agrees(o),
            0 <= c < self.count(),
            pairing::agree(self.kd, self.vd, s, s2),
        ensures
            self.replay(c, s).agrees(o.replay(c, s2)),
    {
        self.lemma_bounds(c);
        assert(self.chunk_agrees(o, c));
        let (a, b) = (self.replay(c, s), o.replay(c, s2));
        assert(pairing::agree(a.rows, a.kd, a.k, b.k));
        assert(pairing::agree(a.rows, a.vd, a.v, b.v));
        assert(pairing::agree(a.rows, a.kd, a.b, b.b));
        assert(pairing::agree(a.rows, a.vd, a.w, b.w));
        assert(pairing::agree(a.rows, a.kd, a.e, b.e));
        assert(pairing::agree(a.rows, a.kd, a.qg, b.qg));
        assert(pairing::agree(a.rows, a.rows, a.aqk, b.aqk));
        assert(pairing::agree(a.rows, a.rows, a.m, b.m));
    }

    proof fn lemma_state_local(self, o: Self, c: int)
        requires
            self.agrees(o),
            0 <= c <= self.count(),
        ensures
            pairing::agree(self.kd, self.vd, self.state(c), o.state(c)),
        decreases c,
    {
        if c > 0 {
            self.lemma_state_local(o, c - 1);
            self.lemma_replay_local(o, c - 1, self.state(c - 1), o.state(c - 1));
            self.replay(c - 1, self.state(c - 1)).lemma_local(o.replay(c - 1, o.state(c - 1)));
        }
    }

    proof fn lemma_adjoint_local(self, o: Self, c: int)
        requires
            self.agrees(o),
            0 <= c < self.count(),
        ensures
            self.adjoint(c).agrees(o.adjoint(c)),
        decreases self.count() - c, 0int,
    {
        self.lemma_bounds(c);
        self.lemma_state_local(o, c);
        self.lemma_replay_local(o, c, self.state(c), o.state(c));
        self.replay(c, self.state(c)).lemma_local(o.replay(c, o.state(c)));
        self.lemma_back_local(o, c);
        let (a, b) = (self.adjoint(c), o.adjoint(c));
        assert(pairing::agree(a.c.rows, a.c.vd, a.d_out, b.d_out));
    }

    /// Tapes that agree pass back gradients of the state that agree.
    pub proof fn lemma_back_local(self, o: Self, c: int)
        requires
            self.agrees(o),
            -1 <= c < self.count(),
        ensures
            pairing::agree(self.kd, self.vd, self.passed_back(c), o.passed_back(c)),
        decreases self.count() - c - 1, 1int,
    {
        if c + 1 < self.count() {
            self.lemma_adjoint_local(o, c + 1);
            self.adjoint(c + 1).lemma_local(o.adjoint(c + 1));
        }
    }

    /// Tapes that agree have gradients that agree.
    pub proof fn lemma_local(self, o: Self, t: int)
        requires
            self.agrees(o),
            0 <= t < self.tokens,
        ensures
            forall|i: int| 0 <= i < self.kd ==> #[trigger] self.d_q(t, i) == o.d_q(t, i),
            forall|i: int| 0 <= i < self.kd ==> #[trigger] self.d_k(t, i) == o.d_k(t, i),
            forall|j: int| 0 <= j < self.vd ==> #[trigger] self.d_v(t, j) == o.d_v(t, j),
            forall|i: int| 0 <= i < self.kd ==> #[trigger] self.d_g(t, i) == o.d_g(t, i),
            forall|i: int| 0 <= i < self.kd ==> #[trigger] self.d_b(t, i) == o.d_b(t, i),
            forall|j: int| 0 <= j < self.vd ==> #[trigger] self.d_w(t, j) == o.d_w(t, j),
    {
        let (size, tokens, count) = (self.size, self.tokens, self.count());
        let c = t / size;
        let r = t % size;
        assert(0 <= c < count && 0 <= r < size && t == c * size + r && (c + 1) * size == c * size
            + size) by (nonlinear_arith)
            requires
                size > 0,
                0 <= t < tokens,
                count == (tokens + size - 1) / size,
                c == t / size,
                r == t % size,
        ;
        self.lemma_adjoint_local(o, c);
        assert(self.chunk_agrees(o, c));
        let (a, b) = (self.adjoint(c), o.adjoint(c));
        a.lemma_local(b);
        assert(r < a.c.rows);
        assert forall|i: int| 0 <= i < self.kd implies #[trigger] self.d_q(t, i) == o.d_q(t, i) by {
            assert(a.d_q()(r, i) == b.d_q()(r, i));
        }
        assert forall|i: int| 0 <= i < self.kd implies #[trigger] self.d_k(t, i) == o.d_k(t, i) by {
            assert(a.d_k()(r, i) == b.d_k()(r, i));
        }
        assert forall|j: int| 0 <= j < self.vd implies #[trigger] self.d_v(t, j) == o.d_v(t, j) by {
            assert(a.d_v()(r, j) == b.d_v()(r, j));
        }
        assert forall|i: int| 0 <= i < self.kd implies #[trigger] self.d_g(t, i) == o.d_g(t, i) by {
            assert(a.d_g()(r, i) == b.d_g()(r, i));
        }
        assert forall|i: int| 0 <= i < self.kd implies #[trigger] self.d_b(t, i) == o.d_b(t, i) by {
            assert(a.d_b()(r, i) == b.d_b()(r, i));
        }
        assert forall|j: int| 0 <= j < self.vd implies #[trigger] self.d_w(t, j) == o.d_w(t, j) by {
            assert(a.d_w()(r, j) == b.d_w()(r, j));
        }
    }
}

/// The inverse depends on the entries below the diagonal alone.
pub proof fn lemma_inverse_local<F: Scalar>(a: Grid<F>, b: Grid<F>, rows: int, r: int, s: int)
    requires
        forall|x: int, y: int| 0 <= y < x < rows ==> #[trigger] a(x, y) == b(x, y),
        0 <= r < rows,
        0 <= s < rows,
    ensures
        Chunk::inverse(a, r, s) == Chunk::inverse(b, r, s),
    decreases r,
{
    if s < r {
        equivalence::lemma_substituted(a, r, s, r);
        equivalence::lemma_substituted(b, r, s, r);
        let f = |l: int| a(r, l).times(Chunk::inverse(a, l, s));
        let f2 = |l: int| b(r, l).times(Chunk::inverse(b, l, s));
        assert forall|l: int| 0 <= l < r implies #[trigger] f(l) == f2(l) by {
            lemma_inverse_local(a, b, rows, l, s);
            assert(a(r, l) == b(r, l));
        }
        algebra::lemma_total_eq(r, f, f2);
    }
}

impl<F: Scalar> Chunk<F> {
    /// Whether the two agree in range, where the rows need not hold all tokens.
    pub open spec fn matches(self, o: Self) -> bool {
        &&& self.n == o.n
        &&& self.rows == o.rows
        &&& self.tile == o.tile
        &&& self.kd == o.kd
        &&& self.vd == o.vd
        &&& self.scale == o.scale
        &&& self.tile >= 1
        &&& pairing::agree(self.rows, self.kd, self.q, o.q)
        &&& pairing::agree(self.rows, self.kd, self.k, o.k)
        &&& pairing::agree(self.rows, self.vd, self.v, o.v)
        &&& pairing::agree(self.rows, self.kd, self.g, o.g)
        &&& pairing::agree(self.rows, self.kd, self.b, o.b)
        &&& pairing::agree(self.rows, self.vd, self.w, o.w)
        &&& pairing::agree(self.kd, self.vd, self.s, o.s)
    }

    /// Whether the two agree in range.
    pub open spec fn agrees(self, o: Self) -> bool {
        self.matches(o) && 1 <= self.n <= self.rows
    }

    /// The decays of chunks that agree.
    proof fn lemma_decays_local(self, o: Self)
        requires
            self.matches(o),
        ensures
            forall|r: int, i: int|
                0 <= r < self.rows && 0 <= i < self.kd ==> #[trigger] self.g_cum(r, i) == o.g_cum(
                    r,
                    i,
                ),
            forall|r: int, i: int|
                0 <= r < self.rows && 0 <= i < self.kd ==> #[trigger] self.rel(r, i) == o.rel(r, i),
            forall|r: int, s: int, i: int|
                0 <= r < self.rows && 0 <= s < self.rows && 0 <= i < self.kd
                    ==> #[trigger] self.hop(r, s, i) == o.hop(r, s, i),
    {
        assert forall|r: int, i: int|
            0 <= r < self.rows && 0 <= i < self.kd implies #[trigger] self.g_cum(r, i) == o.g_cum(
            r,
            i,
        ) by {
            let f = |x: int| (self.g)(x, i);
            let f2 = |x: int| (o.g)(x, i);
            algebra::lemma_total_eq(r + 1, f, f2);
        }
        assert forall|r: int, i: int|
            0 <= r < self.rows && 0 <= i < self.kd implies #[trigger] self.bound(r / self.tile, i)
            == o.bound(r / self.tile, i) by {
            let (t, p) = (self.tile, r / self.tile);
            assert(p > 0 ==> 0 <= p * t - 1 < r) by (nonlinear_arith)
                requires
                    t >= 1,
                    0 <= r,
                    p == r / t,
            ;
        }
        assert forall|r: int, i: int|
            0 <= r < self.rows && 0 <= i < self.kd implies #[trigger] self.rel(r, i) == o.rel(
            r,
            i,
        ) by {
            assert(self.g_cum(r, i) == o.g_cum(r, i));
            assert(self.bound(r / self.tile, i) == o.bound(r / self.tile, i));
        }
        assert forall|r: int, s: int, i: int|
            0 <= r < self.rows && 0 <= s < self.rows && 0 <= i
                < self.kd implies #[trigger] self.hop(r, s, i) == o.hop(r, s, i) by {
            assert(self.bound(r / self.tile, i) == o.bound(r / self.tile, i));
            assert(self.bound(s / self.tile, i) == o.bound(s / self.tile, i));
        }
    }

    /// The scores of chunks that agree.
    proof fn lemma_scores_local(self, o: Self)
        requires
            self.matches(o),
        ensures
            forall|r: int, s: int|
                0 <= r < self.rows && 0 <= s < self.rows ==> #[trigger] self.aqk(r, s) == o.aqk(
                    r,
                    s,
                ),
            forall|r: int, s: int|
                0 <= r < self.rows && 0 <= s < self.rows ==> #[trigger] self.akk(r, s) == o.akk(
                    r,
                    s,
                ),
    {
        self.lemma_decays_local(o);
        assert forall|r: int, s: int|
            0 <= r < self.rows && 0 <= s < self.rows implies #[trigger] self.aqk(r, s) == o.aqk(
            r,
            s,
        ) by {
            let f = |i: int| self.qg(r, i).times(self.kg(s, i));
            let f2 = |i: int| o.qg(r, i).times(o.kg(s, i));
            assert forall|i: int| 0 <= i < self.kd implies #[trigger] f(i) == f2(i) by {
                assert(self.g_cum(r, i) == o.g_cum(r, i));
                assert(self.g_cum(s, i) == o.g_cum(s, i));
                assert((self.q)(r, i) == (o.q)(r, i));
                assert((self.k)(s, i) == (o.k)(s, i));
            }
            algebra::lemma_total_eq(self.kd, f, f2);
            let h = |i: int|
                (self.q)(r, i).times(self.rel(r, i)).times(
                    (self.k)(s, i).over(self.rel(s, i)),
                ).times(self.hop(r, s, i));
            let h2 = |i: int|
                (o.q)(r, i).times(o.rel(r, i)).times((o.k)(s, i).over(o.rel(s, i))).times(
                    o.hop(r, s, i),
                );
            assert forall|i: int| 0 <= i < self.kd implies #[trigger] h(i) == h2(i) by {
                assert(self.rel(r, i) == o.rel(r, i));
                assert(self.rel(s, i) == o.rel(s, i));
                assert(self.hop(r, s, i) == o.hop(r, s, i));
                assert((self.q)(r, i) == (o.q)(r, i));
                assert((self.k)(s, i) == (o.k)(s, i));
            }
            algebra::lemma_total_eq(self.kd, h, h2);
        }
        assert forall|r: int, s: int|
            0 <= r < self.rows && 0 <= s < self.rows implies #[trigger] self.akk(r, s) == o.akk(
            r,
            s,
        ) by {
            let f = |i: int| self.rhs_k(r, i).times(self.kg(s, i));
            let f2 = |i: int| o.rhs_k(r, i).times(o.kg(s, i));
            assert forall|i: int| 0 <= i < self.kd implies #[trigger] f(i) == f2(i) by {
                assert(self.g_cum(r, i) == o.g_cum(r, i));
                assert(self.g_cum(s, i) == o.g_cum(s, i));
                assert((self.b)(r, i) == (o.b)(r, i));
                assert((self.k)(r, i) == (o.k)(r, i));
                assert((self.k)(s, i) == (o.k)(s, i));
            }
            algebra::lemma_total_eq(self.kd, f, f2);
            let h = |i: int|
                self.bk(r, i).times(self.rel(r, i)).times(
                    (self.k)(s, i).over(self.rel(s, i)),
                ).times(self.hop(r, s, i));
            let h2 = |i: int|
                o.bk(r, i).times(o.rel(r, i)).times((o.k)(s, i).over(o.rel(s, i))).times(
                    o.hop(r, s, i),
                );
            assert forall|i: int| 0 <= i < self.kd implies #[trigger] h(i) == h2(i) by {
                assert(self.rel(r, i) == o.rel(r, i));
                assert(self.rel(s, i) == o.rel(s, i));
                assert(self.hop(r, s, i) == o.hop(r, s, i));
                assert((self.b)(r, i) == (o.b)(r, i));
                assert((self.k)(r, i) == (o.k)(r, i));
                assert((self.k)(s, i) == (o.k)(s, i));
            }
            algebra::lemma_total_eq(self.kd, h, h2);
        }
    }

    /// The written values of chunks that agree.
    proof fn lemma_writes_local(self, o: Self)
        requires
            self.matches(o),
        ensures
            forall|r: int, j: int|
                0 <= r < self.rows && 0 <= j < self.vd ==> #[trigger] self.v_new(
                    self.solver(),
                    r,
                    j,
                ) == o.v_new(o.solver(), r, j),
    {
        self.lemma_decays_local(o);
        self.lemma_scores_local(o);
        let (m, m2) = (self.solver(), o.solver());
        let (a, a2) = (|x: int, y: int| self.akk(x, y), |x: int, y: int| o.akk(x, y));
        assert forall|r: int, s: int| 0 <= r < self.rows && 0 <= s < self.rows implies #[trigger] m(
            r,
            s,
        ) == m2(r, s) by {
            lemma_inverse_local(a, a2, self.rows, r, s);
        }
        assert forall|r: int, j: int|
            0 <= r < self.rows && 0 <= j < self.vd implies #[trigger] self.v_new(m, r, j)
            == o.v_new(m2, r, j) by {
            let f = |l: int| m(r, l).times(self.rhs_v(l, j));
            let f2 = |l: int| m2(r, l).times(o.rhs_v(l, j));
            assert forall|l: int| 0 <= l < self.rows implies #[trigger] f(l) == f2(l) by {
                assert(m(r, l) == m2(r, l));
                assert((self.v)(l, j) == (o.v)(l, j));
                assert((self.w)(l, j) == (o.w)(l, j));
            }
            algebra::lemma_total_eq(self.rows, f, f2);
            let h = |i: int| self.w_wy(m, r, i).times((self.s)(i, j));
            let h2 = |i: int| o.w_wy(m2, r, i).times((o.s)(i, j));
            assert forall|i: int| 0 <= i < self.kd implies #[trigger] h(i) == h2(i) by {
                let p = |l: int| m(r, l).times(self.rhs_k(l, i));
                let p2 = |l: int| m2(r, l).times(o.rhs_k(l, i));
                assert forall|l: int| 0 <= l < self.rows implies #[trigger] p(l) == p2(l) by {
                    assert(m(r, l) == m2(r, l));
                    assert(self.g_cum(l, i) == o.g_cum(l, i));
                    assert((self.b)(l, i) == (o.b)(l, i));
                    assert((self.k)(l, i) == (o.k)(l, i));
                }
                algebra::lemma_total_eq(self.rows, p, p2);
                assert((self.s)(i, j) == (o.s)(i, j));
            }
            algebra::lemma_total_eq(self.kd, h, h2);
        }
    }

    /// Chunks that agree have outputs that agree.
    pub proof fn lemma_outputs_local(self, o: Self)
        requires
            self.matches(o),
        ensures
            forall|r: int, j: int|
                0 <= r < self.rows && 0 <= j < self.vd ==> #[trigger] self.out(self.solver(), r, j)
                    == o.out(o.solver(), r, j),
    {
        self.lemma_decays_local(o);
        self.lemma_scores_local(o);
        self.lemma_writes_local(o);
        let (m, m2) = (self.solver(), o.solver());
        assert forall|r: int, j: int|
            0 <= r < self.rows && 0 <= j < self.vd implies #[trigger] self.out(m, r, j) == o.out(
            m2,
            r,
            j,
        ) by {
            let f = |l: int| self.aqk(r, l).times(self.v_new(m, l, j));
            let f2 = |l: int| o.aqk(r, l).times(o.v_new(m2, l, j));
            algebra::lemma_total_eq(self.rows, f, f2);
            let h = |i: int| self.qg(r, i).times((self.s)(i, j));
            let h2 = |i: int| o.qg(r, i).times((o.s)(i, j));
            assert forall|i: int| 0 <= i < self.kd implies #[trigger] h(i) == h2(i) by {
                assert(self.g_cum(r, i) == o.g_cum(r, i));
                assert((self.q)(r, i) == (o.q)(r, i));
                assert((self.s)(i, j) == (o.s)(i, j));
            }
            algebra::lemma_total_eq(self.kd, h, h2);
        }
    }

    /// Chunks that agree have outputs and states that agree.
    pub proof fn lemma_local(self, o: Self)
        requires
            self.agrees(o),
        ensures
            forall|r: int, j: int|
                0 <= r < self.rows && 0 <= j < self.vd ==> #[trigger] self.out(self.solver(), r, j)
                    == o.out(o.solver(), r, j),
            forall|i: int, j: int|
                0 <= i < self.kd && 0 <= j < self.vd ==> #[trigger] self.next(self.solver(), i, j)
                    == o.next(o.solver(), i, j),
    {
        self.lemma_outputs_local(o);
        self.lemma_decays_local(o);
        self.lemma_writes_local(o);
        let (m, m2) = (self.solver(), o.solver());
        assert forall|i: int, j: int|
            0 <= i < self.kd && 0 <= j < self.vd implies #[trigger] self.next(m, i, j) == o.next(
            m2,
            i,
            j,
        ) by {
            assert((self.s)(i, j) == (o.s)(i, j));
            assert(self.g_cum(self.n - 1, i) == o.g_cum(self.n - 1, i));
            let f = |r: int|
                (self.k)(r, i).times(self.decay_last(r, i)).times(self.v_new(m, r, j));
            let f2 = |r: int| (o.k)(r, i).times(o.decay_last(r, i)).times(o.v_new(m2, r, j));
            assert forall|r: int| 0 <= r < self.rows implies #[trigger] f(r) == f2(r) by {
                assert((self.k)(r, i) == (o.k)(r, i));
                assert(self.g_cum(r, i) == o.g_cum(r, i));
                assert(self.v_new(m, r, j) == o.v_new(m2, r, j));
            }
            algebra::lemma_total_eq(self.rows, f, f2);
        }
    }
}

impl<F: Scalar> Chunking<F> {
    /// Whether the two agree in their first `n` tokens, in all that goes before them, and in how
    /// they are cut.
    pub open spec fn agrees_until(self, o: Self, n: int) -> bool {
        &&& self.size > 0
        &&& self.tile > 0
        &&& self.tokens >= 0
        &&& self.tokens == o.tokens
        &&& self.size == o.size
        &&& self.tile == o.tile
        &&& self.saved is None
        &&& o.saved is None
        &&& self.head.kd == o.head.kd
        &&& self.head.vd == o.head.vd
        &&& forall|t: int| 0 <= t < n ==> #[trigger] self.head.same_token(t, o.head, t)
        &&& pairing::agree(self.head.kd, self.head.vd, self.s, o.s)
    }

    /// Whether the two agree in range.
    pub open spec fn agrees(self, o: Self) -> bool {
        self.agrees_until(o, self.tokens)
    }

    /// The chunks of heads that agree.
    proof fn lemma_piece_local(self, o: Self, n: int, c: int, s: Grid<F>, s2: Grid<F>)
        requires
            self.agrees_until(o, n),
            0 <= c < self.count(),
            c * self.size + self.len(c) <= n,
            pairing::agree(self.head.kd, self.head.vd, s, s2),
            self.head.scale == o.head.scale,
        ensures
            self.piece(c, s).agrees(o.piece(c, s2)),
    {
        equivalence::lemma_chunk_bounds(self, c);
        let (a, b) = (self.piece(c, s), o.piece(c, s2));
        let start = c * self.size;
        assert forall|r: int, i: int| 0 <= r < a.rows && 0 <= i < a.kd implies #[trigger] (a.q)(r, i)
            == (b.q)(r, i) by {
            if r < a.n {
                assert(self.head.same_token(start + r, o.head, start + r));
                assert((self.head.q)(start + r, i) == (o.head.q)(start + r, i));
            }
        }
        assert forall|r: int, i: int| 0 <= r < a.rows && 0 <= i < a.kd implies #[trigger] (a.k)(r, i)
            == (b.k)(r, i) by {
            if r < a.n {
                assert(self.head.same_token(start + r, o.head, start + r));
                assert((self.head.k)(start + r, i) == (o.head.k)(start + r, i));
            }
        }
        assert forall|r: int, i: int| 0 <= r < a.rows && 0 <= i < a.kd implies #[trigger] (a.g)(r, i)
            == (b.g)(r, i) by {
            if r < a.n {
                assert(self.head.same_token(start + r, o.head, start + r));
                assert((self.head.g)(start + r, i) == (o.head.g)(start + r, i));
            }
        }
        assert forall|r: int, i: int| 0 <= r < a.rows && 0 <= i < a.kd implies #[trigger] (a.b)(r, i)
            == (b.b)(r, i) by {
            if r < a.n {
                assert(self.head.same_token(start + r, o.head, start + r));
                assert((self.head.b)(start + r, i) == (o.head.b)(start + r, i));
            }
        }
        assert forall|r: int, j: int| 0 <= r < a.rows && 0 <= j < a.vd implies #[trigger] (a.v)(r, j)
            == (b.v)(r, j) by {
            if r < a.n {
                assert(self.head.same_token(start + r, o.head, start + r));
                assert((self.head.v)(start + r, j) == (o.head.v)(start + r, j));
            }
        }
        assert forall|r: int, j: int| 0 <= r < a.rows && 0 <= j < a.vd implies #[trigger] (a.w)(r, j)
            == (b.w)(r, j) by {
            if r < a.n {
                assert(self.head.same_token(start + r, o.head, start + r));
                assert((self.head.w)(start + r, j) == (o.head.w)(start + r, j));
            }
        }
    }

    /// Heads that agree have states that agree, after whole chunks of tokens that agree.
    pub proof fn lemma_state_until(self, o: Self, n: int, c: int)
        requires
            self.agrees_until(o, n),
            0 <= c <= self.count(),
            c * self.size <= n || n == self.tokens,
        ensures
            pairing::agree(self.head.kd, self.head.vd, self.state(c), o.state(c)),
        decreases c,
    {
        if c > 0 {
            let size = self.size;
            assert((c - 1) * size <= c * size && c * size == (c - 1) * size + size)
                by (nonlinear_arith)
                requires
                    size > 0,
            ;
            self.lemma_state_until(o, n, c - 1);
            let (s, s2) = (self.state(c - 1), o.state(c - 1));
            equivalence::lemma_chunk_bounds(self, c - 1);
            assert(self.head.same_token((c - 1) * size, o.head, (c - 1) * size));
            self.lemma_piece_local(o, n, c - 1, s, s2);
            self.piece(c - 1, s).lemma_local(o.piece(c - 1, s2));
            let (u, u2) = (self.state(c), o.state(c));
            assert forall|i: int, j: int|
                0 <= i < self.head.kd && 0 <= j < self.head.vd implies #[trigger] u(i, j) == u2(
                i,
                j,
            ) by {
                let (p, p2) = (self.piece(c - 1, s), o.piece(c - 1, s2));
                assert(p.next(p.solver(), i, j) == p2.next(p2.solver(), i, j));
            }
        }
    }

    /// Heads that agree have states that agree before every chunk.
    pub proof fn lemma_state_local(self, o: Self, c: int)
        requires
            self.agrees(o),
            0 <= c <= self.count(),
        ensures
            pairing::agree(self.head.kd, self.head.vd, self.state(c), o.state(c)),
    {
        self.lemma_state_until(o, self.tokens, c);
    }

    /// Heads that agree have outputs that agree.
    pub proof fn lemma_output_local(self, o: Self, t: int, j: int)
        requires
            self.agrees(o),
            0 <= t < self.tokens,
            0 <= j < self.head.vd,
        ensures
            self.output(t, j) == o.output(t, j),
    {
        let (size, tokens, count) = (self.size, self.tokens, self.count());
        let (c, r) = (t / size, t % size);
        assert(0 <= c < count && 0 <= r < size && t == c * size + r && (c + 1) * size == c * size
            + size) by (nonlinear_arith)
            requires
                size > 0,
                0 <= t < tokens,
                count == (tokens + size - 1) / size,
                c == t / size,
                r == t % size,
        ;
        equivalence::lemma_chunk_bounds(self, c);
        assert(self.head.same_token(t, o.head, t));
        self.lemma_state_local(o, c);
        let (s, s2) = (self.state(c), o.state(c));
        self.lemma_piece_local(o, tokens, c, s, s2);
        let (p, p2) = (self.piece(c, s), o.piece(c, s2));
        p.lemma_local(p2);
        assert(p.out(p.solver(), r, j) == p2.out(p2.solver(), r, j));
    }
}

} // verus!
