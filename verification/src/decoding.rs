//! A sequence may be run in parts: the state carries everything from one part to the next.

use vstd::prelude::*;

use crate::algebra;
use crate::config::Gdn2Mode;
use crate::equivalence;
use crate::grid::Grid;
use crate::layer;
use crate::linear::Linear;
use crate::module;
use crate::module::{GatedDeltaNet2, Gdn2State, Past};
use crate::pairing;
use crate::recurrence;
use crate::scalar::{ExactScalar, Scalar};
use crate::short_conv;
use crate::short_conv::SHORT_CONV_CACHE;
use crate::tensor::{Matrix, Tensor3};

verus! {

/// Whether the rows `p` continue the convolution of `y` after its first `m` tokens.
pub open spec fn continues<F>(
    p: Option<spec_fn(int) -> Seq<F>>,
    y: spec_fn(int) -> Seq<F>,
    past: Option<spec_fn(int) -> Seq<F>>,
    m: int,
) -> bool {
    if m == 0 {
        p == past
    } else {
        p matches Some(q) && forall|r: int|
            0 <= r < SHORT_CONV_CACHE ==> #[trigger] q(r) == short_conv::cached(y, past, m)(r)
    }
}

/// Rows that continue a convolution stand for its history.
proof fn lemma_history_continues<F>(
    x: spec_fn(int) -> Seq<F>,
    p: Option<spec_fn(int) -> Seq<F>>,
    y: spec_fn(int) -> Seq<F>,
    past: Option<spec_fn(int) -> Seq<F>>,
    m: int,
    n: int,
    r: int,
)
    requires
        0 <= m,
        1 <= n,
        0 <= r < n + SHORT_CONV_CACHE,
        continues(p, y, past, m),
        forall|t: int| 0 <= t < n ==> #[trigger] x(t) == y(m + t),
    ensures
        short_conv::history(x, p, r) == short_conv::history(y, past, m + r),
{
    if r < SHORT_CONV_CACHE {
        if m == 0 {
            assert(x(0) == y(m + 0));
        } else {
            assert(p->0(r) == short_conv::cached(y, past, m)(r));
        }
    } else {
        assert(x(r - SHORT_CONV_CACHE) == y(m + (r - SHORT_CONV_CACHE)));
    }
}

/// The rows of the convolutions in `p` continue those of the tokens `y` after the first `m`.
pub open spec fn rows_continue<F: Scalar>(
    g: GatedDeltaNet2<F>,
    p: Past<F>,
    y: spec_fn(int) -> Seq<F>,
    past: Past<F>,
    m: int,
) -> bool {
    &&& continues(p.q, module::through(g.q_proj, y), past.q, m)
    &&& continues(p.k, module::through(g.k_proj, y), past.k, m)
    &&& continues(p.v, module::through(g.v_proj, y), past.v, m)
}

impl<F: Scalar> GatedDeltaNet2<F> {
    /// A projection of a part is the projection of the whole.
    proof fn lemma_mixed_continues(
        self,
        lin: Linear<F>,
        weight: Matrix<F>,
        x: spec_fn(int) -> Seq<F>,
        p: Option<spec_fn(int) -> Seq<F>>,
        y: spec_fn(int) -> Seq<F>,
        past: Option<spec_fn(int) -> Seq<F>>,
        m: int,
        n: int,
        t: int,
    )
        requires
            0 <= m,
            0 <= t < n,
            self.config.use_short_conv ==> continues(p, module::through(lin, y), past, m),
            forall|t: int| 0 <= t < n ==> #[trigger] x(t) == y(m + t),
        ensures
            self.mixed(lin, weight, x, p, t) == self.mixed(lin, weight, y, past, m + t),
    {
        let (u, w) = (module::through(lin, x), module::through(lin, y));
        let (a, b) = (self.mixed(lin, weight, x, p, t), self.mixed(lin, weight, y, past, m + t));
        assert(x(t) == y(m + t));
        assert forall|c: int| 0 <= c < a.len() implies #[trigger] a[c] == b[c] by {
            if self.config.use_short_conv {
                let f = |i: int| short_conv::history(u, p, t + i)[c].times(weight.at(c, i));
                let h = |i: int|
                    short_conv::history(w, past, m + t + i)[c].times(weight.at(c, i));
                assert forall|i: int|
                    0 <= i < short_conv::SHORT_CONV_KERNEL implies #[trigger] f(i) == h(i) by {
                    assert forall|l: int| 0 <= l < n implies #[trigger] u(l) == w(m + l) by {
                        assert(x(l) == y(m + l));
                    }
                    lemma_history_continues(u, p, w, past, m, n, t + i);
                    assert(m + (t + i) == m + t + i);
                }
                algebra::lemma_total_eq(short_conv::SHORT_CONV_KERNEL as int, f, h);
            }
        }
        assert(a =~= b);
    }

    /// A value head of a part has the tokens of the whole.
    proof fn lemma_head_continues(
        self,
        x: spec_fn(int) -> Seq<F>,
        p: Past<F>,
        y: spec_fn(int) -> Seq<F>,
        past: Past<F>,
        m: int,
        n: int,
        h: int,
        t: int,
    )
        requires
            0 <= m,
            0 <= t < n,
            self.config.use_short_conv ==> rows_continue(self, p, y, past, m),
            forall|t: int| 0 <= t < n ==> #[trigger] x(t) == y(m + t),
        ensures
            self.head(x, p, h).same_token(t, self.head(y, past, h), m + t),
            self.output_gates(x, t) == self.output_gates(y, m + t),
    {
        assert(x(t) == y(m + t));
        self.lemma_mixed_continues(
            self.q_proj,
            self.q_conv_w,
            x,
            p.q,
            y,
            past.q,
            m,
            n,
            t,
        );
        self.lemma_mixed_continues(
            self.k_proj,
            self.k_conv_w,
            x,
            p.k,
            y,
            past.k,
            m,
            n,
            t,
        );
        self.lemma_mixed_continues(
            self.v_proj,
            self.v_conv_w,
            x,
            p.v,
            y,
            past.v,
            m,
            n,
            t,
        );
        assert(self.decays(x, t) == self.decays(y, m + t));
        assert(self.erase_gates(x, t) == self.erase_gates(y, m + t));
        assert(self.write_gates(x, t) == self.write_gates(y, m + t));
    }

    /// The outputs of the layer on tokens `m .. m + n` of `y`, run as a part, are those of the
    /// whole; so are the states after them.
    pub proof fn part_is_whole(
        self,
        x: spec_fn(int) -> Seq<F>,
        p: Past<F>,
        s: spec_fn(int) -> Grid<F>,
        y: spec_fn(int) -> Seq<F>,
        past: Past<F>,
        s0: spec_fn(int) -> Grid<F>,
        m: int,
        n: int,
        total: int,
    )
        requires
            self.wf(),
            0 <= m,
            0 <= n,
            self.config.use_short_conv ==> rows_continue(self, p, y, past, m),
            forall|t: int| 0 <= t < n ==> #[trigger] x(t) == y(m + t),
            forall|h: int|
                0 <= h < self.config.v_heads() ==> pairing::agree(
                    self.config.head_dim as int,
                    self.config.v_head_dim(),
                    #[trigger] s(h),
                    self.carried(Gdn2Mode::FusedRecurrent, y, past, s0, m, h),
                ),
        ensures
            forall|t: int|
                0 <= t < n ==> #[trigger] self.answer(Gdn2Mode::FusedRecurrent, x, p, s, n, t)
                    == self.answer(Gdn2Mode::FusedRecurrent, y, past, s0, total, m + t),
            forall|h: int|
                0 <= h < self.config.v_heads() ==> pairing::agree(
                    self.config.head_dim as int,
                    self.config.v_head_dim(),
                    #[trigger] self.carried(Gdn2Mode::FusedRecurrent, x, p, s, n, h),
                    self.carried(Gdn2Mode::FusedRecurrent, y, past, s0, m + n, h),
                ),
    {
        let mode = Gdn2Mode::FusedRecurrent;
        assert forall|t: int| 0 <= t < n implies #[trigger] self.answer(mode, x, p, s, n, t)
            == self.answer(mode, y, past, s0, total, m + t) by {
            let o1 = |h: int| self.attended(mode, x, p, s, n, t, h);
            let o2 = |h: int| self.attended(mode, y, past, s0, total, m + t, h);
            self.lemma_head_continues(x, p, y, past, m, n, 0, t);
            assert forall|h: int| 0 <= h < self.config.v_heads() implies #[trigger] o1(h) == o2(
                h,
            ) by {
                self.lemma_part_head(x, p, s, y, past, s0, m, n, h);
                let (h1, h2) = (self.head(x, p, h), self.head(y, past, h));
                let (a1, a2) = (o1(h), o2(h));
                assert forall|j: int| 0 <= j < a1.len() implies #[trigger] a1[j] == a2[j] by {
                    assert(h1.output(s(h), t, j) == h2.output(s0(h), m + t, j));
                }
                assert(a1 =~= a2);
            }
            self.lemma_gathered_same(x, o1, o2, t);
            assert(self.gathered(x, o2, t) =~= self.gathered(y, o2, m + t));
        }
        assert forall|h: int| 0 <= h < self.config.v_heads() implies pairing::agree(
            self.config.head_dim as int,
            self.config.v_head_dim(),
            #[trigger] self.carried(mode, x, p, s, n, h),
            self.carried(mode, y, past, s0, m + n, h),
        ) by {
            self.lemma_part_head(x, p, s, y, past, s0, m, n, h);
        }
    }

    /// A value head of a part gives what it gives as part of the whole.
    proof fn lemma_part_head(
        self,
        x: spec_fn(int) -> Seq<F>,
        p: Past<F>,
        s: spec_fn(int) -> Grid<F>,
        y: spec_fn(int) -> Seq<F>,
        past: Past<F>,
        s0: spec_fn(int) -> Grid<F>,
        m: int,
        n: int,
        h: int,
    )
        requires
            0 <= m,
            0 <= n,
            self.config.use_short_conv ==> rows_continue(self, p, y, past, m),
            forall|t: int| 0 <= t < n ==> #[trigger] x(t) == y(m + t),
            pairing::agree(
                self.config.head_dim as int,
                self.config.v_head_dim(),
                s(h),
                self.carried(Gdn2Mode::FusedRecurrent, y, past, s0, m, h),
            ),
        ensures
            forall|t: int, j: int|
                0 <= t < n && 0 <= j < self.config.v_head_dim() ==> #[trigger] self.head(
                    x,
                    p,
                    h,
                ).output(s(h), t, j) == self.head(y, past, h).output(s0(h), m + t, j),
            pairing::agree(
                self.config.head_dim as int,
                self.config.v_head_dim(),
                self.carried(Gdn2Mode::FusedRecurrent, x, p, s, n, h),
                self.carried(Gdn2Mode::FusedRecurrent, y, past, s0, m + n, h),
            ),
    {
        let h1 = self.head(x, p, h);
        let h2 = self.head(y, past, h);
        assert forall|t: int| 0 <= t < n implies #[trigger] h1.same_token(t, h2, m + t) by {
            self.lemma_head_continues(x, p, y, past, m, n, h, t);
        }
        let s1 = s(h);
        let s2 = s0(h);
        assert forall|i: int, j: int| 0 <= i < h1.kd && 0 <= j < h1.vd implies #[trigger] s1(i, j)
            == h2.run(s2, 0, m)(i, j) by {}
        recurrence::lemma_run_same(h1, s1, h2, s2, m, n);
    }
}

impl<F: Scalar> GatedDeltaNet2<F> {
    /// Whether `st` is the state after the first `m` of the tokens `x(a)` of each batch `a`, where
    /// `old` is the state before them.
    pub open spec fn reaches(
        self,
        x: spec_fn(int) -> spec_fn(int) -> Seq<F>,
        old: Option<Gdn2State<F>>,
        batch: int,
        m: int,
        st: Option<Gdn2State<F>>,
    ) -> bool {
        if m == 0 {
            st == old
        } else {
            &&& st is Some
            &&& self.fits(batch, st->0)
            &&& forall|a: int, h: int, i: int, j: int|
                0 <= a < batch && 0 <= h < self.config.v_heads() && 0 <= i < self.config.head_dim
                    && 0 <= j < self.config.v_head_dim() ==> #[trigger] st->0.recurrent.at(
                    a,
                    h,
                    i,
                    j,
                ) == self.carried(
                    Gdn2Mode::FusedRecurrent,
                    x(a),
                    module::past_at(layer::cache_of(&old), a),
                    layer::starts_at(layer::recurrent_of(old), a),
                    m,
                    h,
                )(i, j)
            &&& self.config.use_short_conv ==> forall|a: int|
                0 <= a < batch ==> rows_continue(
                    self,
                    #[trigger] module::past_at(layer::cache_of(&st), a),
                    x(a),
                    module::past_at(layer::cache_of(&old), a),
                    m,
                )
        }
    }

    /// Running tokens `m .. m + n` from the state after the first `m` gives the outputs of one run
    /// over the whole sequence, and leaves the state after the first `m + n`.
    pub proof fn forward_continues(
        self,
        x: spec_fn(int) -> spec_fn(int) -> Seq<F>,
        old: Option<Gdn2State<F>>,
        m: int,
        st: Option<Gdn2State<F>>,
        piece: Tensor3<F>,
        new: Gdn2State<F>,
        total: int,
    )
        requires
            self.wf(),
            0 <= m,
            piece.d1 >= 1,
            self.reaches(x, old, piece.d0 as int, m, st),
            forall|a: int, t: int|
                0 <= a < piece.d0 && 0 <= t < piece.d1 ==> #[trigger] piece.row(a, t) == x(a)(
                    m + t,
                ),
            self.updates(Gdn2Mode::FusedRecurrent, piece, st, new),
        ensures
            forall|a: int, t: int|
                0 <= a < piece.d0 && 0 <= t < piece.d1 ==> #[trigger] self.answer(
                    Gdn2Mode::FusedRecurrent,
                    short_conv::tokens_of(piece, a),
                    module::past_at(layer::cache_of(&st), a),
                    layer::starts_at(layer::recurrent_of(st), a),
                    piece.d1 as int,
                    t,
                ) == self.answer(
                    Gdn2Mode::FusedRecurrent,
                    x(a),
                    module::past_at(layer::cache_of(&old), a),
                    layer::starts_at(layer::recurrent_of(old), a),
                    total,
                    m + t,
                ),
            self.reaches(x, old, piece.d0 as int, m + piece.d1, Some(new)),
    {
        let mode = Gdn2Mode::FusedRecurrent;
        let n = piece.d1 as int;
        assert forall|a: int, t: int| 0 <= a < piece.d0 && 0 <= t < n implies #[trigger] self.answer(
            mode,
            short_conv::tokens_of(piece, a),
            module::past_at(layer::cache_of(&st), a),
            layer::starts_at(layer::recurrent_of(st), a),
            n,
            t,
        ) == self.answer(
            mode,
            x(a),
            module::past_at(layer::cache_of(&old), a),
            layer::starts_at(layer::recurrent_of(old), a),
            total,
            m + t,
        ) by {
            self.lemma_piece(x, old, m, st, piece, total, a);
        }
        assert forall|a: int, h: int, i: int, j: int|
            0 <= a < piece.d0 && 0 <= h < self.config.v_heads() && 0 <= i < self.config.head_dim
                && 0 <= j < self.config.v_head_dim() implies #[trigger] new.recurrent.at(a, h, i, j)
            == self.carried(
            mode,
            x(a),
            module::past_at(layer::cache_of(&old), a),
            layer::starts_at(layer::recurrent_of(old), a),
            m + n,
            h,
        )(i, j) by {
            self.lemma_piece(x, old, m, st, piece, total, a);
            let (c1, c2) = (
                self.carried(
                    mode,
                    short_conv::tokens_of(piece, a),
                    module::past_at(layer::cache_of(&st), a),
                    layer::starts_at(layer::recurrent_of(st), a),
                    n,
                    h,
                ),
                self.carried(
                    mode,
                    x(a),
                    module::past_at(layer::cache_of(&old), a),
                    layer::starts_at(layer::recurrent_of(old), a),
                    m + n,
                    h,
                ),
            );
            assert(pairing::agree(
                self.config.head_dim as int,
                self.config.v_head_dim(),
                c1,
                c2,
            ));
            assert(c1(i, j) == c2(i, j));
        }
        if self.config.use_short_conv {
            let end = Some(new);
            assert forall|a: int| 0 <= a < piece.d0 implies rows_continue(
                self,
                #[trigger] module::past_at(layer::cache_of(&end), a),
                x(a),
                module::past_at(layer::cache_of(&old), a),
                m + n,
            ) by {
                let (p, past) = (
                    module::past_at(layer::cache_of(&st), a),
                    module::past_at(layer::cache_of(&old), a),
                );
                let y = short_conv::tokens_of(piece, a);
                assert forall|t: int| 0 <= t < n implies #[trigger] y(t) == x(a)(m + t) by {
                    assert(piece.row(a, t) == x(a)(m + t));
                }
                assert(m == 0 ==> rows_continue(self, p, x(a), past, 0));
                assert forall|r: int| 0 <= r < SHORT_CONV_CACHE implies #[trigger] new.conv_q.row(a, r)
                    == short_conv::cached(module::through(self.q_proj, x(a)), past.q, m + n)(r) by {
                    lemma_cache_continues(self.q_proj, y, p.q, x(a), past.q, m, n, r);
                }
                assert forall|r: int| 0 <= r < SHORT_CONV_CACHE implies #[trigger] new.conv_k.row(a, r)
                    == short_conv::cached(module::through(self.k_proj, x(a)), past.k, m + n)(r) by {
                    lemma_cache_continues(self.k_proj, y, p.k, x(a), past.k, m, n, r);
                }
                assert forall|r: int| 0 <= r < SHORT_CONV_CACHE implies #[trigger] new.conv_v.row(a, r)
                    == short_conv::cached(module::through(self.v_proj, x(a)), past.v, m + n)(r) by {
                    lemma_cache_continues(self.v_proj, y, p.v, x(a), past.v, m, n, r);
                }
            }
        }
    }

    /// The part in batch `a`.
    proof fn lemma_piece(
        self,
        x: spec_fn(int) -> spec_fn(int) -> Seq<F>,
        old: Option<Gdn2State<F>>,
        m: int,
        st: Option<Gdn2State<F>>,
        piece: Tensor3<F>,
        total: int,
        a: int,
    )
        requires
            self.wf(),
            0 <= m,
            0 <= a < piece.d0,
            self.reaches(x, old, piece.d0 as int, m, st),
            forall|a: int, t: int|
                0 <= a < piece.d0 && 0 <= t < piece.d1 ==> #[trigger] piece.row(a, t) == x(a)(
                    m + t,
                ),
        ensures
            forall|t: int|
                0 <= t < piece.d1 ==> #[trigger] self.answer(
                    Gdn2Mode::FusedRecurrent,
                    short_conv::tokens_of(piece, a),
                    module::past_at(layer::cache_of(&st), a),
                    layer::starts_at(layer::recurrent_of(st), a),
                    piece.d1 as int,
                    t,
                ) == self.answer(
                    Gdn2Mode::FusedRecurrent,
                    x(a),
                    module::past_at(layer::cache_of(&old), a),
                    layer::starts_at(layer::recurrent_of(old), a),
                    total,
                    m + t,
                ),
            forall|h: int|
                0 <= h < self.config.v_heads() ==> pairing::agree(
                    self.config.head_dim as int,
                    self.config.v_head_dim(),
                    #[trigger] self.carried(
                        Gdn2Mode::FusedRecurrent,
                        short_conv::tokens_of(piece, a),
                        module::past_at(layer::cache_of(&st), a),
                        layer::starts_at(layer::recurrent_of(st), a),
                        piece.d1 as int,
                        h,
                    ),
                    self.carried(
                        Gdn2Mode::FusedRecurrent,
                        x(a),
                        module::past_at(layer::cache_of(&old), a),
                        layer::starts_at(layer::recurrent_of(old), a),
                        m + piece.d1,
                        h,
                    ),
                ),
    {
        let n = piece.d1 as int;
        let y = short_conv::tokens_of(piece, a);
        let p = module::past_at(layer::cache_of(&st), a);
        let s = layer::starts_at(layer::recurrent_of(st), a);
        let past = module::past_at(layer::cache_of(&old), a);
        let s0 = layer::starts_at(layer::recurrent_of(old), a);
        assert forall|t: int| 0 <= t < n implies #[trigger] y(t) == x(a)(m + t) by {
            assert(piece.row(a, t) == x(a)(m + t));
        }
        assert(m == 0 ==> rows_continue(self, p, x(a), past, 0));
        assert forall|h: int| 0 <= h < self.config.v_heads() implies pairing::agree(
            self.config.head_dim as int,
            self.config.v_head_dim(),
            #[trigger] s(h),
            self.carried(Gdn2Mode::FusedRecurrent, x(a), past, s0, m, h),
        ) by {
            if m > 0 {
                let c = self.carried(Gdn2Mode::FusedRecurrent, x(a), past, s0, m, h);
                let g = s(h);
                assert forall|i: int, j: int|
                    0 <= i < self.config.head_dim && 0 <= j
                        < self.config.v_head_dim() implies #[trigger] g(i, j) == c(i, j) by {
                    assert(st->0.recurrent.at(a, h, i, j) == c(i, j));
                }
            }
        }
        self.part_is_whole(y, p, s, x(a), past, s0, m, n, total);
    }

    /// Whether running `token` takes the state from `before` to `after`.
    pub open spec fn decodes(
        self,
        token: Tensor3<F>,
        before: Option<Gdn2State<F>>,
        after: Option<Gdn2State<F>>,
    ) -> bool {
        after is Some && self.updates(Gdn2Mode::FusedRecurrent, token, before, after->0)
    }

    /// Token-by-token decoding gives what one pass over the whole sequence gives: where token `i`
    /// of every batch is run by itself from the state that the tokens before it have left, its
    /// output is that of token `i` of the whole.
    pub proof fn decoding_is_forward(
        self,
        x: spec_fn(int) -> spec_fn(int) -> Seq<F>,
        batch: int,
        tokens: Seq<Tensor3<F>>,
        states: Seq<Option<Gdn2State<F>>>,
        i: int,
    )
        requires
            self.wf(),
            states.len() == tokens.len() + 1,
            0 <= i < tokens.len(),
            forall|t: int|
                0 <= t < tokens.len() ==> (#[trigger] tokens[t]).d0 == batch && tokens[t].d1 == 1,
            forall|a: int, t: int|
                0 <= a < batch && 0 <= t < tokens.len() ==> #[trigger] tokens[t].row(a, 0) == x(a)(
                    t,
                ),
            forall|t: int|
                0 <= t < tokens.len() ==> #[trigger] self.decodes(
                    tokens[t],
                    states[t],
                    states[t + 1],
                ),
        ensures
            self.reaches(x, states[0], batch, i, states[i]),
            forall|a: int|
                0 <= a < batch ==> self.answer(
                    Gdn2Mode::FusedRecurrent,
                    #[trigger] short_conv::tokens_of(tokens[i], a),
                    module::past_at(layer::cache_of(&states[i]), a),
                    layer::starts_at(layer::recurrent_of(states[i]), a),
                    1,
                    0,
                ) == self.answer(
                    Gdn2Mode::FusedRecurrent,
                    x(a),
                    module::past_at(layer::cache_of(&states[0]), a),
                    layer::starts_at(layer::recurrent_of(states[0]), a),
                    tokens.len() as int,
                    i,
                ),
        decreases i,
    {
        let total = tokens.len() as int;
        if i > 0 {
            self.decoding_is_forward(x, batch, tokens, states, i - 1);
            let piece = tokens[i - 1];
            assert forall|a: int, t: int| 0 <= a < piece.d0 && 0 <= t < piece.d1 implies #[trigger] piece.row(
                a,
                t,
            ) == x(a)(i - 1 + t) by {
                assert(tokens[i - 1].row(a, 0) == x(a)(i - 1));
            }
            assert(self.decodes(tokens[i - 1], states[i - 1], states[i - 1 + 1]));
            self.forward_continues(
                x,
                states[0],
                i - 1,
                states[i - 1],
                piece,
                states[i - 1 + 1]->0,
                total,
            );
        }
        let piece = tokens[i];
        assert forall|a: int, t: int| 0 <= a < piece.d0 && 0 <= t < piece.d1 implies #[trigger] piece.row(
            a,
            t,
        ) == x(a)(i + t) by {
            assert(tokens[i].row(a, 0) == x(a)(i));
        }
        assert forall|a: int| 0 <= a < batch implies self.answer(
            Gdn2Mode::FusedRecurrent,
            #[trigger] short_conv::tokens_of(tokens[i], a),
            module::past_at(layer::cache_of(&states[i]), a),
            layer::starts_at(layer::recurrent_of(states[i]), a),
            1,
            0,
        ) == self.answer(
            Gdn2Mode::FusedRecurrent,
            x(a),
            module::past_at(layer::cache_of(&states[0]), a),
            layer::starts_at(layer::recurrent_of(states[0]), a),
            total,
            i,
        ) by {
            self.lemma_piece(x, states[0], i, states[i], piece, total, a);
            assert(i + 0 == i);
            assert(self.answer(
                Gdn2Mode::FusedRecurrent,
                short_conv::tokens_of(piece, a),
                module::past_at(layer::cache_of(&states[i]), a),
                layer::starts_at(layer::recurrent_of(states[i]), a),
                piece.d1 as int,
                0,
            ) == self.answer(
                Gdn2Mode::FusedRecurrent,
                x(a),
                module::past_at(layer::cache_of(&states[0]), a),
                layer::starts_at(layer::recurrent_of(states[0]), a),
                total,
                i + 0,
            ));
        }
    }
}

impl<F: ExactScalar> GatedDeltaNet2<F> {
    /// The two modes agree in exact arithmetic: outputs and states of the chunked scan are those of
    /// the token-by-token scan.
    pub proof fn modes_agree(
        self,
        x: spec_fn(int) -> Seq<F>,
        past: Past<F>,
        s: spec_fn(int) -> Grid<F>,
        tokens: int,
    )
        requires
            self.wf(),
            0 <= tokens,
            forall|h: int|
                0 <= h < self.config.v_heads() ==> (#[trigger] self.chunking(
                    x,
                    past,
                    s,
                    tokens,
                    h,
                )).tiles_decay(),
        ensures
            forall|t: int|
                0 <= t < tokens ==> #[trigger] self.answer(Gdn2Mode::Chunk, x, past, s, tokens, t)
                    == self.answer(Gdn2Mode::FusedRecurrent, x, past, s, tokens, t),
            forall|h: int|
                0 <= h < self.config.v_heads() ==> pairing::agree(
                    self.config.head_dim as int,
                    self.config.v_head_dim(),
                    #[trigger] self.carried(Gdn2Mode::Chunk, x, past, s, tokens, h),
                    self.carried(Gdn2Mode::FusedRecurrent, x, past, s, tokens, h),
                ),
    {
        assert forall|t: int| 0 <= t < tokens implies #[trigger] self.answer(
            Gdn2Mode::Chunk,
            x,
            past,
            s,
            tokens,
            t,
        ) == self.answer(Gdn2Mode::FusedRecurrent, x, past, s, tokens, t) by {
            let o1 = |h: int| self.attended(Gdn2Mode::Chunk, x, past, s, tokens, t, h);
            let o2 = |h: int| self.attended(Gdn2Mode::FusedRecurrent, x, past, s, tokens, t, h);
            assert forall|h: int| 0 <= h < self.config.v_heads() implies #[trigger] o1(h) == o2(
                h,
            ) by {
                let ck = self.chunking(x, past, s, tokens, h);
                equivalence::chunks_are_recurrence(ck);
                let (a1, a2) = (o1(h), o2(h));
                assert forall|j: int| 0 <= j < a1.len() implies #[trigger] a1[j] == a2[j] by {
                    assert(ck.output(t, j) == ck.head.output(ck.s, t, j));
                }
                assert(a1 =~= a2);
            }
            self.lemma_gathered_same(x, o1, o2, t);
        }
        assert forall|h: int| 0 <= h < self.config.v_heads() implies pairing::agree(
            self.config.head_dim as int,
            self.config.v_head_dim(),
            #[trigger] self.carried(Gdn2Mode::Chunk, x, past, s, tokens, h),
            self.carried(Gdn2Mode::FusedRecurrent, x, past, s, tokens, h),
        ) by {
            equivalence::chunks_are_recurrence(self.chunking(x, past, s, tokens, h));
        }
    }
}

/// The rows that a part leaves are those that the whole leaves.
proof fn lemma_cache_continues<F: Scalar>(
    lin: Linear<F>,
    x: spec_fn(int) -> Seq<F>,
    p: Option<spec_fn(int) -> Seq<F>>,
    y: spec_fn(int) -> Seq<F>,
    past: Option<spec_fn(int) -> Seq<F>>,
    m: int,
    n: int,
    r: int,
)
    requires
        0 <= m,
        1 <= n,
        0 <= r < SHORT_CONV_CACHE,
        continues(p, module::through(lin, y), past, m),
        forall|t: int| 0 <= t < n ==> #[trigger] x(t) == y(m + t),
    ensures
        short_conv::cached(module::through(lin, x), p, n)(r) == short_conv::cached(
            module::through(lin, y),
            past,
            m + n,
        )(r),
{
    let (u, w) = (module::through(lin, x), module::through(lin, y));
    assert forall|l: int| 0 <= l < n implies #[trigger] u(l) == w(m + l) by {
        assert(x(l) == y(m + l));
    }
    lemma_history_continues(u, p, w, past, m, n, n + r);
    assert(m + (n + r) == m + n + r);
}

} // verus!
