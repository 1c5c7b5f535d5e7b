//! The forward passes of the layer: what the recurrence gives, normalized, gated and projected.

use vstd::prelude::*;

use crate::activation;
use crate::algebra;
use crate::config::Gdn2Mode;
use crate::forward;
use crate::forward::chunk_wy_forward;
use crate::grid::Grid;
use crate::heads;
use crate::kernel::fused_recurrent;
use crate::kernel::fused_recurrent::{fused_recurrent_forward, peek_state, start_state};
use crate::l2norm;
use crate::module;
use crate::module::{
    GatedDeltaNet2, Gdn2State, Past, ProjectedInputs, FUSED_RECURRENT_MAX_SEQ,
};
use crate::pairing;
use crate::recurrence;
use crate::rows;
use crate::scalar::Scalar;
use crate::short_conv;
use crate::short_conv::SHORT_CONV_CACHE;
use crate::streams;
use crate::streams::Streams;
use crate::tensor::{Tensor3, Tensor4};
use crate::wy;
use crate::wy::{Chunking, Pass};

verus! {

/// A row divided by the root of its mean square, weighted and gated.
pub open spec fn gated_row<F: Scalar>(
    row: Seq<F>,
    gate: Seq<F>,
    weight: Seq<F>,
    eps: F,
) -> Seq<F> {
    let rms = l2norm::sum_of_squares(row).over(F::fraction(row.len() as u64, 1)).plus(eps).rooted();
    Seq::new(
        row.len(),
        |d: int| row[d].over(rms).times(weight[d]).times(activation::swish(gate[d])),
    )
}

/// A row divided by the root of its mean square, weighted and gated.
fn gate_row<F: Scalar>(row: &Vec<F>, gate: &Vec<F>, weight: &Vec<F>, eps: F) -> (r: Vec<F>)
    requires
        gate@.len() == row@.len(),
        weight@.len() == row@.len(),
    ensures
        r@ == gated_row(row@, gate@, weight@, eps),
{
    let n: usize = row.len();
    let rms = l2norm::squared_length(row).div(F::ratio(n as u64, 1)).add(eps).sqrt();
    let ghost o = gated_row(row@, gate@, weight@, eps);
    let mut r: Vec<F> = Vec::new();
    for d in 0..n
        invariant
            n == row@.len(),
            gate@.len() == n,
            weight@.len() == n,
            rms == l2norm::sum_of_squares(row@).over(F::fraction(n as u64, 1)).plus(eps).rooted(),
            o == gated_row(row@, gate@, weight@, eps),
            r@.len() == d,
            forall|i: int| 0 <= i < d ==> #[trigger] r@[i] == o[i],
    {
        r.push(row[d].div(rms).mul(weight[d]).mul(activation::silu(gate[d])));
    }
    assert(r@ =~= o);
    r
}

/// Per-head RMS norm with SiLU gate: `x` and `gate` are `[batch, tokens, heads, v]`, `weight` has
/// one element per channel of a head.
pub fn rms_norm_gate_per_head<F: Scalar>(
    x: &Tensor4<F>,
    gate: &Tensor4<F>,
    weight: &Vec<F>,
    eps: F,
) -> (r: Tensor4<F>)
    requires
        x.wf(),
        gate.shaped(x.d0 as int, x.d1 as int, x.d2 as int, x.d3 as int),
        weight@.len() == x.d3,
    ensures
        r.shaped(x.d0 as int, x.d1 as int, x.d2 as int, x.d3 as int),
        forall|a: int, b: int, c: int|
            0 <= a < x.d0 && 0 <= b < x.d1 && 0 <= c < x.d2 ==> #[trigger] r.row(a, b, c)
                == gated_row(x.row(a, b, c), gate.row(a, b, c), weight@, eps),
{
    let mut r = x.zeros_like();
    for a in 0..x.d0
        invariant
            x.wf(),
            gate.shaped(x.d0 as int, x.d1 as int, x.d2 as int, x.d3 as int),
            weight@.len() == x.d3,
            r.shaped(x.d0 as int, x.d1 as int, x.d2 as int, x.d3 as int),
            forall|p: int, q: int, s: int|
                0 <= p < a && 0 <= q < x.d1 && 0 <= s < x.d2 ==> #[trigger] r.row(p, q, s)
                    == gated_row(x.row(p, q, s), gate.row(p, q, s), weight@, eps),
    {
        for b in 0..x.d1
            invariant
                x.wf(),
                a < x.d0,
                gate.shaped(x.d0 as int, x.d1 as int, x.d2 as int, x.d3 as int),
                weight@.len() == x.d3,
                r.shaped(x.d0 as int, x.d1 as int, x.d2 as int, x.d3 as int),
                forall|p: int, q: int, s: int|
                    0 <= q < x.d1 && 0 <= s < x.d2 && (0 <= p < a || (p == a && q < b))
                        ==> #[trigger] r.row(p, q, s) == gated_row(
                        x.row(p, q, s),
                        gate.row(p, q, s),
                        weight@,
                        eps,
                    ),
        {
            for c in 0..x.d2
                invariant
                    x.wf(),
                    a < x.d0,
                    b < x.d1,
                    gate.shaped(x.d0 as int, x.d1 as int, x.d2 as int, x.d3 as int),
                    weight@.len() == x.d3,
                    r.shaped(x.d0 as int, x.d1 as int, x.d2 as int, x.d3 as int),
                    forall|p: int, q: int, s: int|
                        0 <= q < x.d1 && 0 <= s < x.d2 && (0 <= p < a || (p == a && (q < b || (q
                            == b && s < c)))) ==> #[trigger] r.row(p, q, s) == gated_row(
                            x.row(p, q, s),
                            gate.row(p, q, s),
                            weight@,
                            eps,
                        ),
            {
                let row = gate_row(&x.get_row(a, b, c), &gate.get_row(a, b, c), weight, eps);
                r.set_row(a, b, c, &row);
            }
        }
    }
    r
}

impl<F: Scalar> GatedDeltaNet2<F> {
    /// The channels of all value heads at token `t`, normalized and gated, where head `h` has given
    /// `o(h)`.
    pub open spec fn gathered(
        self,
        x: spec_fn(int) -> Seq<F>,
        o: spec_fn(int) -> Seq<F>,
        t: int,
    ) -> Seq<F> {
        let c = self.config;
        let v = c.v_head_dim();
        Seq::new(
            c.value_dim() as nat,
            |i: int|
                gated_row(
                    o(i / v),
                    module::part(self.output_gates(x, t), i / v, v),
                    self.o_norm_weight@,
                    F::fraction(c.norm_eps.num, c.norm_eps.den),
                )[i % v],
        )
    }

    /// Value head `h` cut into chunks.
    pub open spec fn chunking(
        self,
        x: spec_fn(int) -> Seq<F>,
        past: Past<F>,
        s: spec_fn(int) -> Grid<F>,
        tokens: int,
        h: int,
    ) -> Chunking<F> {
        Chunking {
            head: self.head(x, past, h),
            tokens,
            size: self.config.chunk_size as int,
            tile: wy::TILE as int,
            s: s(h),
            saved: None,
        }
    }

    /// What value head `h` gives at token `t`, where its state before the first token is `s(h)`.
    pub open spec fn attended(
        self,
        mode: Gdn2Mode,
        x: spec_fn(int) -> Seq<F>,
        past: Past<F>,
        s: spec_fn(int) -> Grid<F>,
        tokens: int,
        t: int,
        h: int,
    ) -> Seq<F> {
        Seq::new(
            self.config.v_head_dim() as nat,
            |j: int|
                match mode {
                    Gdn2Mode::FusedRecurrent => self.head(x, past, h).output(s(h), t, j),
                    Gdn2Mode::Chunk => self.chunking(x, past, s, tokens, h).output(t, j),
                },
        )
    }

    /// The state of value head `h` after the last token.
    pub open spec fn carried(
        self,
        mode: Gdn2Mode,
        x: spec_fn(int) -> Seq<F>,
        past: Past<F>,
        s: spec_fn(int) -> Grid<F>,
        tokens: int,
        h: int,
    ) -> Grid<F> {
        match mode {
            Gdn2Mode::FusedRecurrent => self.head(x, past, h).run(s(h), 0, tokens),
            Gdn2Mode::Chunk => {
                let ck = self.chunking(x, past, s, tokens, h);
                ck.state(ck.count())
            },
        }
    }

    /// The output of the layer at token `t`.
    pub open spec fn answer(
        self,
        mode: Gdn2Mode,
        x: spec_fn(int) -> Seq<F>,
        past: Past<F>,
        s: spec_fn(int) -> Grid<F>,
        tokens: int,
        t: int,
    ) -> Seq<F> {
        rows::image(
            self.o_proj,
            self.gathered(x, |h: int| self.attended(mode, x, past, s, tokens, t, h), t),
        )
    }

    /// What value head `h` finds in the state at token `t`.
    pub open spec fn found(
        self,
        x: spec_fn(int) -> Seq<F>,
        past: Past<F>,
        s: spec_fn(int) -> Grid<F>,
        t: int,
        h: int,
    ) -> Seq<F> {
        Seq::new(
            self.config.v_head_dim() as nat,
            |j: int| self.head(x, past, h).peek(t, s(h), j),
        )
    }

    /// The output of the layer at token `t` where the state is only read.
    pub open spec fn glimpse(
        self,
        x: spec_fn(int) -> Seq<F>,
        past: Past<F>,
        s: spec_fn(int) -> Grid<F>,
        t: int,
    ) -> Seq<F> {
        rows::image(
            self.o_proj,
            self.gathered(x, |h: int| self.found(x, past, s, t, h), t),
        )
    }

    /// The mode of `forward` for this many tokens.
    pub open spec fn inference_mode(self, tokens: int) -> Gdn2Mode {
        if tokens <= FUSED_RECURRENT_MAX_SEQ {
            Gdn2Mode::FusedRecurrent
        } else {
            self.config.mode
        }
    }

    /// The arrays of a pass in this mode can be addressed.
    pub open spec fn mode_room(self, mode: Gdn2Mode, batch: int, tokens: int) -> bool {
        mode == Gdn2Mode::Chunk ==> wy::chunk_room(
            batch * self.config.v_heads(),
            tokens,
            self.config.chunk_size as int,
            self.config.head_dim as int,
            self.config.v_head_dim(),
        )
    }

    /// Whether the hidden states have the hidden size of the configuration, and the state, where
    /// there is one, the extents that go with them.
    pub fn validate(&self, hidden_states: &Tensor3<F>, state: &Option<Gdn2State<F>>) -> (r: bool)
        requires
            self.wf(),
        ensures
            r == (hidden_states.d2 == self.config.hidden_size && (*state matches Some(s)
                ==> self.fits(hidden_states.d0 as int, s))),
    {
        if hidden_states.d2 != self.config.hidden_size {
            return false;
        }
        match state {
            Some(s) => {
                let dims = self.config.dims();
                let batch: usize = hidden_states.d0;
                s.recurrent.is_shaped(batch, dims.v_heads, dims.head_dim, dims.v_head_dim)
                    && s.conv_q.is_shaped(batch, SHORT_CONV_CACHE, dims.key_dim)
                    && s.conv_k.is_shaped(batch, SHORT_CONV_CACHE, dims.key_dim)
                    && s.conv_v.is_shaped(batch, SHORT_CONV_CACHE, dims.value_dim)
            },
            None => true,
        }
    }

    /// What the recurrence gives, `[batch, value heads, tokens, v]`, normalized, gated and
    /// projected.
    pub(crate) fn finish(
        &self,
        p: &ProjectedInputs<F>,
        out: &Tensor4<F>,
        Ghost(hidden): Ghost<Tensor3<F>>,
        Ghost(cache): Ghost<Option<(&Tensor3<F>, &Tensor3<F>, &Tensor3<F>)>>,
    ) -> (r: Tensor3<F>)
        requires
            self.wf(),
            self.projects(hidden, cache, *p),
            module::roomy(self.config, hidden.d0 as int, hidden.d1 as int),
            out.shaped(
                hidden.d0 as int,
                self.config.v_heads(),
                hidden.d1 as int,
                self.config.v_head_dim(),
            ),
        ensures
            r.shaped(hidden.d0 as int, hidden.d1 as int, self.config.hidden_size as int),
            forall|a: int, t: int|
                0 <= a < hidden.d0 && 0 <= t < hidden.d1 ==> #[trigger] r.row(a, t) == rows::image(
                    self.o_proj,
                    self.gathered(
                        short_conv::tokens_of(hidden, a),
                        |h: int| out.row(a, h, t),
                        t,
                    ),
                ),
    {
        proof {
            self.config.valid_extents();
        }
        let by_token = out.swap_middle();
        let normed = rms_norm_gate_per_head(&by_token, &p.gate, p.o_norm, p.eps);
        let all = normed.merge_heads();
        let r = all.map_rows(p.o_proj, self.config.hidden_size);
        proof {
            let (hv, v) = (self.config.v_heads(), self.config.v_head_dim());
            assert forall|a: int, t: int|
                0 <= a < hidden.d0 && 0 <= t < hidden.d1 implies #[trigger] r.row(a, t)
                == rows::image(
                self.o_proj,
                self.gathered(short_conv::tokens_of(hidden, a), |h: int| out.row(a, h, t), t),
            ) by {
                let x = short_conv::tokens_of(hidden, a);
                let g = self.gathered(x, |h: int| out.row(a, h, t), t);
                assert forall|i: int| 0 <= i < g.len() implies #[trigger] all.row(a, t)[i]
                    == g[i] by {
                    heads::lemma_head_channel(hv, v, i);
                    let (h, j) = (i / v, i % v);
                    assert(all.at(a, t, i) == normed.at(a, t, h, j));
                    assert(normed.row(a, t, h)[j] == normed.at(a, t, h, j));
                    assert(by_token.row(a, t, h) == out.row(a, h, t));
                    assert(p.gate.row(a, t, h) == module::part(self.output_gates(x, t), h, v));
                }
                assert(all.row(a, t) =~= g);
            }
        }
        r
    }
}

/// The states of the value heads of batch `a` before the first token.
pub open spec fn starts_at<F: Scalar>(start: Option<Tensor4<F>>, a: int) -> spec_fn(int) -> Grid<F> {
    |h: int| fused_recurrent::initial_state(start, a, h)
}

impl<F: Scalar> GatedDeltaNet2<F> {
    /// Whether `out` and `next` are what the recurrence gives in this mode, and the states that it
    /// leaves.
    pub open spec fn scans(
        self,
        mode: Gdn2Mode,
        hidden: Tensor3<F>,
        cache: Option<(&Tensor3<F>, &Tensor3<F>, &Tensor3<F>)>,
        start: Option<Tensor4<F>>,
        out: Tensor4<F>,
        next: Tensor4<F>,
    ) -> bool {
        let c = self.config;
        let (batch, tokens) = (hidden.d0 as int, hidden.d1 as int);
        &&& out.shaped(batch, c.v_heads(), tokens, c.v_head_dim())
        &&& next.shaped(batch, c.v_heads(), c.head_dim as int, c.v_head_dim())
        &&& forall|a: int, h: int, t: int|
            0 <= a < batch && 0 <= h < c.v_heads() && 0 <= t < tokens ==> #[trigger] out.row(a, h, t)
                == self.attended(
                mode,
                short_conv::tokens_of(hidden, a),
                module::past_at(cache, a),
                starts_at(start, a),
                tokens,
                t,
                h,
            )
        &&& forall|a: int, h: int, i: int, j: int|
            0 <= a < batch && 0 <= h < c.v_heads() && 0 <= i < c.head_dim && 0 <= j
                < c.v_head_dim() ==> #[trigger] next.at(a, h, i, j) == self.carried(
                mode,
                short_conv::tokens_of(hidden, a),
                module::past_at(cache, a),
                starts_at(start, a),
                tokens,
                h,
            )(i, j)
    }

    /// The tokens of the arrays are those of the layer.
    proof fn lemma_same_head(
        self,
        hidden: Tensor3<F>,
        cache: Option<(&Tensor3<F>, &Tensor3<F>, &Tensor3<F>)>,
        p: ProjectedInputs<F>,
        a: int,
        h: int,
    )
        requires
            self.projects(hidden, cache, p),
            0 <= a < hidden.d0,
            0 <= h < self.config.v_heads(),
        ensures
            forall|t: int|
                0 <= t < hidden.d1 ==> #[trigger] p.streams().head(self.factor(), a, h).same_token(
                    t,
                    self.head(short_conv::tokens_of(hidden, a), module::past_at(cache, a), h),
                    t,
                ),
    {
    }

    /// What the recurrence gives for value head `h` of batch `a` is what the layer says.
    proof fn lemma_recurrent_head(
        self,
        hidden: Tensor3<F>,
        cache: Option<(&Tensor3<F>, &Tensor3<F>, &Tensor3<F>)>,
        start: Option<Tensor4<F>>,
        p: ProjectedInputs<F>,
        state: Tensor4<F>,
        a: int,
        h: int,
    )
        requires
            self.wf(),
            self.projects(hidden, cache, p),
            p.streams().carries(state),
            fused_recurrent::starts(start, state),
            0 <= a < hidden.d0,
            0 <= h < self.config.v_heads(),
        ensures
            ({
                let h1 = p.streams().head(self.factor(), a, h);
                let h2 = self.head(short_conv::tokens_of(hidden, a), module::past_at(cache, a), h);
                let s1 = streams::state_of(state, a, h);
                let s2 = starts_at(start, a)(h);
                let n = hidden.d1 as int;
                &&& forall|t: int, j: int|
                    0 <= t < n && 0 <= j < h2.vd ==> #[trigger] h1.output(s1, t, j) == h2.output(
                        s2,
                        t,
                        j,
                    )
                &&& forall|i: int, j: int|
                    0 <= i < h2.kd && 0 <= j < h2.vd ==> #[trigger] h1.run(s1, 0, n)(i, j)
                        == h2.run(s2, 0, n)(i, j)
            }),
    {
        let n = hidden.d1 as int;
        let h1 = p.streams().head(self.factor(), a, h);
        let h2 = self.head(short_conv::tokens_of(hidden, a), module::past_at(cache, a), h);
        let (s1, s2) = (streams::state_of(state, a, h), starts_at(start, a)(h));
        self.lemma_same_head(hidden, cache, p, a, h);
        assert(pairing::agree(h1.kd, h1.vd, s1, s2));
        assert forall|t: int| 0 <= t < n implies #[trigger] h1.same_token(t, h2, 0 + t) by {
            assert(h1.same_token(t, h2, t));
        }
        recurrence::lemma_run_same(h1, s1, h2, s2, 0, n);
        assert forall|t: int, j: int| 0 <= t < n && 0 <= j < h2.vd implies #[trigger] h1.output(
            s1,
            t,
            j,
        ) == h2.output(s2, t, j) by {
            assert(h1.output(s1, t, j) == h2.output(s2, 0 + t, j));
        }
        assert forall|i: int, j: int|
            0 <= i < h2.kd && 0 <= j < h2.vd implies #[trigger] h1.run(s1, 0, n)(i, j) == h2.run(
            s2,
            0,
            n,
        )(i, j) by {
            assert(h1.run(s1, 0, n)(i, j) == h2.run(s2, 0, 0 + n)(i, j));
        }
    }

    /// The recurrence token by token is the scan in that mode.
    pub proof fn lemma_recurrent_scan(
        self,
        hidden: Tensor3<F>,
        cache: Option<(&Tensor3<F>, &Tensor3<F>, &Tensor3<F>)>,
        start: Option<Tensor4<F>>,
        p: ProjectedInputs<F>,
        state: Tensor4<F>,
        out: Tensor4<F>,
        next: Tensor4<F>,
    )
        requires
            self.wf(),
            self.projects(hidden, cache, p),
            p.streams().carries(state),
            fused_recurrent::starts(start, state),
            fused_recurrent::recurrence_of(p.streams(), self.factor(), state, out, next),
        ensures
            self.scans(Gdn2Mode::FusedRecurrent, hidden, cache, start, out, next),
    {
        let n = hidden.d1 as int;
        let m = Gdn2Mode::FusedRecurrent;
        assert forall|a: int, h: int, t: int|
            0 <= a < hidden.d0 && 0 <= h < self.config.v_heads() && 0 <= t < n implies #[trigger] out.row(
            a,
            h,
            t,
        ) == self.attended(
            m,
            short_conv::tokens_of(hidden, a),
            module::past_at(cache, a),
            starts_at(start, a),
            n,
            t,
            h,
        ) by {
            self.lemma_recurrent_head(hidden, cache, start, p, state, a, h);
            let h1 = p.streams().head(self.factor(), a, h);
            let s1 = streams::state_of(state, a, h);
            let h2 = self.head(short_conv::tokens_of(hidden, a), module::past_at(cache, a), h);
            let s2 = starts_at(start, a)(h);
            let w = self.attended(
                m,
                short_conv::tokens_of(hidden, a),
                module::past_at(cache, a),
                starts_at(start, a),
                n,
                t,
                h,
            );
            assert forall|j: int| 0 <= j < w.len() implies #[trigger] out.row(a, h, t)[j] == w[j] by {
                assert(out.at(a, h, t, j) == h1.output(s1, t, j));
                assert(h1.output(s1, t, j) == h2.output(s2, t, j));
            }
            assert(out.row(a, h, t) =~= w);
        }
        assert forall|a: int, h: int, i: int, j: int|
            0 <= a < hidden.d0 && 0 <= h < self.config.v_heads() && 0 <= i < self.config.head_dim
                && 0 <= j < self.config.v_head_dim() implies #[trigger] next.at(a, h, i, j)
            == self.carried(
            m,
            short_conv::tokens_of(hidden, a),
            module::past_at(cache, a),
            starts_at(start, a),
            n,
            h,
        )(i, j) by {
            self.lemma_recurrent_head(hidden, cache, start, p, state, a, h);
            let h1 = p.streams().head(self.factor(), a, h);
            let s1 = streams::state_of(state, a, h);
            let h2 = self.head(short_conv::tokens_of(hidden, a), module::past_at(cache, a), h);
            let s2 = starts_at(start, a)(h);
            assert(next.at(a, h, i, j) == h1.run(s1, 0, n)(i, j));
            assert(h1.run(s1, 0, n)(i, j) == h2.run(s2, 0, n)(i, j));
        }
    }

    /// The chunked pass is the scan in that mode.
    proof fn lemma_chunked_scan(
        self,
        hidden: Tensor3<F>,
        cache: Option<(&Tensor3<F>, &Tensor3<F>, &Tensor3<F>)>,
        start: Option<Tensor4<F>>,
        p: ProjectedInputs<F>,
        w: Pass<F>,
        out: Tensor4<F>,
        next: Tensor4<F>,
    )
        requires
            self.wf(),
            self.projects(hidden, cache, p),
            w.x == p.streams(),
            w.scale == self.factor(),
            w.size == self.config.chunk_size,
            w.saved is None,
            w.x.carries(w.state),
            fused_recurrent::starts(start, w.state),
            forward::chunked_outputs(w, out, next),
        ensures
            self.scans(Gdn2Mode::Chunk, hidden, cache, start, out, next),
    {
        let n = hidden.d1 as int;
        let m = Gdn2Mode::Chunk;
        assert forall|a: int, h: int|
            0 <= a < hidden.d0 && 0 <= h < self.config.v_heads() implies #[trigger] w.head(
            a,
            h,
        ).agrees(
            self.chunking(
                short_conv::tokens_of(hidden, a),
                module::past_at(cache, a),
                starts_at(start, a),
                n,
                h,
            ),
        ) by {
            self.lemma_same_head(hidden, cache, p, a, h);
            assert(pairing::agree(
                w.x.kd(),
                w.x.vd(),
                streams::state_of(w.state, a, h),
                starts_at(start, a)(h),
            ));
        }
        assert forall|a: int, h: int, t: int|
            0 <= a < hidden.d0 && 0 <= h < self.config.v_heads() && 0 <= t < n implies #[trigger] out.row(
            a,
            h,
            t,
        ) == self.attended(
            m,
            short_conv::tokens_of(hidden, a),
            module::past_at(cache, a),
            starts_at(start, a),
            n,
            t,
            h,
        ) by {
            let (x, past, s) = (
                short_conv::tokens_of(hidden, a),
                module::past_at(cache, a),
                starts_at(start, a),
            );
            let (ck, mine) = (w.head(a, h), self.chunking(x, past, s, n, h));
            assert(ck.agrees(mine));
            let y = self.attended(m, x, past, s, n, t, h);
            assert forall|j: int| 0 <= j < y.len() implies #[trigger] out.row(a, h, t)[j] == y[j] by {
                assert(out.at(a, h, t, j) == ck.output(t, j));
                ck.lemma_output_local(mine, t, j);
            }
            assert(out.row(a, h, t) =~= y);
        }
        assert forall|a: int, h: int, i: int, j: int|
            0 <= a < hidden.d0 && 0 <= h < self.config.v_heads() && 0 <= i < self.config.head_dim
                && 0 <= j < self.config.v_head_dim() implies #[trigger] next.at(a, h, i, j)
            == self.carried(
            m,
            short_conv::tokens_of(hidden, a),
            module::past_at(cache, a),
            starts_at(start, a),
            n,
            h,
        )(i, j) by {
            let (x, past, s) = (
                short_conv::tokens_of(hidden, a),
                module::past_at(cache, a),
                starts_at(start, a),
            );
            let (ck, mine) = (w.head(a, h), self.chunking(x, past, s, n, h));
            assert(ck.agrees(mine));
            let (size, tokens) = (ck.size, ck.tokens);
            assert(0 <= (tokens + size - 1) / size) by (nonlinear_arith)
                requires
                    size > 0,
                    tokens >= 0,
            ;
            ck.lemma_state_local(mine, ck.count());
            assert(next.at(a, h, i, j) == ck.state(ck.count())(i, j));
        }
    }

    /// The recurrence on the projected inputs, in the given mode.
    fn scan(
        &self,
        p: &ProjectedInputs<F>,
        state: &Tensor4<F>,
        mode: Gdn2Mode,
        Ghost(hidden): Ghost<Tensor3<F>>,
        Ghost(cache): Ghost<Option<(&Tensor3<F>, &Tensor3<F>, &Tensor3<F>)>>,
        Ghost(start): Ghost<Option<Tensor4<F>>>,
    ) -> (r: (Tensor4<F>, Tensor4<F>))
        requires
            self.wf(),
            self.projects(hidden, cache, *p),
            module::roomy(self.config, hidden.d0 as int, hidden.d1 as int),
            self.mode_room(mode, hidden.d0 as int, hidden.d1 as int),
            p.streams().carries(*state),
            fused_recurrent::starts(start, *state),
        ensures
            self.scans(mode, hidden, cache, start, r.0, r.1),
    {
        let scale = F::one().div(F::ratio(self.config.head_dim as u64, 1).sqrt());
        match mode {
            Gdn2Mode::FusedRecurrent => {
                let (out, next) = fused_recurrent_forward(
                    &p.q,
                    &p.k,
                    &p.v,
                    &p.g,
                    &p.b,
                    &p.w,
                    state,
                    scale,
                );
                proof {
                    self.lemma_recurrent_scan(hidden, cache, start, *p, *state, out, next);
                }
                (out, next)
            },
            Gdn2Mode::Chunk => {
                let ghost w = forward::pass_of(
                    &p.q,
                    &p.k,
                    &p.v,
                    &p.g,
                    &p.b,
                    &p.w,
                    *state,
                    scale,
                    self.config.chunk_size as int,
                    None,
                );
                let (out, next) = chunk_wy_forward(
                    &p.q,
                    &p.k,
                    &p.v,
                    &p.g,
                    &p.b,
                    &p.w,
                    state,
                    scale,
                    self.config.chunk_size,
                );
                proof {
                    self.lemma_chunked_scan(hidden, cache, start, *p, w, out, next);
                }
                (out, next)
            },
        }
    }
}

/// The cached rows of a state.
pub open spec fn cache_of<F: Scalar>(state: &Option<Gdn2State<F>>) -> Option<
    (&Tensor3<F>, &Tensor3<F>, &Tensor3<F>),
> {
    match state {
        Some(s) => Some((&s.conv_q, &s.conv_k, &s.conv_v)),
        None => None,
    }
}

/// The recurrent part of a state.
pub open spec fn recurrent_of<F: Scalar>(state: Option<Gdn2State<F>>) -> Option<Tensor4<F>> {
    match state {
        Some(s) => Some(s.recurrent),
        None => None,
    }
}

/// The rows of a cache stay as they were, or are zeros where there was none.
pub open spec fn kept<F: Scalar>(old: Option<&Tensor3<F>>, new: Tensor3<F>) -> bool {
    forall|a: int, l: int, c: int|
        0 <= a < new.d0 && 0 <= l < new.d1 && 0 <= c < new.d2 ==> #[trigger] new.at(a, l, c)
            == match old {
            Some(o) => o.at(a, l, c),
            None => F::nil(),
        }
}

impl<F: Scalar> GatedDeltaNet2<F> {
    /// The state has the extents of the layer.
    pub open spec fn fits(self, batch: int, state: Gdn2State<F>) -> bool {
        let c = self.config;
        state.shaped(
            batch,
            c.v_heads(),
            c.head_dim as int,
            c.v_head_dim(),
            c.key_dim(),
            c.value_dim(),
        )
    }

    /// Whether `new` is the state after the tokens, from the state `old` before them.
    pub open spec fn updates(
        self,
        mode: Gdn2Mode,
        hidden: Tensor3<F>,
        old: Option<Gdn2State<F>>,
        new: Gdn2State<F>,
    ) -> bool {
        let c = self.config;
        &&& self.fits(hidden.d0 as int, new)
        &&& forall|a: int, h: int, i: int, j: int|
            0 <= a < hidden.d0 && 0 <= h < c.v_heads() && 0 <= i < c.head_dim && 0 <= j
                < c.v_head_dim() ==> #[trigger] new.recurrent.at(a, h, i, j) == self.carried(
                mode,
                short_conv::tokens_of(hidden, a),
                module::past_at(cache_of(&old), a),
                starts_at(recurrent_of(old), a),
                hidden.d1 as int,
                h,
            )(i, j)
        &&& c.use_short_conv ==> self.leaves(
            hidden,
            cache_of(&old),
            (new.conv_q, new.conv_k, new.conv_v),
        )
        &&& !c.use_short_conv ==> match old {
            Some(o) => {
                &&& kept(Some(&o.conv_q), new.conv_q)
                &&& kept(Some(&o.conv_k), new.conv_k)
                &&& kept(Some(&o.conv_v), new.conv_v)
            },
            None => {
                &&& kept(None, new.conv_q)
                &&& kept(None, new.conv_k)
                &&& kept(None, new.conv_v)
            },
        }
    }

    /// The state after the tokens: the new recurrent part, and the rows that the convolutions
    /// leave, or the rows as they were where there is no convolution.
    fn next_state(
        &self,
        old: &Option<Gdn2State<F>>,
        recurrent: Tensor4<F>,
        conv: Option<(Tensor3<F>, Tensor3<F>, Tensor3<F>)>,
        batch: usize,
    ) -> (new: Gdn2State<F>)
        requires
            self.wf(),
            conv is Some == self.config.use_short_conv,
            *old matches Some(o) ==> self.fits(batch as int, o),
            batch * SHORT_CONV_CACHE <= usize::MAX,
            batch * SHORT_CONV_CACHE * self.config.key_dim() <= usize::MAX,
            batch * SHORT_CONV_CACHE * self.config.value_dim() <= usize::MAX,
        ensures
            new.recurrent == recurrent,
            conv matches Some(c) ==> (new.conv_q, new.conv_k, new.conv_v) == c,
            conv is None ==> {
                let c = self.config;
                &&& new.conv_q.shaped(batch as int, SHORT_CONV_CACHE as int, c.key_dim())
                &&& new.conv_k.shaped(batch as int, SHORT_CONV_CACHE as int, c.key_dim())
                &&& new.conv_v.shaped(batch as int, SHORT_CONV_CACHE as int, c.value_dim())
                &&& match *old {
                    Some(o) => {
                        &&& kept(Some(&o.conv_q), new.conv_q)
                        &&& kept(Some(&o.conv_k), new.conv_k)
                        &&& kept(Some(&o.conv_v), new.conv_v)
                    },
                    None => {
                        &&& kept(None, new.conv_q)
                        &&& kept(None, new.conv_k)
                        &&& kept(None, new.conv_v)
                    },
                }
            },
    {
        let (conv_q, conv_k, conv_v) = match conv {
            Some(c) => c,
            None => match old {
                Some(o) => (o.conv_q.copy(), o.conv_k.copy(), o.conv_v.copy()),
                None => {
                    let dims = self.config.dims();
                    let (kd, vd): (usize, usize) = (dims.key_dim, dims.value_dim);
                    (
                        Tensor3::zeros(batch, SHORT_CONV_CACHE, kd),
                        Tensor3::zeros(batch, SHORT_CONV_CACHE, kd),
                        Tensor3::zeros(batch, SHORT_CONV_CACHE, vd),
                    )
                },
            },
        };
        Gdn2State { recurrent, conv_q, conv_k, conv_v }
    }

    /// Inference: one pass over a sequence, with its state.
    ///
    /// Short sequences run token by token, longer ones in the configured mode. With `update_state`
    /// the state is the one after the sequence; without it the state is read as it is. The rows of
    /// the short convolutions in the state make token-by-token decoding give what one pass over
    /// the whole sequence gives.
    pub fn forward(
        &self,
        hidden_states: &Tensor3<F>,
        state: &mut Option<Gdn2State<F>>,
        update_state: bool,
    ) -> (r: Tensor3<F>)
        requires
            self.wf(),
            hidden_states.shaped(
                hidden_states.d0 as int,
                hidden_states.d1 as int,
                self.config.hidden_size as int,
            ),
            *old(state) matches Some(s) ==> self.fits(hidden_states.d0 as int, s),
            *old(state) is Some || hidden_states.d1 >= 1,
            module::roomy(self.config, hidden_states.d0 as int, hidden_states.d1 as int),
            self.mode_room(
                self.inference_mode(hidden_states.d1 as int),
                hidden_states.d0 as int,
                hidden_states.d1 as int,
            ),
        ensures
            r.shaped(
                hidden_states.d0 as int,
                hidden_states.d1 as int,
                self.config.hidden_size as int,
            ),
            forall|a: int, t: int|
                0 <= a < hidden_states.d0 && 0 <= t < hidden_states.d1 ==> #[trigger] r.row(a, t)
                    == (if update_state {
                    self.answer(
                        self.inference_mode(hidden_states.d1 as int),
                        short_conv::tokens_of(*hidden_states, a),
                        module::past_at(cache_of(old(state)), a),
                        starts_at(recurrent_of(*old(state)), a),
                        hidden_states.d1 as int,
                        t,
                    )
                } else {
                    self.glimpse(
                        short_conv::tokens_of(*hidden_states, a),
                        module::past_at(cache_of(old(state)), a),
                        starts_at(recurrent_of(*old(state)), a),
                        t,
                    )
                }),
            update_state ==> *final(state) is Some && self.updates(
                self.inference_mode(hidden_states.d1 as int),
                *hidden_states,
                *old(state),
                (*final(state))->0,
            ),
            !update_state ==> *final(state) == *old(state),
    {
        let ghost before = *state;
        let ghost cache = cache_of(&before);
        let ghost start = recurrent_of(before);
        let batch: usize = hidden_states.d0;
        let tokens: usize = hidden_states.d1;
        let dims = self.config.dims();
        let (p, conv) = match &*state {
            Some(s) => self.project(hidden_states, Some((&s.conv_q, &s.conv_k, &s.conv_v))),
            None => self.project(hidden_states, None),
        };
        assert(self.projects(*hidden_states, cache, p));
        let rec = match &*state {
            Some(s) => start_state(
                Some(&s.recurrent),
                batch,
                dims.v_heads,
                dims.head_dim,
                dims.v_head_dim,
            ),
            None => start_state(None, batch, dims.v_heads, dims.head_dim, dims.v_head_dim),
        };
        assert(fused_recurrent::starts(start, rec));
        if update_state {
            let mode = if tokens <= FUSED_RECURRENT_MAX_SEQ {
                Gdn2Mode::FusedRecurrent
            } else {
                self.config.mode
            };
            let (out, next) = self.scan(
                &p,
                &rec,
                mode,
                Ghost(*hidden_states),
                Ghost(cache),
                Ghost(start),
            );
            let new = self.next_state(state, next, conv, batch);
            assert(self.updates(mode, *hidden_states, before, new));
            *state = Some(new);
            let r = self.finish(&p, &out, Ghost(*hidden_states), Ghost(cache));
            proof {
                self.lemma_answers(mode, *hidden_states, cache, start, out, next, r);
            }
            r
        } else {
            let scale = F::one().div(F::ratio(self.config.head_dim as u64, 1).sqrt());
            let x = Streams { q: &p.q, k: &p.k, v: &p.v, g: &p.g, b: &p.b, w: &p.w };
            let out = peek_state(&x, scale, &rec, Ghost(start));
            let r = self.finish(&p, &out, Ghost(*hidden_states), Ghost(cache));
            proof {
                self.lemma_glimpses(*hidden_states, cache, start, p, out, r);
            }
            r
        }
    }

    /// What `finish` makes of a scan is the output of the layer.
    pub proof fn lemma_answers(
        self,
        mode: Gdn2Mode,
        hidden: Tensor3<F>,
        cache: Option<(&Tensor3<F>, &Tensor3<F>, &Tensor3<F>)>,
        start: Option<Tensor4<F>>,
        out: Tensor4<F>,
        next: Tensor4<F>,
        r: Tensor3<F>,
    )
        requires
            self.wf(),
            self.scans(mode, hidden, cache, start, out, next),
            forall|a: int, t: int|
                0 <= a < hidden.d0 && 0 <= t < hidden.d1 ==> #[trigger] r.row(a, t) == rows::image(
                    self.o_proj,
                    self.gathered(
                        short_conv::tokens_of(hidden, a),
                        |h: int| out.row(a, h, t),
                        t,
                    ),
                ),
        ensures
            forall|a: int, t: int|
                0 <= a < hidden.d0 && 0 <= t < hidden.d1 ==> #[trigger] r.row(a, t) == self.answer(
                    mode,
                    short_conv::tokens_of(hidden, a),
                    module::past_at(cache, a),
                    starts_at(start, a),
                    hidden.d1 as int,
                    t,
                ),
    {
        self.config.valid_extents();
        assert forall|a: int, t: int|
            0 <= a < hidden.d0 && 0 <= t < hidden.d1 implies #[trigger] r.row(a, t) == self.answer(
            mode,
            short_conv::tokens_of(hidden, a),
            module::past_at(cache, a),
            starts_at(start, a),
            hidden.d1 as int,
            t,
        ) by {
            let x = short_conv::tokens_of(hidden, a);
            let (past, s, n) = (
                module::past_at(cache, a),
                starts_at(start, a),
                hidden.d1 as int,
            );
            let o1 = |h: int| out.row(a, h, t);
            let o2 = |h: int| self.attended(mode, x, past, s, n, t, h);
            assert forall|h: int| 0 <= h < self.config.v_heads() implies #[trigger] o1(h) == o2(
                h,
            ) by {
                assert(out.row(a, h, t) == self.attended(mode, x, past, s, n, t, h));
            }
            self.lemma_gathered_same(x, o1, o2, t);
        }
    }

    /// What `finish` makes of what the queries find is the output of the layer.
    proof fn lemma_glimpses(
        self,
        hidden: Tensor3<F>,
        cache: Option<(&Tensor3<F>, &Tensor3<F>, &Tensor3<F>)>,
        start: Option<Tensor4<F>>,
        p: ProjectedInputs<F>,
        out: Tensor4<F>,
        r: Tensor3<F>,
    )
        requires
            self.wf(),
            self.projects(hidden, cache, p),
            fused_recurrent::peeked(p.streams(), self.factor(), start, out),
            forall|a: int, t: int|
                0 <= a < hidden.d0 && 0 <= t < hidden.d1 ==> #[trigger] r.row(a, t) == rows::image(
                    self.o_proj,
                    self.gathered(
                        short_conv::tokens_of(hidden, a),
                        |h: int| out.row(a, h, t),
                        t,
                    ),
                ),
        ensures
            forall|a: int, t: int|
                0 <= a < hidden.d0 && 0 <= t < hidden.d1 ==> #[trigger] r.row(a, t) == self.glimpse(
                    short_conv::tokens_of(hidden, a),
                    module::past_at(cache, a),
                    starts_at(start, a),
                    t,
                ),
    {
        self.config.valid_extents();
        assert forall|a: int, t: int|
            0 <= a < hidden.d0 && 0 <= t < hidden.d1 implies #[trigger] r.row(a, t) == self.glimpse(
            short_conv::tokens_of(hidden, a),
            module::past_at(cache, a),
            starts_at(start, a),
            t,
        ) by {
            let x = short_conv::tokens_of(hidden, a);
            let past = module::past_at(cache, a);
            let s = starts_at(start, a);
            let o1 = |h: int| out.row(a, h, t);
            let o2 = |h: int| self.found(x, past, s, t, h);
            assert forall|h: int| 0 <= h < self.config.v_heads() implies #[trigger] o1(h) == o2(
                h,
            ) by {
                self.lemma_same_head(hidden, cache, p, a, h);
                let h1 = p.streams().head(self.factor(), a, h);
                let h2 = self.head(x, past, h);
                assert(h1.same_token(t, h2, t));
                let w = self.found(x, past, s, t, h);
                assert forall|j: int| 0 <= j < w.len() implies #[trigger] out.row(a, h, t)[j]
                    == w[j] by {
                    let s0 = fused_recurrent::initial_state(start, a, h);
                    assert(out.at(a, h, t, j) == h1.peek(t, s0, j));
                    let f = |i: int| (h1.q)(t, i).times(s0(i, j));
                    let f2 = |i: int| (h2.q)(t, i).times(s(h)(i, j));
                    assert forall|i: int| 0 <= i < h1.kd implies #[trigger] f(i) == f2(i) by {
                        assert((h1.q)(t, i) == (h2.q)(t, i));
                    }
                    algebra::lemma_total_eq(h1.kd, f, f2);
                }
                assert(out.row(a, h, t) =~= w);
            }
            self.lemma_gathered_same(x, o1, o2, t);
        }
    }

    /// What is gathered depends on what the value heads give.
    pub proof fn lemma_gathered_same(
        self,
        x: spec_fn(int) -> Seq<F>,
        o1: spec_fn(int) -> Seq<F>,
        o2: spec_fn(int) -> Seq<F>,
        t: int,
    )
        requires
            self.wf(),
            forall|h: int| 0 <= h < self.config.v_heads() ==> #[trigger] o1(h) == o2(h),
        ensures
            self.gathered(x, o1, t) == self.gathered(x, o2, t),
    {
        self.config.valid_extents();
        let (hv, v) = (self.config.v_heads(), self.config.v_head_dim());
        let (g1, g2) = (self.gathered(x, o1, t), self.gathered(x, o2, t));
        assert forall|i: int| 0 <= i < g1.len() implies #[trigger] g1[i] == g2[i] by {
            heads::lemma_head_channel(hv, v, i);
            assert(o1(i / v) == o2(i / v));
        }
        assert(g1 =~= g2);
    }

    /// Training: one pass over the whole sequence in the configured mode.
    pub fn forward_train(&self, hidden_states: &Tensor3<F>) -> (r: Tensor3<F>)
        requires
            self.wf(),
            hidden_states.shaped(
                hidden_states.d0 as int,
                hidden_states.d1 as int,
                self.config.hidden_size as int,
            ),
            hidden_states.d1 >= 1,
            module::roomy(self.config, hidden_states.d0 as int, hidden_states.d1 as int),
            self.mode_room(self.config.mode, hidden_states.d0 as int, hidden_states.d1 as int),
        ensures
            r.shaped(
                hidden_states.d0 as int,
                hidden_states.d1 as int,
                self.config.hidden_size as int,
            ),
            forall|a: int, t: int|
                0 <= a < hidden_states.d0 && 0 <= t < hidden_states.d1 ==> #[trigger] r.row(a, t)
                    == self.answer(
                    self.config.mode,
                    short_conv::tokens_of(*hidden_states, a),
                    module::past_at(None, a),
                    starts_at(None, a),
                    hidden_states.d1 as int,
                    t,
                ),
    {
        let dims = self.config.dims();
        let (p, _conv) = self.project(hidden_states, None);
        let rec = start_state(
            None,
            hidden_states.d0,
            dims.v_heads,
            dims.head_dim,
            dims.v_head_dim,
        );
        let mode = self.config.mode;
        let (out, next) = self.scan(
            &p,
            &rec,
            mode,
            Ghost(*hidden_states),
            Ghost(None),
            Ghost(None),
        );
        let r = self.finish(&p, &out, Ghost(*hidden_states), Ghost(None));
        proof {
            self.lemma_answers(mode, *hidden_states, None, None, out, next, r);
        }
        r
    }
}

} // verus!
