//! The layer: projections, gates, the recurrence, and the normalized output.

use vstd::prelude::*;

use crate::activation;
use crate::activation::{Sigmoid, Silu};
use crate::config::Gdn2Config;
use crate::heads;
use crate::l2norm;
use crate::l2norm::l2_normalize_4d;
use crate::linear::Linear;
use crate::recurrence::Head;
use crate::rows;
use crate::rows::RowMap;
use crate::scalar::Scalar;
use crate::short_conv;
use crate::short_conv::{short_conv_1d, SHORT_CONV_CACHE, SHORT_CONV_KERNEL};
use crate::streams;
use crate::streams::Streams;
use crate::tensor::{Matrix, Tensor3, Tensor4};

verus! {

/// Longest sequence that is always run token by token at inference.
pub const FUSED_RECURRENT_MAX_SEQ: usize = 64;

/// Everything that continues a sequence: the state of the recurrence and the last rows of each
/// short convolution. Without those rows the next token would be convolved with itself in place of
/// the tokens before it.
pub struct Gdn2State<F> {
    /// `[batch, value heads, k, v]`.
    pub recurrent: Tensor4<F>,
    /// `[batch, SHORT_CONV_CACHE, key channels]`.
    pub conv_q: Tensor3<F>,
    /// `[batch, SHORT_CONV_CACHE, key channels]`.
    pub conv_k: Tensor3<F>,
    /// `[batch, SHORT_CONV_CACHE, value channels]`.
    pub conv_v: Tensor3<F>,
}

impl<F: Scalar> Gdn2State<F> {
    /// The state has these extents.
    pub open spec fn shaped(
        self,
        batch: int,
        hv: int,
        hk: int,
        v_head: int,
        kd: int,
        vd: int,
    ) -> bool {
        &&& self.recurrent.shaped(batch, hv, hk, v_head)
        &&& self.conv_q.shaped(batch, SHORT_CONV_CACHE as int, kd)
        &&& self.conv_k.shaped(batch, SHORT_CONV_CACHE as int, kd)
        &&& self.conv_v.shaped(batch, SHORT_CONV_CACHE as int, vd)
    }

    /// A state of zeros.
    pub fn zeros(
        batch: usize,
        hv: usize,
        hk: usize,
        v_head: usize,
        kd: usize,
        vd: usize,
    ) -> (r: Self)
        requires
            batch * hv * hk * v_head <= usize::MAX,
            batch * hv * hk <= usize::MAX,
            batch * hv <= usize::MAX,
            batch * SHORT_CONV_CACHE * kd <= usize::MAX,
            batch * SHORT_CONV_CACHE * vd <= usize::MAX,
            batch * SHORT_CONV_CACHE <= usize::MAX,
        ensures
            r.shaped(batch as int, hv as int, hk as int, v_head as int, kd as int, vd as int),
            forall|a: int, h: int, i: int, j: int|
                0 <= a < batch && 0 <= h < hv && 0 <= i < hk && 0 <= j < v_head
                    ==> #[trigger] r.recurrent.at(a, h, i, j) == F::nil(),
            forall|a: int, l: int, c: int|
                0 <= a < batch && 0 <= l < SHORT_CONV_CACHE && 0 <= c < kd
                    ==> #[trigger] r.conv_q.at(a, l, c) == F::nil(),
            forall|a: int, l: int, c: int|
                0 <= a < batch && 0 <= l < SHORT_CONV_CACHE && 0 <= c < kd
                    ==> #[trigger] r.conv_k.at(a, l, c) == F::nil(),
            forall|a: int, l: int, c: int|
                0 <= a < batch && 0 <= l < SHORT_CONV_CACHE && 0 <= c < vd
                    ==> #[trigger] r.conv_v.at(a, l, c) == F::nil(),
    {
        Gdn2State {
            recurrent: Tensor4::zeros(batch, hv, hk, v_head),
            conv_q: Tensor3::zeros(batch, SHORT_CONV_CACHE, kd),
            conv_k: Tensor3::zeros(batch, SHORT_CONV_CACHE, kd),
            conv_v: Tensor3::zeros(batch, SHORT_CONV_CACHE, vd),
        }
    }
}

/// The last rows of the short convolutions of queries, keys and values.
pub type ConvCache<F> = (Tensor3<F>, Tensor3<F>, Tensor3<F>);

/// The rows that the convolutions of one batch continue, if any.
#[verifier::ext_equal]
pub struct Past<F> {
    pub q: Option<spec_fn(int) -> Seq<F>>,
    pub k: Option<spec_fn(int) -> Seq<F>>,
    pub v: Option<spec_fn(int) -> Seq<F>>,
}

/// The rows that the convolutions of batch `a` continue.
pub open spec fn past_at<F: Scalar>(
    cache: Option<(&Tensor3<F>, &Tensor3<F>, &Tensor3<F>)>,
    a: int,
) -> Past<F> {
    match cache {
        Some(c) => Past {
            q: Some(short_conv::tokens_of(*c.0, a)),
            k: Some(short_conv::tokens_of(*c.1, a)),
            v: Some(short_conv::tokens_of(*c.2, a)),
        },
        None => Past { q: None, k: None, v: None },
    }
}

/// The layer: decoupled erase and write gates on the gated delta rule.
///
/// `S_t = (I - k_t (b_t * k_t)^T) diag(a_t) S_{t-1} + k_t (w_t * v_t)^T`
pub struct GatedDeltaNet2<F> {
    pub q_proj: Linear<F>,
    pub k_proj: Linear<F>,
    pub v_proj: Linear<F>,
    pub f_proj_0: Linear<F>,
    pub f_proj_1: Linear<F>,
    pub b_proj: Linear<F>,
    pub w_proj: Linear<F>,
    pub g_proj_0: Linear<F>,
    pub g_proj_1: Linear<F>,
    /// Logarithms of the decay rates, one per key head.
    pub a_log: Vec<F>,
    /// Bias of the decay, one per key channel.
    pub dt_bias: Vec<F>,
    /// Weights of the output normalization, one per channel of a value head.
    pub o_norm_weight: Vec<F>,
    pub o_proj: Linear<F>,
    pub q_conv_w: Matrix<F>,
    pub k_conv_w: Matrix<F>,
    pub v_conv_w: Matrix<F>,
    pub config: Gdn2Config,
    /// Learned factors of the decays above their lower bound, `[key heads, head_dim]`.
    pub decay_factors: Option<Matrix<F>>,
}

/// What turns the projection of a token into the logarithms of its decays.
pub struct DecayGate<'a, F> {
    pub a_log: &'a Vec<F>,
    pub dt_bias: &'a Vec<F>,
    pub head_dim: usize,
    /// The lower bound of the decays, and the factors above it.
    pub floor: Option<(F, &'a Matrix<F>)>,
}

impl<'a, F: Scalar> DecayGate<'a, F> {
    /// The logarithm of a decay, without a lower bound.
    pub open spec fn free(self, x: F, c: int) -> F {
        self.a_log@[c / (self.head_dim as int)].raised().negated().times(
            activation::smooth_ramp(x.plus(self.dt_bias@[c])),
        )
    }

    /// The logarithm of the decay of channel `c`.
    pub open spec fn value(self, x: F, c: int) -> F {
        match self.floor {
            Some((least, factors)) => {
                let d = self.head_dim as int;
                activation::logistic(factors.at(c / d, c % d)).times(
                    F::unit().minus(least),
                ).times(self.free(x, c).raised()).plus(least).logged()
            },
            None => self.free(x, c),
        }
    }

    /// The parts have extents for `n` channels.
    pub open spec fn shaped(self, n: int) -> bool {
        &&& self.head_dim >= 1
        &&& self.a_log@.len() * self.head_dim == n
        &&& self.dt_bias@.len() == n
        &&& self.floor matches Some((least, factors)) ==> factors.shaped(
            self.a_log@.len() as int,
            self.head_dim as int,
        )
    }
}

impl<'a, F: Scalar> RowMap<F> for DecayGate<'a, F> {
    open spec fn takes(&self, n: int) -> bool {
        self.shaped(n)
    }

    open spec fn width(&self, n: int) -> int {
        n
    }

    open spec fn mapped(&self, row: Seq<F>, c: int) -> F {
        self.value(row[c], c)
    }

    fn apply(&self, row: &Vec<F>) -> (r: Vec<F>) {
        let mut r: Vec<F> = Vec::new();
        for c in 0..row.len()
            invariant
                self.shaped(row@.len() as int),
                r@.len() == c,
                forall|i: int| 0 <= i < c ==> #[trigger] r@[i] == self.value(row@[i], i),
        {
            proof {
                heads::lemma_head_channel(
                    self.a_log@.len() as int,
                    self.head_dim as int,
                    c as int,
                );
            }
            let h: usize = c / self.head_dim;
            let rate = self.a_log[h].exp().neg();
            let free = rate.mul(activation::softplus(row[c].add(self.dt_bias[c])));
            let g = match self.floor {
                Some((least, factors)) => {
                    let factor = activation::sigmoid(factors.get(h, c % self.head_dim)).mul(
                        F::one().sub(least),
                    );
                    factor.mul(free.exp()).add(least).ln()
                },
                None => free,
            };
            r.push(g);
        }
        r
    }
}

/// Rows `x`, through a linear layer.
pub open spec fn through<F: Scalar>(lin: Linear<F>, x: spec_fn(int) -> Seq<F>) -> spec_fn(
    int,
) -> Seq<F> {
    |t: int| rows::image(lin, x(t))
}

/// The channels of head `h`, where a head has `d` of them.
pub open spec fn part<F>(row: Seq<F>, h: int, d: int) -> Seq<F> {
    row.subrange(h * d, h * d + d)
}

impl<F: Scalar> GatedDeltaNet2<F> {
    /// The parameters have the extents of the configuration.
    pub open spec fn wf(self) -> bool {
        let c = self.config;
        let (d, h, hk, v) = (
            c.hidden_size as int,
            c.num_heads as int,
            c.head_dim as int,
            c.v_head_dim(),
        );
        let (kd, vd) = (c.key_dim(), c.value_dim());
        &&& c.valid()
        &&& c.countable()
        &&& self.q_proj.shaped(d, kd)
        &&& self.k_proj.shaped(d, kd)
        &&& self.v_proj.shaped(d, vd)
        &&& self.f_proj_0.shaped(d, v)
        &&& self.f_proj_1.shaped(v, kd)
        &&& self.b_proj.shaped(d, kd)
        &&& self.w_proj.shaped(d, vd)
        &&& self.g_proj_0.shaped(d, v)
        &&& self.g_proj_1.shaped(v, vd)
        &&& self.o_proj.shaped(vd, d)
        &&& self.a_log@.len() == h
        &&& self.dt_bias@.len() == kd
        &&& self.o_norm_weight@.len() == v
        &&& self.q_conv_w.shaped(kd, SHORT_CONV_KERNEL as int)
        &&& self.k_conv_w.shaped(kd, SHORT_CONV_KERNEL as int)
        &&& self.v_conv_w.shaped(vd, SHORT_CONV_KERNEL as int)
        &&& self.decay_factors is Some == c.min_decay is Some
        &&& self.decay_factors matches Some(f) ==> f.shaped(h, hk)
        &&& c.min_decay matches Some(m) ==> m.den > 0
    }

    /// A projection after the short convolution, or after the activation alone.
    pub open spec fn mixed(
        self,
        lin: Linear<F>,
        weight: Matrix<F>,
        x: spec_fn(int) -> Seq<F>,
        past: Option<spec_fn(int) -> Seq<F>>,
        t: int,
    ) -> Seq<F> {
        Seq::new(
            lin.weight.cols as nat,
            |c: int|
                if self.config.use_short_conv {
                    short_conv::convolved(through(lin, x), past, weight, t, c)
                } else {
                    activation::swish(through(lin, x)(t)[c])
                },
        )
    }

    /// What turns the projection of a token into the logarithms of its decays.
    pub open spec fn decay_gate(&self) -> DecayGate<'_, F> {
        DecayGate {
            a_log: &self.a_log,
            dt_bias: &self.dt_bias,
            head_dim: self.config.head_dim,
            floor: match (self.config.min_decay, self.decay_factors) {
                (Some(m), Some(f)) => Some((F::fraction(m.num, m.den), &f)),
                _ => None,
            },
        }
    }

    /// The logarithms of the decays of token `t`.
    pub open spec fn decays(self, x: spec_fn(int) -> Seq<F>, t: int) -> Seq<F> {
        rows::image(
            self.decay_gate(),
            through(self.f_proj_1, through(self.f_proj_0, x))(t),
        )
    }

    /// The erase gates of token `t`.
    pub open spec fn erase_gates(self, x: spec_fn(int) -> Seq<F>, t: int) -> Seq<F> {
        rows::image(Sigmoid { double: self.config.allow_neg_eigval }, through(self.b_proj, x)(t))
    }

    /// The write gates of token `t`.
    pub open spec fn write_gates(self, x: spec_fn(int) -> Seq<F>, t: int) -> Seq<F> {
        rows::image(Sigmoid { double: false }, through(self.w_proj, x)(t))
    }

    /// The output gates of token `t`, before their activation.
    pub open spec fn output_gates(self, x: spec_fn(int) -> Seq<F>, t: int) -> Seq<F> {
        through(self.g_proj_1, through(self.g_proj_0, x))(t)
    }

    /// Factor of the outputs of the recurrence: one over the root of `head_dim`.
    pub open spec fn factor(self) -> F {
        F::unit().over(F::fraction(self.config.head_dim as u64, 1).rooted())
    }

    /// Added to a squared norm before the division.
    pub open spec fn tiny() -> F {
        F::fraction(1, 1_000_000)
    }

    /// Value head `h` of the tokens `x`, with the rows that the convolutions continue.
    pub open spec fn head(self, x: spec_fn(int) -> Seq<F>, past: Past<F>, h: int) -> Head<F> {
        let (hk, v) = (self.config.head_dim as int, self.config.v_head_dim());
        let kh = h / self.config.repeat();
        Head {
            kd: hk,
            vd: v,
            q: |t: int, i: int|
                l2norm::normalized(
                    part(self.mixed(self.q_proj, self.q_conv_w, x, past.q, t), kh, hk),
                    Self::tiny(),
                    i,
                ),
            k: |t: int, i: int|
                l2norm::normalized(
                    part(self.mixed(self.k_proj, self.k_conv_w, x, past.k, t), kh, hk),
                    Self::tiny(),
                    i,
                ),
            v: |t: int, j: int|
                part(self.mixed(self.v_proj, self.v_conv_w, x, past.v, t), h, v)[j],
            g: |t: int, i: int| part(self.decays(x, t), kh, hk)[i],
            b: |t: int, i: int| part(self.erase_gates(x, t), kh, hk)[i],
            w: |t: int, j: int| part(self.write_gates(x, t), h, v)[j],
            scale: self.factor(),
        }
    }
}

/// The arrays for this many batches and tokens can be addressed.
pub open spec fn roomy(c: Gdn2Config, batch: int, tokens: int) -> bool {
    let (kd, vd, hv, hk, v) = (
        c.key_dim(),
        c.value_dim(),
        c.v_heads(),
        c.head_dim as int,
        c.v_head_dim(),
    );
    &&& batch * tokens <= usize::MAX
    &&& batch * tokens * kd <= usize::MAX
    &&& batch * tokens * vd <= usize::MAX
    &&& batch * tokens * v <= usize::MAX
    &&& batch * tokens * c.hidden_size <= usize::MAX
    &&& tokens + SHORT_CONV_CACHE <= usize::MAX
    &&& batch * SHORT_CONV_CACHE <= usize::MAX
    &&& batch * SHORT_CONV_CACHE * kd <= usize::MAX
    &&& batch * SHORT_CONV_CACHE * vd <= usize::MAX
    &&& batch * hv <= usize::MAX
    &&& batch * hv * tokens <= usize::MAX
    &&& batch * hv * tokens * hk <= usize::MAX
    &&& batch * hv * hk <= usize::MAX
    &&& batch * hv * hk * v <= usize::MAX
}

/// The inputs of the recurrence, and what its outputs go through.
pub struct ProjectedInputs<'a, F> {
    /// `[batch, value heads, tokens, k]`.
    pub q: Tensor4<F>,
    /// `[batch, value heads, tokens, k]`.
    pub k: Tensor4<F>,
    /// `[batch, value heads, tokens, v]`.
    pub v: Tensor4<F>,
    /// `[batch, value heads, tokens, k]`.
    pub g: Tensor4<F>,
    /// `[batch, value heads, tokens, k]`.
    pub b: Tensor4<F>,
    /// `[batch, value heads, tokens, v]`.
    pub w: Tensor4<F>,
    /// `[batch, tokens, value heads, v]`.
    pub gate: Tensor4<F>,
    pub o_norm: &'a Vec<F>,
    pub eps: F,
    pub o_proj: &'a Linear<F>,
    /// Value heads.
    pub hv: usize,
    /// Value channels over all heads.
    pub vd: usize,
}

impl<'a, F: Scalar> ProjectedInputs<'a, F> {
    /// The inputs of the recurrence.
    pub open spec fn streams(&self) -> Streams<'_, F> {
        Streams { q: &self.q, k: &self.k, v: &self.v, g: &self.g, b: &self.b, w: &self.w }
    }
}

impl<F: Scalar> GatedDeltaNet2<F> {
    /// Whether `p` is what `project` returns for these inputs.
    pub open spec fn projects(
        self,
        hidden: Tensor3<F>,
        cache: Option<(&Tensor3<F>, &Tensor3<F>, &Tensor3<F>)>,
        p: ProjectedInputs<F>,
    ) -> bool {
        let c = self.config;
        let (batch, tokens, hv, v) = (
            hidden.d0 as int,
            hidden.d1 as int,
            c.v_heads(),
            c.v_head_dim(),
        );
        &&& p.streams().wf()
        &&& p.q.shaped(batch, hv, tokens, c.head_dim as int)
        &&& p.g.shaped(batch, hv, tokens, c.head_dim as int)
        &&& p.b.shaped(batch, hv, tokens, c.head_dim as int)
        &&& p.v.shaped(batch, hv, tokens, v)
        &&& forall|a: int, h: int, t: int|
            0 <= a < batch && 0 <= h < hv && 0 <= t < tokens ==> #[trigger] p.streams().head(
                self.factor(),
                a,
                h,
            ).same_token(
                t,
                self.head(short_conv::tokens_of(hidden, a), past_at(cache, a), h),
                t,
            )
        &&& p.gate.shaped(batch, tokens, hv, v)
        &&& forall|a: int, t: int, h: int|
            0 <= a < batch && 0 <= t < tokens && 0 <= h < hv ==> #[trigger] p.gate.row(a, t, h)
                == part(self.output_gates(short_conv::tokens_of(hidden, a), t), h, v)
        &&& *p.o_norm == self.o_norm_weight
        &&& p.eps == F::fraction(c.norm_eps.num, c.norm_eps.den)
        &&& *p.o_proj == self.o_proj
        &&& p.hv == hv
        &&& p.vd == c.value_dim()
    }

    /// Whether `next` holds the rows that the convolutions leave.
    pub open spec fn leaves(
        self,
        hidden: Tensor3<F>,
        cache: Option<(&Tensor3<F>, &Tensor3<F>, &Tensor3<F>)>,
        next: ConvCache<F>,
    ) -> bool {
        let (batch, tokens) = (hidden.d0 as int, hidden.d1 as int);
        &&& next.0.shaped(batch, SHORT_CONV_CACHE as int, self.config.key_dim())
        &&& next.1.shaped(batch, SHORT_CONV_CACHE as int, self.config.key_dim())
        &&& next.2.shaped(batch, SHORT_CONV_CACHE as int, self.config.value_dim())
        &&& forall|a: int, l: int|
            0 <= a < batch && 0 <= l < SHORT_CONV_CACHE ==> #[trigger] next.0.row(a, l)
                == short_conv::cached(
                through(self.q_proj, short_conv::tokens_of(hidden, a)),
                past_at(cache, a).q,
                tokens,
            )(l)
        &&& forall|a: int, l: int|
            0 <= a < batch && 0 <= l < SHORT_CONV_CACHE ==> #[trigger] next.1.row(a, l)
                == short_conv::cached(
                through(self.k_proj, short_conv::tokens_of(hidden, a)),
                past_at(cache, a).k,
                tokens,
            )(l)
        &&& forall|a: int, l: int|
            0 <= a < batch && 0 <= l < SHORT_CONV_CACHE ==> #[trigger] next.2.row(a, l)
                == short_conv::cached(
                through(self.v_proj, short_conv::tokens_of(hidden, a)),
                past_at(cache, a).v,
                tokens,
            )(l)
    }

    /// A projection after the short convolution, with the rows that the convolution leaves, or
    /// after the activation alone.
    fn mix(
        &self,
        lin: &Linear<F>,
        weight: &Matrix<F>,
        hidden: &Tensor3<F>,
        cache: Option<&Tensor3<F>>,
    ) -> (r: (Tensor3<F>, Option<Tensor3<F>>))
        requires
            hidden.wf(),
            lin.shaped(hidden.d2 as int, lin.weight.cols as int),
            weight.shaped(lin.weight.cols as int, SHORT_CONV_KERNEL as int),
            hidden.d0 * hidden.d1 <= usize::MAX,
            hidden.d0 * hidden.d1 * lin.weight.cols <= usize::MAX,
            hidden.d1 + SHORT_CONV_CACHE <= usize::MAX,
            hidden.d0 * SHORT_CONV_CACHE <= usize::MAX,
            hidden.d0 * SHORT_CONV_CACHE * lin.weight.cols <= usize::MAX,
            cache matches Some(p) ==> p.shaped(
                hidden.d0 as int,
                SHORT_CONV_CACHE as int,
                lin.weight.cols as int,
            ),
            cache is Some || hidden.d1 >= 1,
        ensures
            r.0.shaped(hidden.d0 as int, hidden.d1 as int, lin.weight.cols as int),
            forall|a: int, t: int|
                0 <= a < hidden.d0 && 0 <= t < hidden.d1 ==> #[trigger] r.0.row(a, t) == self.mixed(
                    *lin,
                    *weight,
                    short_conv::tokens_of(*hidden, a),
                    short_conv::past_of(cache, a),
                    t,
                ),
            r.1 is Some == self.config.use_short_conv,
            r.1 matches Some(next) ==> next.shaped(
                hidden.d0 as int,
                SHORT_CONV_CACHE as int,
                lin.weight.cols as int,
            ),
            r.1 matches Some(next) ==> forall|a: int, l: int|
                0 <= a < hidden.d0 && 0 <= l < SHORT_CONV_CACHE ==> #[trigger] next.row(a, l)
                    == short_conv::cached(
                    through(*lin, short_conv::tokens_of(*hidden, a)),
                    short_conv::past_of(cache, a),
                    hidden.d1 as int,
                )(l),
    {
        let n: usize = lin.weight.cols;
        let raw = hidden.map_rows(lin, n);
        if self.config.use_short_conv {
            let (out, next) = short_conv_1d(&raw, weight, cache);
            proof {
                assert forall|a: int, t: int|
                    0 <= a < hidden.d0 && 0 <= t < hidden.d1 implies #[trigger] out.row(a, t)
                    == self.mixed(
                    *lin,
                    *weight,
                    short_conv::tokens_of(*hidden, a),
                    short_conv::past_of(cache, a),
                    t,
                ) by {
                    let (x, y) = (
                        short_conv::tokens_of(raw, a),
                        through(*lin, short_conv::tokens_of(*hidden, a)),
                    );
                    let past = short_conv::past_of(cache, a);
                    assert forall|u: int| 0 <= u < hidden.d1 implies #[trigger] x(u) == y(u) by {
                        assert(raw.row(a, u) == rows::image(*lin, hidden.row(a, u)));
                    }
                    short_conv::lemma_convolution_local(x, y, past, *weight, hidden.d1 as int);
                    let m = self.mixed(*lin, *weight, short_conv::tokens_of(*hidden, a), past, t);
                    assert forall|c: int| 0 <= c < n implies #[trigger] out.row(a, t)[c] == m[c] by {
                        assert(out.at(a, t, c) == short_conv::convolved(x, past, *weight, t, c));
                    }
                    assert(out.row(a, t) =~= m);
                }
                assert forall|a: int, l: int|
                    0 <= a < hidden.d0 && 0 <= l < SHORT_CONV_CACHE implies #[trigger] next.row(
                    a,
                    l,
                ) == short_conv::cached(
                    through(*lin, short_conv::tokens_of(*hidden, a)),
                    short_conv::past_of(cache, a),
                    hidden.d1 as int,
                )(l) by {
                    let (x, y) = (
                        short_conv::tokens_of(raw, a),
                        through(*lin, short_conv::tokens_of(*hidden, a)),
                    );
                    let past = short_conv::past_of(cache, a);
                    assert forall|u: int| 0 <= u < hidden.d1 implies #[trigger] x(u) == y(u) by {
                        assert(raw.row(a, u) == rows::image(*lin, hidden.row(a, u)));
                    }
                    short_conv::lemma_convolution_local(x, y, past, *weight, hidden.d1 as int);
                }
            }
            (out, Some(next))
        } else {
            let out = raw.map_rows(&Silu, n);
            proof {
                assert forall|a: int, t: int|
                    0 <= a < hidden.d0 && 0 <= t < hidden.d1 implies #[trigger] out.row(a, t)
                    == self.mixed(
                    *lin,
                    *weight,
                    short_conv::tokens_of(*hidden, a),
                    short_conv::past_of(cache, a),
                    t,
                ) by {
                    assert(out.row(a, t) =~= self.mixed(
                        *lin,
                        *weight,
                        short_conv::tokens_of(*hidden, a),
                        short_conv::past_of(cache, a),
                        t,
                    ));
                }
            }
            (out, None)
        }
    }
}

/// What `key_heads` puts at channel `i` of value head `h`, from a row over all key heads.
pub open spec fn key_channel<F: Scalar>(
    c: Gdn2Config,
    normalize: bool,
    row: Seq<F>,
    h: int,
    i: int,
) -> F {
    let p = part(row, h / c.repeat(), c.head_dim as int);
    if normalize {
        l2norm::normalized(p, GatedDeltaNet2::<F>::tiny(), i)
    } else {
        p[i]
    }
}

impl<F: Scalar> GatedDeltaNet2<F> {
    /// Deals the key channels out to the value heads, normalized per head or not: each key head
    /// serves `repeat` value heads.
    fn key_heads(&self, x: &Tensor3<F>, normalize: bool) -> (r: Tensor4<F>)
        requires
            self.wf(),
            x.shaped(x.d0 as int, x.d1 as int, self.config.key_dim()),
            roomy(self.config, x.d0 as int, x.d1 as int),
        ensures
            r.shaped(
                x.d0 as int,
                self.config.v_heads(),
                x.d1 as int,
                self.config.head_dim as int,
            ),
            forall|a: int, h: int, t: int, i: int|
                0 <= a < x.d0 && 0 <= h < self.config.v_heads() && 0 <= t < x.d1 && 0 <= i
                    < self.config.head_dim ==> #[trigger] r.at(a, h, t, i) == key_channel(
                    self.config,
                    normalize,
                    x.row(a, t),
                    h,
                    i,
                ),
    {
        let dims = self.config.dims();
        proof {
            self.config.valid_extents();
        }
        let x4 = x.split_heads(dims.heads, dims.head_dim);
        let (hk, rep): (usize, usize) = (dims.head_dim, dims.repeat);
        let n4 = if normalize {
            l2_normalize_4d(&x4, F::ratio(1, 1_000_000))
        } else {
            x4.copy()
        };
        proof {
            let (hv, h, rp) = (self.config.v_heads(), dims.heads as int, rep as int);
            assert(h * rp == hv && (rp == 1 ==> h == hv)) by (nonlinear_arith)
                requires
                    rp * h == hv,
            ;
        }
        let r = if rep > 1 {
            n4.repeat_heads(rep)
        } else {
            n4.copy()
        };
        proof {
            assert forall|a: int, h: int, t: int, i: int|
                0 <= a < x.d0 && 0 <= h < self.config.v_heads() && 0 <= t < x.d1 && 0 <= i
                    < hk implies #[trigger] r.at(a, h, t, i) == key_channel(
                self.config,
                normalize,
                x.row(a, t),
                h,
                i,
            ) by {
                heads::lemma_group(dims.heads as int, rep as int, h);
                let kh = h / (rep as int);
                if rep > 1 {
                    assert(r.row(a, h, t)[i] == n4.row(a, kh, t)[i]);
                } else {
                    assert(kh == h) by (nonlinear_arith)
                        requires
                            kh == h / (rep as int),
                            rep == 1,
                    ;
                }
                assert(r.at(a, h, t, i) == n4.at(a, kh, t, i));
                assert(x4.row(a, kh, t) == part(x.row(a, t), kh, hk as int));
                if !normalize {
                    assert(x4.row(a, kh, t)[i] == x4.at(a, kh, t, i));
                }
            }
        }
        r
    }

    /// The projections and gates of the tokens, and the rows that the short convolutions leave.
    ///
    /// `conv_cache` holds the rows that an earlier call has left.
    pub fn project(
        &self,
        hidden_states: &Tensor3<F>,
        conv_cache: Option<(&Tensor3<F>, &Tensor3<F>, &Tensor3<F>)>,
    ) -> (r: (ProjectedInputs<'_, F>, Option<ConvCache<F>>))
        requires
            self.wf(),
            hidden_states.shaped(
                hidden_states.d0 as int,
                hidden_states.d1 as int,
                self.config.hidden_size as int,
            ),
            roomy(self.config, hidden_states.d0 as int, hidden_states.d1 as int),
            conv_cache is Some || hidden_states.d1 >= 1,
            conv_cache matches Some(c) ==> cache_shaped(
                self.config,
                hidden_states.d0 as int,
                *c.0,
                *c.1,
                *c.2,
            ),
        ensures
            self.projects(*hidden_states, conv_cache, r.0),
            r.1 is Some == self.config.use_short_conv,
            r.1 matches Some(next) ==> self.leaves(*hidden_states, conv_cache, next),
    {
        let dims = self.config.dims();
        let (hv, v): (usize, usize) = (dims.v_heads, dims.v_head_dim);
        let (kd, vd): (usize, usize) = (dims.key_dim, dims.value_dim);
        let (cq, ck, cv) = match conv_cache {
            Some((q, k, v)) => (Some(q), Some(k), Some(v)),
            None => (None, None, None),
        };
        let (q_act, q_next) = self.mix(&self.q_proj, &self.q_conv_w, hidden_states, cq);
        let (k_act, k_next) = self.mix(&self.k_proj, &self.k_conv_w, hidden_states, ck);
        let (v_act, v_next) = self.mix(&self.v_proj, &self.v_conv_w, hidden_states, cv);
        let f_hid = hidden_states.map_rows(&self.f_proj_0, v);
        let f_out = f_hid.map_rows(&self.f_proj_1, kd);
        let decay = DecayGate {
            a_log: &self.a_log,
            dt_bias: &self.dt_bias,
            head_dim: dims.head_dim,
            floor: match (self.config.min_decay, &self.decay_factors) {
                (Some(m), Some(f)) => Some((F::ratio(m.num, m.den), f)),
                _ => None,
            },
        };
        assert(decay == self.decay_gate());
        let g_rows = f_out.map_rows(&decay, kd);
        let erase = Sigmoid { double: self.config.allow_neg_eigval };
        let b_rows = hidden_states.map_rows(&self.b_proj, kd).map_rows(&erase, kd);
        let write = Sigmoid { double: false };
        let w_rows = hidden_states.map_rows(&self.w_proj, vd).map_rows(&write, vd);
        let g_hid = hidden_states.map_rows(&self.g_proj_0, v);
        let signal = g_hid.map_rows(&self.g_proj_1, vd);
        let gate = signal.split_heads(hv, v).swap_middle();
        let p = ProjectedInputs {
            q: self.key_heads(&q_act, true),
            k: self.key_heads(&k_act, true),
            v: v_act.split_heads(hv, v),
            g: self.key_heads(&g_rows, false),
            b: self.key_heads(&b_rows, false),
            w: w_rows.split_heads(hv, v),
            gate,
            o_norm: &self.o_norm_weight,
            eps: F::ratio(self.config.norm_eps.num, self.config.norm_eps.den),
            o_proj: &self.o_proj,
            hv,
            vd,
        };
        proof {
            let c = self.config;
            c.valid_extents();
            assert forall|a: int, h: int, t: int|
                0 <= a < hidden_states.d0 && 0 <= h < hv && 0 <= t
                    < hidden_states.d1 implies #[trigger] p.streams().head(
                self.factor(),
                a,
                h,
            ).same_token(
                t,
                self.head(
                    short_conv::tokens_of(*hidden_states, a),
                    past_at(conv_cache, a),
                    h,
                ),
                t,
            ) by {
                let x = short_conv::tokens_of(*hidden_states, a);
                assert(g_rows.row(a, t) == self.decays(x, t));
                assert(b_rows.row(a, t) == self.erase_gates(x, t));
                assert(w_rows.row(a, t) == self.write_gates(x, t));
                assert(p.v.row(a, h, t) == part(v_act.row(a, t), h, v as int));
                assert(p.w.row(a, h, t) == part(w_rows.row(a, t), h, v as int));
                let (h1, h2) = (
                    p.streams().head(self.factor(), a, h),
                    self.head(x, past_at(conv_cache, a), h),
                );
                assert forall|i: int| 0 <= i < h1.kd implies (h1.q)(t, i) == (h2.q)(t, i) && (h1.k)(
                    t,
                    i,
                ) == (h2.k)(t, i) && (h1.g)(t, i) == (h2.g)(t, i) && #[trigger] (h1.b)(t, i)
                    == (h2.b)(t, i) by {
                    assert(p.q.at(a, h, t, i) == key_channel(c, true, q_act.row(a, t), h, i));
                    assert(p.k.at(a, h, t, i) == key_channel(c, true, k_act.row(a, t), h, i));
                    assert(p.g.at(a, h, t, i) == key_channel(c, false, g_rows.row(a, t), h, i));
                    assert(p.b.at(a, h, t, i) == key_channel(c, false, b_rows.row(a, t), h, i));
                }
                assert forall|j: int| 0 <= j < h1.vd implies (h1.v)(t, j) == (h2.v)(t, j)
                    && #[trigger] (h1.w)(t, j) == (h2.w)(t, j) by {
                    assert(p.v.row(a, h, t)[j] == p.v.at(a, h, t, j));
                    assert(p.w.row(a, h, t)[j] == p.w.at(a, h, t, j));
                }
                assert forall|i: int| 0 <= i < h1.kd implies #[trigger] (h1.q)(t, i) == (h2.q)(t, i) by {
                    assert((h1.b)(t, i) == (h2.b)(t, i));
                }
                assert forall|i: int| 0 <= i < h1.kd implies #[trigger] (h1.k)(t, i) == (h2.k)(t, i) by {
                    assert((h1.b)(t, i) == (h2.b)(t, i));
                }
                assert forall|i: int| 0 <= i < h1.kd implies #[trigger] (h1.g)(t, i) == (h2.g)(t, i) by {
                    assert((h1.b)(t, i) == (h2.b)(t, i));
                }
                assert forall|j: int| 0 <= j < h1.vd implies #[trigger] (h1.v)(t, j) == (h2.v)(t, j) by {
                    assert((h1.w)(t, j) == (h2.w)(t, j));
                }
            }
            assert forall|a: int, t: int, h: int|
                0 <= a < hidden_states.d0 && 0 <= t < hidden_states.d1 && 0 <= h
                    < hv implies #[trigger] p.gate.row(a, t, h) == part(
                self.output_gates(short_conv::tokens_of(*hidden_states, a), t),
                h,
                v as int,
            ) by {
                assert(signal.row(a, t) == self.output_gates(
                    short_conv::tokens_of(*hidden_states, a),
                    t,
                ));
            }
        }
        let next = match (q_next, k_next, v_next) {
            (Some(q), Some(k), Some(v)) => Some((q, k, v)),
            _ => None,
        };
        (p, next)
    }
}

/// The cached rows have the extents of the configuration.
pub open spec fn cache_shaped<F: Scalar>(
    c: Gdn2Config,
    batch: int,
    q: Tensor3<F>,
    k: Tensor3<F>,
    v: Tensor3<F>,
) -> bool {
    &&& q.shaped(batch, SHORT_CONV_CACHE as int, c.key_dim())
    &&& k.shaped(batch, SHORT_CONV_CACHE as int, c.key_dim())
    &&& v.shaped(batch, SHORT_CONV_CACHE as int, c.value_dim())
}

} // verus!
