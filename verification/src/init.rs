//! Making a layer from a configuration and random draws.

use vstd::prelude::*;

use crate::activation;
use crate::algebra;
use crate::config::{ConfigError, Gdn2Config};
use crate::index;
use crate::linear::Linear;
use crate::module::GatedDeltaNet2;
use crate::scalar;
use crate::scalar::{ExactScalar, Scalar};
use crate::short_conv::SHORT_CONV_KERNEL;
use crate::tensor::Matrix;

verus! {

/// What a new layer draws at random.
pub struct Draws<F> {
    pub q_proj: Matrix<F>,
    pub k_proj: Matrix<F>,
    pub v_proj: Matrix<F>,
    pub f_proj_0: Matrix<F>,
    pub f_proj_1: Matrix<F>,
    pub b_proj: Matrix<F>,
    pub w_proj: Matrix<F>,
    pub g_proj_0: Matrix<F>,
    pub g_proj_1: Matrix<F>,
    pub o_proj: Matrix<F>,
    /// Logarithms of the decay rates.
    pub a_log: Vec<F>,
    /// Logarithms of the time steps.
    pub dt_log: Vec<F>,
    pub q_conv_w: Matrix<F>,
    pub k_conv_w: Matrix<F>,
    pub v_conv_w: Matrix<F>,
}

impl<F: Scalar> Draws<F> {
    /// The draws have the extents of the configuration.
    pub open spec fn shaped(self, c: Gdn2Config) -> bool {
        let (d, v, kd, vd) = (
            c.hidden_size as int,
            c.v_head_dim(),
            c.key_dim(),
            c.value_dim(),
        );
        &&& self.q_proj.shaped(d, kd)
        &&& self.k_proj.shaped(d, kd)
        &&& self.v_proj.shaped(d, vd)
        &&& self.f_proj_0.shaped(d, v)
        &&& self.f_proj_1.shaped(v, kd)
        &&& self.b_proj.shaped(d, kd)
        &&& self.w_proj.shaped(d, vd)
        &&& self.g_proj_0.shaped(d, v)
        &&& self.g_proj_1.shaped(v, vd)
        &&& self.o_proj.shaped(vd, d)
        &&& self.a_log@.len() == c.num_heads
        &&& self.dt_log@.len() == kd
        &&& self.q_conv_w.shaped(kd, SHORT_CONV_KERNEL as int)
        &&& self.k_conv_w.shaped(kd, SHORT_CONV_KERNEL as int)
        &&& self.v_conv_w.shaped(vd, SHORT_CONV_KERNEL as int)
    }
}

/// The time step of a draw: at least 1e-4.
pub open spec fn time_step<F: Scalar>(x: F) -> F {
    scalar::at_least(x.raised(), F::fraction(1, 10_000))
}

/// The number whose softplus is `y`: `y + ln(1 - exp(-y))`.
pub open spec fn ramp_inverse<F: Scalar>(y: F) -> F {
    y.plus(y.negated().raised().negated().plus(F::unit()).logged())
}

/// The softplus of a starting bias is its time step, where logarithm and exponential undo each
/// other.
pub proof fn bias_gives_time_step<F: ExactScalar>(y: F)
    requires
        y.raised().logged() == y,
        ({
            let z = y.negated().raised().negated().plus(F::unit());
            z.logged().raised() == z
        }),
    ensures
        activation::smooth_ramp(ramp_inverse(y)) == y,
{
    let (e, f) = (y.raised(), y.negated().raised());
    let z = f.negated().plus(F::unit());
    F::raised_plus(y, z.logged());
    // e (1 - f) + 1 = (-(e f) + e) + 1 = (-1 + e) + 1 = e
    F::times_distributes(e, f.negated(), F::unit());
    algebra::lemma_negated_times(e, f);
    algebra::lemma_raised_inverse(y);
    F::times_unit(e);
    let one = F::unit();
    F::plus_commutes(one.negated(), e);
    F::plus_associates(e, one.negated(), one);
    F::plus_commutes(one.negated(), one);
    F::plus_negated(one);
    F::plus_nil(e);
}

/// The biases of the decays, from the logarithms of their time steps.
fn start_biases<F: Scalar>(dt_log: &Vec<F>) -> (r: Vec<F>)
    ensures
        r@.len() == dt_log@.len(),
        forall|c: int|
            0 <= c < r@.len() ==> #[trigger] r@[c] == ramp_inverse(time_step(dt_log@[c])),
{
    let mut r: Vec<F> = Vec::new();
    for c in 0..dt_log.len()
        invariant
            r@.len() == c,
            forall|i: int| 0 <= i < c ==> #[trigger] r@[i] == ramp_inverse(time_step(dt_log@[i])),
    {
        let y = scalar::lift(dt_log[c].exp(), F::ratio(1, 10_000));
        r.push(y.add(y.neg().exp().neg().add(F::one()).ln()));
    }
    r
}

/// `n` times the same number.
fn same<F: Scalar>(x: F, n: usize) -> (r: Vec<F>)
    ensures
        r@.len() == n,
        forall|c: int| 0 <= c < n ==> #[trigger] r@[c] == x,
{
    let mut r: Vec<F> = Vec::new();
    for c in 0..n
        invariant
            r@.len() == c,
            forall|i: int| 0 <= i < c ==> #[trigger] r@[i] == x,
    {
        r.push(x);
    }
    r
}

impl<F: Scalar> GatedDeltaNet2<F> {
    /// Whether this is the layer that `new` makes of the draws.
    pub open spec fn made_of(self, c: Gdn2Config, x: Draws<F>) -> bool {
        &&& self.wf()
        &&& self.config == c
        &&& self.q_proj == (Linear { weight: x.q_proj, bias: None })
        &&& self.k_proj == (Linear { weight: x.k_proj, bias: None })
        &&& self.v_proj == (Linear { weight: x.v_proj, bias: None })
        &&& self.f_proj_0 == (Linear { weight: x.f_proj_0, bias: None })
        &&& self.f_proj_1 == (Linear { weight: x.f_proj_1, bias: None })
        &&& self.b_proj == (Linear { weight: x.b_proj, bias: None })
        &&& self.w_proj == (Linear { weight: x.w_proj, bias: None })
        &&& self.g_proj_0 == (Linear { weight: x.g_proj_0, bias: None })
        &&& self.g_proj_1.weight == x.g_proj_1
        &&& self.g_proj_1.bias is Some
        &&& forall|j: int|
            0 <= j < c.value_dim() ==> #[trigger] (self.g_proj_1.bias->0)@[j] == F::nil()
        &&& self.o_proj == (Linear { weight: x.o_proj, bias: None })
        &&& self.a_log == x.a_log
        &&& forall|i: int|
            0 <= i < c.key_dim() ==> #[trigger] self.dt_bias@[i] == ramp_inverse(
                time_step(x.dt_log@[i]),
            )
        &&& forall|j: int|
            0 <= j < c.v_head_dim() ==> #[trigger] self.o_norm_weight@[j] == F::unit()
        &&& self.q_conv_w == x.q_conv_w
        &&& self.k_conv_w == x.k_conv_w
        &&& self.v_conv_w == x.v_conv_w
        &&& self.decay_factors matches Some(f) ==> forall|h: int, i: int|
            0 <= h < c.num_heads && 0 <= i < c.head_dim ==> #[trigger] f.at(h, i) == F::fraction(
                2,
                1,
            )
    }

    /// A new layer. The biases of the output gate start at zero, the weights of the output
    /// normalization at one, and the factors of the decays, where there is a lower bound, at two.
    /// Fails where the configuration is invalid.
    pub fn new(cfg: &Gdn2Config, draws: Draws<F>) -> (r: Result<Self, ConfigError>)
        requires
            cfg.valid() ==> cfg.countable() && draws.shaped(*cfg),
            cfg.min_decay matches Some(m) ==> m.den > 0,
        ensures
            match r {
                Ok(layer) => cfg.valid() && layer.made_of(*cfg, draws),
                Err(e) => cfg.verdict() == Err::<(), ConfigError>(e),
            },
    {
        match cfg.validate() {
            Ok(_) => {},
            Err(e) => {
                return Err(e);
            },
        }
        let dims = cfg.dims();
        let dt_bias = start_biases(&draws.dt_log);
        let decay_factors = match cfg.min_decay {
            Some(_) => {
                let x = same(F::ratio(2, 1), dims.key_dim);
                let m = Matrix::from_vec(x, dims.heads, dims.head_dim);
                proof {
                    assert forall|h: int, i: int|
                        0 <= h < cfg.num_heads && 0 <= i < cfg.head_dim implies #[trigger] m.at(
                        h,
                        i,
                    ) == F::fraction(2, 1) by {
                        index::lemma_flat2_bound(
                            dims.heads as int,
                            dims.head_dim as int,
                            h,
                            i,
                        );
                    }
                }
                Some(m)
            },
            None => None,
        };
        Ok(
            GatedDeltaNet2 {
                q_proj: Linear { weight: draws.q_proj, bias: None },
                k_proj: Linear { weight: draws.k_proj, bias: None },
                v_proj: Linear { weight: draws.v_proj, bias: None },
                f_proj_0: Linear { weight: draws.f_proj_0, bias: None },
                f_proj_1: Linear { weight: draws.f_proj_1, bias: None },
                b_proj: Linear { weight: draws.b_proj, bias: None },
                w_proj: Linear { weight: draws.w_proj, bias: None },
                g_proj_0: Linear { weight: draws.g_proj_0, bias: None },
                g_proj_1: Linear {
                    weight: draws.g_proj_1,
                    bias: Some(same(F::zero(), dims.value_dim)),
                },
                a_log: draws.a_log,
                dt_bias,
                o_norm_weight: same(F::one(), dims.v_head_dim),
                o_proj: Linear { weight: draws.o_proj, bias: None },
                q_conv_w: draws.q_conv_w,
                k_conv_w: draws.k_conv_w,
                v_conv_w: draws.v_conv_w,
                config: *cfg,
                decay_factors,
            },
        )
    }
}

} // verus!
