//! Gated DeltaNet 2: a recurrent token mixer of linear complexity, with channel-wise erase and
//! write gates.
//!
//! The layer mixes the tokens of a sequence through a matrix state per head,
//!
//! `S_t = (I - k_t (b_t * k_t)^T) diag(a_t) S_{t-1} + k_t (w_t * v_t)^T`, `o_t = q_t^T S_t`,
//!
//! token by token ([`kernel::fused_recurrent`]), in chunks by matrix products ([`forward`]), or by
//! two kernels over blocks ([`kernel::fused_chunk`]). [`recurrence`] says what all of them mean.
//!
//! The numbers are a parameter, [`scalar::Scalar`]. Contracts are stated operation by operation, so
//! they hold of rounded numbers. What relates one algorithm to another, such as the chunked form to
//! the recurrence ([`equivalence`]) or the backward pass to the derivative ([`gradient`]), is proved
//! for exact numbers, [`scalar::ExactScalar`].
//!
//! What each part of the layer is for is said in [`elements`], [`wiring`], [`memory`] and [`rules`];
//! that the chunked form stays in the range of rounded numbers, in [`stability`].

pub mod activation;
pub mod adjoint;
pub mod algebra;
pub mod autodiff;
pub mod causality;
pub mod config;
pub mod decoding;
pub mod dual;
pub mod elements;
pub mod equivalence;
pub mod forward;
pub mod gradient;
pub mod grid;
pub mod heads;
pub mod index;
pub mod init;
pub mod kernel;
pub mod l2norm;
pub mod layer;
pub mod linalg;
pub mod linear;
pub mod locality;
pub mod memory;
pub mod module;
pub mod order;
pub mod pairing;
pub mod probe;
pub mod recurrence;
pub mod rows;
pub mod rules;
pub mod scalar;
pub mod scratch;
pub mod short_conv;
pub mod stability;
pub mod streams;
pub mod tensor;
pub mod training;
pub mod wiring;
pub mod word;
pub mod wy;

pub use config::{ConfigError, Gdn2Config, Gdn2Mode, Ratio};
pub use forward::chunk_wy_forward;
pub use init::Draws;
pub use kernel::fused_recurrent::fused_recurrent_forward;
pub use l2norm::{l2_normalize, l2_normalize_4d};
pub use layer::rms_norm_gate_per_head;
pub use module::{GatedDeltaNet2, Gdn2State, ProjectedInputs};
pub use scratch::{chunk_autodiff_or_plain, chunk_wy_forward_autodiff};
pub use short_conv::{short_conv_1d, SHORT_CONV_CACHE, SHORT_CONV_KERNEL};
