//! The computations behind the layer.

pub mod chunk_adjoint_cube;
pub mod chunk_cube;
pub mod cubecl_chunk;
pub mod cubecl_forward;
pub mod cubecl_fused;
pub mod fused_chunk;
pub mod fused_gradient;
pub mod fused_recurrent;
pub mod fused_recurrent_cube;
