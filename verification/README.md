# gdn2

Gated DeltaNet 2 in verified Rust: a recurrent token mixer of linear complexity, with erase gates
per key channel and write gates per value channel.

    S_t = (I - k_t (b_t * k_t)^T) diag(exp g_t) S_{t-1} + k_t (w_t * v_t)^T
    o_t = scale * q_t^T S_t

## Numbers

Every algorithm is generic in its numbers, the trait `scalar::Scalar`. The contract of an executable
function says which operations make up each element of its result, and in which order sums are taken,
so it holds of rounded numbers as well. What relates two algorithms is proved for exact numbers,
`scalar::ExactScalar`: a commutative ring with an exponential that turns sums into products. `Word`
(integers modulo 2^64) and `Dual` (numbers that carry a derivative) are exact.

## Modules

- `recurrence`, `streams`: what the mixer computes, token by token.
- `wy`, `grid`, `algebra`, `pairing`: what a chunk computes, and the sums behind it.
- `forward`, `autodiff`, `adjoint`, `scratch`: the chunked pass, and its gradient from what the pass
  left behind.
- `kernel`: the recurrence and its single step, the pass over chunks in two kernels, their adjoints,
  and the pass whose chunks are solved by substitution.
- `config`, `init`, `module`, `layer`, `training`: the layer around the mixer, and its configuration.
- `short_conv`, `l2norm`, `activation`, `linear`, `heads`, `rows`: the parts of the layer.
- `tensor`, `linalg`, `index`, `locality`: arrays, matrix operations and their addressing.

## Laws

- `equivalence`: a chunked pass gives the outputs and the state of the recurrence, for every chunk
  size, and can be split at any token; with falling decays no exponent is clamped.
- `gradient`, `kernel::fused_gradient`, `scratch`: the backward passes are the transposed derivatives
  of the recurrence.
- `probe`: gradients are unique, so the backward kernels return what the chunked backward pass
  returns.
- `causality`: outputs depend on no later token, and the gradients after the last weighed output are
  zero.
- `kernel::fused_chunk`: the two kernels launched in turn are the fused pass, and that is the
  recurrence and the chunked pass.
- `kernel::cubecl_chunk`: substitution solves what the inverse solves.
- `order`: gates and decays lie in their ranges, so the modes of the layer agree whatever the tokens;
  normalized rows are no longer than 1.
- `decoding`: a sequence handed over in parts, down to single tokens, gives what the whole gives; the
  modes of the layer agree.
- `recurrence`: with equal gates the mixer is the delta rule; with equal decays too, the gated delta
  rule.
- `short_conv`: the convolution continues from its cache.
- `init`: the first bias of the decay gives the drawn time step.

`app/` holds single-precision numbers, the layer on Burn's tensors, and the chunked pass as a node of its
automatic differentiation.
