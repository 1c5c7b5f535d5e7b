//! Training through one recorded operation: the forward pass by the kernels or in chunks, with what
//! its exact backward pass reads.

use vstd::prelude::*;

use crate::config::Gdn2Mode;
use crate::equivalence;
use crate::forward;
use crate::forward::ChunkWyScratch;
use crate::kernel::cubecl_forward;
use crate::kernel::cubecl_forward::chunk_wy_forward_cubecl;
use crate::kernel::fused_chunk;
use crate::kernel::fused_recurrent;
use crate::kernel::fused_recurrent::{fused_recurrent_forward, start_state};
use crate::layer;
use crate::module;
use crate::module::{GatedDeltaNet2, ProjectedInputs};
use crate::rows;
use crate::scalar::{ExactScalar, Scalar};
use crate::scratch;
use crate::scratch::chunk_wy_forward_autodiff;
use crate::short_conv;
use crate::tensor::{Tensor3, Tensor4};
use crate::wy::Pass;

verus! {

/// A training step after its forward pass.
pub struct TrainStep<'a, F> {
    /// The output of the layer, `[batch, tokens, hidden]`.
    pub output: Tensor3<F>,
    /// The inputs of the recorded operation.
    pub inputs: ProjectedInputs<'a, F>,
    /// The state before the first token.
    pub state: Tensor4<F>,
    /// The outputs of the recorded operation, `[batch, value heads, tokens, v]`.
    pub mixed: Tensor4<F>,
    /// The state after the last token.
    pub next: Tensor4<F>,
    /// What the backward pass of the operation reads.
    pub scratch: ChunkWyScratch<F>,
}

impl<'a, F: Scalar> TrainStep<'a, F> {
    /// The recorded operation.
    pub open spec fn pass(&self, g: GatedDeltaNet2<F>) -> Pass<'_, F> {
        forward::pass_of(
            &self.inputs.q,
            &self.inputs.k,
            &self.inputs.v,
            &self.inputs.g,
            &self.inputs.b,
            &self.inputs.w,
            self.state,
            g.factor(),
            g.config.chunk_size as int,
            None,
        )
    }

    /// Whether this is the training step of the layer `g` on the hidden states.
    pub open spec fn is_of(self, g: GatedDeltaNet2<F>, hidden: Tensor3<F>, kernels: bool) -> bool {
        &&& g.projects(hidden, None, self.inputs)
        &&& self.inputs.streams().carries(self.state)
        &&& fused_recurrent::starts(None, self.state)
        &&& scratch::training_outputs(
            self.pass(g),
            kernels,
            self.mixed,
            self.next,
            self.scratch,
        )
        &&& self.output.shaped(hidden.d0 as int, hidden.d1 as int, g.config.hidden_size as int)
        &&& forall|a: int, t: int|
            0 <= a < hidden.d0 && 0 <= t < hidden.d1 ==> #[trigger] self.output.row(a, t)
                == rows::image(
                g.o_proj,
                g.gathered(
                    short_conv::tokens_of(hidden, a),
                    |h: int| self.mixed.row(a, h, t),
                    t,
                ),
            )
    }
}

impl<F: Scalar> GatedDeltaNet2<F> {
    /// Training through the recorded operation. `kernels` says whether the fused kernels are
    /// available.
    pub fn forward_train_fused(&self, hidden_states: &Tensor3<F>, kernels: bool) -> (r: TrainStep<
        '_,
        F,
    >)
        requires
            self.wf(),
            hidden_states.shaped(
                hidden_states.d0 as int,
                hidden_states.d1 as int,
                self.config.hidden_size as int,
            ),
            hidden_states.d1 >= 1,
            module::roomy(self.config, hidden_states.d0 as int, hidden_states.d1 as int),
            self.mode_room(Gdn2Mode::Chunk, hidden_states.d0 as int, hidden_states.d1 as int),
            kernels ==> fused_chunk::buffer_room(
                hidden_states.d0 * self.config.v_heads(),
                hidden_states.d1 as int,
                self.config.chunk_size as int,
                self.config.head_dim as int,
                self.config.v_head_dim(),
            ),
        ensures
            r.is_of(*self, *hidden_states, kernels),
    {
        let dims = self.config.dims();
        let (p, _conv) = self.project(hidden_states, None);
        let state = start_state(
            None,
            hidden_states.d0,
            dims.v_heads,
            dims.head_dim,
            dims.v_head_dim,
        );
        let scale = F::one().div(F::ratio(self.config.head_dim as u64, 1).sqrt());
        let (mixed, next, scratch) = chunk_wy_forward_autodiff(
            &p.q,
            &p.k,
            &p.v,
            &p.g,
            &p.b,
            &p.w,
            &state,
            scale,
            self.config.chunk_size,
            kernels,
        );
        let output = self.finish(&p, &mixed, Ghost(*hidden_states), Ghost(None));
        TrainStep { output, inputs: p, state, mixed, next, scratch }
    }
}

/// A pass over the whole sequence, with the inputs of its recurrence.
pub struct ScanStep<'a, F> {
    /// The output of the layer, `[batch, tokens, hidden]`.
    pub output: Tensor3<F>,
    pub inputs: ProjectedInputs<'a, F>,
    /// The state before the first token.
    pub state: Tensor4<F>,
    /// What the recurrence gives, `[batch, value heads, tokens, v]`.
    pub mixed: Tensor4<F>,
    /// The state after the last token.
    pub next: Tensor4<F>,
}

impl<'a, F: Scalar> ScanStep<'a, F> {
    /// The pass over the chunks.
    pub open spec fn pass(&self, g: GatedDeltaNet2<F>) -> Pass<'_, F> {
        forward::pass_of(
            &self.inputs.q,
            &self.inputs.k,
            &self.inputs.v,
            &self.inputs.g,
            &self.inputs.b,
            &self.inputs.w,
            self.state,
            g.factor(),
            g.config.chunk_size as int,
            None,
        )
    }

    /// Whether this is the pass of the layer `g` whose chunks are solved by substitution.
    pub open spec fn is_of(self, g: GatedDeltaNet2<F>, hidden: Tensor3<F>) -> bool {
        &&& g.projects(hidden, None, self.inputs)
        &&& self.inputs.streams().carries(self.state)
        &&& fused_recurrent::starts(None, self.state)
        &&& if in_chunks(g, hidden.d1 as int) {
            cubecl_forward::substituted_outputs(self.pass(g), self.mixed, self.next)
        } else {
            fused_recurrent::recurrence_of(
                self.inputs.streams(),
                g.factor(),
                self.state,
                self.mixed,
                self.next,
            )
        }
        &&& self.output.shaped(hidden.d0 as int, hidden.d1 as int, g.config.hidden_size as int)
        &&& forall|a: int, t: int|
            0 <= a < hidden.d0 && 0 <= t < hidden.d1 ==> #[trigger] self.output.row(a, t)
                == rows::image(
                g.o_proj,
                g.gathered(
                    short_conv::tokens_of(hidden, a),
                    |h: int| self.mixed.row(a, h, t),
                    t,
                ),
            )
    }
}

/// Whether `forward_train_cubecl` runs in chunks: in that mode, and where there is a whole chunk.
pub open spec fn in_chunks<F: Scalar>(g: GatedDeltaNet2<F>, tokens: int) -> bool {
    g.config.mode == Gdn2Mode::Chunk && tokens >= g.config.chunk_size
}

impl<F: Scalar> GatedDeltaNet2<F> {
    /// Training with the solves of the chunks by substitution. Sequences shorter than a chunk are
    /// run token by token.
    pub fn forward_train_cubecl(&self, hidden_states: &Tensor3<F>) -> (r: ScanStep<'_, F>)
        requires
            self.wf(),
            hidden_states.shaped(
                hidden_states.d0 as int,
                hidden_states.d1 as int,
                self.config.hidden_size as int,
            ),
            hidden_states.d1 >= 1,
            module::roomy(self.config, hidden_states.d0 as int, hidden_states.d1 as int),
            self.mode_room(self.config.mode, hidden_states.d0 as int, hidden_states.d1 as int),
        ensures
            r.is_of(*self, *hidden_states),
    {
        let dims = self.config.dims();
        let (p, _conv) = self.project(hidden_states, None);
        let state = start_state(
            None,
            hidden_states.d0,
            dims.v_heads,
            dims.head_dim,
            dims.v_head_dim,
        );
        let scale = F::one().div(F::ratio(self.config.head_dim as u64, 1).sqrt());
        let chunks = match self.config.mode {
            Gdn2Mode::Chunk => hidden_states.d1 >= self.config.chunk_size,
            Gdn2Mode::FusedRecurrent => false,
        };
        let (mixed, next) = if chunks {
            chunk_wy_forward_cubecl(
                &p.q,
                &p.k,
                &p.v,
                &p.g,
                &p.b,
                &p.w,
                &state,
                scale,
                self.config.chunk_size,
            )
        } else {
            fused_recurrent_forward(&p.q, &p.k, &p.v, &p.g, &p.b, &p.w, &state, scale)
        };
        let output = self.finish(&p, &mixed, Ghost(*hidden_states), Ghost(None));
        ScanStep { output, inputs: p, state, mixed, next }
    }
}

impl<F: ExactScalar> GatedDeltaNet2<F> {
    /// In exact arithmetic training through the recorded operation gives the outputs of the
    /// recurrence, by the kernels as well as in chunks.
    pub proof fn fused_training_agrees(self, r: TrainStep<F>, hidden: Tensor3<F>, kernels: bool)
        requires
            self.wf(),
            r.is_of(self, hidden, kernels),
            !scratch::by_kernels(r.inputs.streams(), self.config.chunk_size as int, kernels)
                ==> forall|a: int, h: int|
                0 <= a < hidden.d0 && 0 <= h < self.config.v_heads() ==> (#[trigger] r.pass(
                    self,
                ).head(a, h)).tiles_decay(),
        ensures
            forall|a: int, t: int|
                0 <= a < hidden.d0 && 0 <= t < hidden.d1 ==> #[trigger] r.output.row(a, t)
                    == self.answer(
                    Gdn2Mode::FusedRecurrent,
                    short_conv::tokens_of(hidden, a),
                    module::past_at(None, a),
                    layer::starts_at(None, a),
                    hidden.d1 as int,
                    t,
                ),
    {
        let w = r.pass(self);
        if scratch::by_kernels(w.x, w.size, kernels) {
            fused_chunk::fused_pass_is_recurrence(
                w.x,
                w.scale,
                w.state,
                w.size,
                r.mixed,
                r.next,
            );
        } else {
            equivalence::chunked_pass_is_recurrence(w, r.mixed, r.next);
        }
        self.lemma_recurrent_scan(hidden, None, None, r.inputs, r.state, r.mixed, r.next);
        self.lemma_answers(
            Gdn2Mode::FusedRecurrent,
            hidden,
            None,
            None,
            r.mixed,
            r.next,
            r.output,
        );
    }

    /// In exact arithmetic the pass with the solves by substitution gives the outputs of the
    /// recurrence.
    pub proof fn substituted_training_agrees(self, r: ScanStep<F>, hidden: Tensor3<F>)
        requires
            self.wf(),
            r.is_of(self, hidden),
            in_chunks(self, hidden.d1 as int) ==> forall|a: int, h: int|
                0 <= a < hidden.d0 && 0 <= h < self.config.v_heads() ==> (#[trigger] r.pass(
                    self,
                ).head(a, h)).tiles_decay(),
        ensures
            forall|a: int, t: int|
                0 <= a < hidden.d0 && 0 <= t < hidden.d1 ==> #[trigger] r.output.row(a, t)
                    == self.answer(
                    Gdn2Mode::FusedRecurrent,
                    short_conv::tokens_of(hidden, a),
                    module::past_at(None, a),
                    layer::starts_at(None, a),
                    hidden.d1 as int,
                    t,
                ),
    {
        if in_chunks(self, hidden.d1 as int) {
            cubecl_forward::substituted_pass_is_recurrence(r.pass(self), r.mixed, r.next);
        }
        self.lemma_recurrent_scan(hidden, None, None, r.inputs, r.state, r.mixed, r.next);
        self.lemma_answers(
            Gdn2Mode::FusedRecurrent,
            hidden,
            None,
            None,
            r.mixed,
            r.next,
            r.output,
        );
    }
}

} // verus!
