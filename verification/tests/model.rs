//! The layer: decoding, training, and the configurations that are rejected.

use gdn2::autodiff::ChunkWy;
use gdn2::dual::Dual;
use gdn2::kernel::fused_recurrent::fused_recurrent_gdn2;
use gdn2::kernel::fused_recurrent_cube::fused_step;
use gdn2::linear::Linear;
use gdn2::scalar::Scalar;
use gdn2::tensor::{Matrix, Tensor3, Tensor4};
use gdn2::{
    chunk_wy_forward, fused_recurrent_forward, ConfigError, Draws, GatedDeltaNet2, Gdn2Config,
    Gdn2Mode, Gdn2State, Ratio,
};

#[derive(Clone, Copy, Debug, PartialEq)]
struct F32(f32);

impl Scalar for F32 {
    fn zero() -> Self {
        F32(0.0)
    }

    fn one() -> Self {
        F32(1.0)
    }

    fn ratio(num: u64, den: u64) -> Self {
        F32((num as f64 / den as f64) as f32)
    }

    fn add(self, other: Self) -> Self {
        F32(self.0 + other.0)
    }

    fn sub(self, other: Self) -> Self {
        F32(self.0 - other.0)
    }

    fn mul(self, other: Self) -> Self {
        F32(self.0 * other.0)
    }

    fn div(self, other: Self) -> Self {
        F32(self.0 / other.0)
    }

    fn neg(self) -> Self {
        F32(-self.0)
    }

    fn exp(self) -> Self {
        F32(self.0.exp())
    }

    fn ln(self) -> Self {
        F32(self.0.ln())
    }

    fn sqrt(self) -> Self {
        F32(self.0.sqrt())
    }

    fn le(self, other: Self) -> bool {
        self.0 <= other.0
    }
}

/// A source of numbers that look random.
struct Source(u64);

impl Source {
    fn uniform(&mut self, lo: f32, hi: f32) -> f32 {
        self.0 = self.0.wrapping_mul(6364136223846793005).wrapping_add(1442695040888963407);
        let unit = (self.0 >> 40) as f32 / (1u64 << 24) as f32;
        lo + (hi - lo) * unit
    }

    fn normal(&mut self, mean: f32, dev: f32) -> f32 {
        let u = self.uniform(1e-7, 1.0);
        let v = self.uniform(0.0, 1.0);
        mean + dev * (-2.0 * u.ln()).sqrt() * (2.0 * std::f32::consts::PI * v).cos()
    }
}

fn cfg(hidden: usize, heads: usize, head_dim: usize, mode: Gdn2Mode) -> Gdn2Config {
    Gdn2Config {
        hidden_size: hidden,
        num_heads: heads,
        head_dim,
        use_short_conv: true,
        mode,
        ..Default::default()
    }
}

fn matrix(rows: usize, cols: usize, mut next: impl FnMut() -> f32) -> Matrix<F32> {
    let data = (0..rows * cols).map(|_| F32(next())).collect();
    Matrix::from_vec(data, rows, cols)
}

/// Draws for a configuration, which may be invalid.
fn draws(c: &Gdn2Config, src: &mut Source) -> Draws<F32> {
    let d = c.hidden_size;
    let hv = c.num_v_heads.unwrap_or(c.num_heads);
    let v = (c.head_dim as u64 * c.expand_v.num / c.expand_v.den) as usize;
    let (kd, vd) = (c.num_heads * c.head_dim, hv * v);
    let mut lin = |i: usize, o: usize| {
        let a = 2f32.powf(-2.5) * (6.0 / (i + o) as f32).sqrt();
        matrix(i, o, || src.uniform(-a, a))
    };
    let (q_proj, k_proj, v_proj) = (lin(d, kd), lin(d, kd), lin(d, vd));
    let (f_proj_0, f_proj_1) = (lin(d, v), lin(v, kd));
    let (b_proj, w_proj) = (lin(d, kd), lin(d, vd));
    let (g_proj_0, g_proj_1, o_proj) = (lin(d, v), lin(v, vd), lin(vd, d));
    let a_log = (0..c.num_heads).map(|_| F32(src.uniform(0.0, 16f32.ln()))).collect();
    let dt_log = (0..kd).map(|_| F32(src.uniform(0.001f32.ln(), 0.1f32.ln()))).collect();
    Draws {
        q_proj,
        k_proj,
        v_proj,
        f_proj_0,
        f_proj_1,
        b_proj,
        w_proj,
        g_proj_0,
        g_proj_1,
        o_proj,
        a_log,
        dt_log,
        q_conv_w: matrix(kd, 4, || src.uniform(-0.5, 0.5)),
        k_conv_w: matrix(kd, 4, || src.uniform(-0.5, 0.5)),
        v_conv_w: matrix(vd, 4, || src.uniform(-0.5, 0.5)),
    }
}

/// A new layer. Panics if the configuration is invalid.
fn layer(c: &Gdn2Config, src: &mut Source) -> GatedDeltaNet2<F32> {
    match GatedDeltaNet2::new(c, draws(c, src)) {
        Ok(m) => m,
        Err(e) => panic!("{}", e.message()),
    }
}

fn hidden(batch: usize, tokens: usize, d: usize, dev: f32, src: &mut Source) -> Tensor3<F32> {
    let data = (0..batch * tokens * d).map(|_| F32(src.normal(0.0, dev))).collect();
    Tensor3::from_vec(data, batch, tokens, d)
}

/// Tokens `from .. to`.
fn slice(x: &Tensor3<F32>, from: usize, to: usize) -> Tensor3<F32> {
    let mut data = Vec::new();
    for a in 0..x.d0 {
        for t in from..to {
            data.extend(x.get_row(a, t));
        }
    }
    Tensor3::from_vec(data, x.d0, to - from, x.d2)
}

fn max_diff(a: &[F32], b: &[F32]) -> f32 {
    assert_eq!(a.len(), b.len());
    a.iter().zip(b.iter()).map(|(x, y)| (x.0 - y.0).abs()).fold(0.0, f32::max)
}

fn zeros(shape: [usize; 4]) -> Tensor4<F32> {
    Tensor4::zeros(shape[0], shape[1], shape[2], shape[3])
}

#[test]
fn decode_equals_full_forward() {
    let (d, heads, hk, batch, tokens) = (32usize, 2usize, 16usize, 2usize, 12usize);
    for use_sc in [true, false] {
        let mut src = Source(21);
        let mut c = cfg(d, heads, hk, Gdn2Mode::FusedRecurrent);
        c.use_short_conv = use_sc;
        let m = layer(&c, &mut src);
        let x = hidden(batch, tokens, d, 1.0, &mut src);

        let mut ref_state: Option<Gdn2State<F32>> = None;
        let full = m.forward(&x, &mut ref_state, true);

        let mut state: Option<Gdn2State<F32>> = None;
        let mut diff = 0.0f32;
        for t in 0..tokens {
            let out = m.forward(&slice(&x, t, t + 1), &mut state, true);
            diff = diff.max(max_diff(&out.data, &slice(&full, t, t + 1).data));
        }
        assert!(
            diff < 1e-6,
            "decode != full forward (use_short_conv={use_sc}): max_diff={diff:.2e}",
        );
        // The arithmetic is the same, operation by operation.
        assert_eq!(diff, 0.0);
        let (a, b) = (ref_state.unwrap(), state.unwrap());
        assert_eq!(a.recurrent.data, b.recurrent.data);
        assert_eq!(a.conv_q.data, b.conv_q.data);
        assert_eq!(a.conv_k.data, b.conv_k.data);
        assert_eq!(a.conv_v.data, b.conv_v.data);
    }
}

#[test]
fn prefill_then_decode_matches_extended_forward() {
    let (d, heads, hk, batch, tokens) = (32usize, 2usize, 16usize, 1usize, 8usize);
    let mut src = Source(22);
    let c = cfg(d, heads, hk, Gdn2Mode::FusedRecurrent);
    let m = layer(&c, &mut src);
    let x = hidden(batch, tokens + 1, d, 1.0, &mut src);
    let full = m.forward(&x, &mut None, true);
    let mut state: Option<Gdn2State<F32>> = None;
    let _ = m.forward(&slice(&x, 0, tokens), &mut state, true);
    let next = m.forward(&slice(&x, tokens, tokens + 1), &mut state, true);
    let diff = max_diff(&next.data, &slice(&full, tokens, tokens + 1).data);
    assert!(
        diff < 1e-6,
        "prefill->decode handoff mismatch: max_diff={diff:.2e}"
    );
}

#[test]
fn chunk_and_fused_agree() {
    let (d, heads, hk, batch, tokens) = (32usize, 2usize, 16usize, 1usize, 80usize);
    let mut src = Source(23);
    let c = cfg(d, heads, hk, Gdn2Mode::Chunk);
    let m = layer(&c, &mut src);
    let x = hidden(batch, tokens, d, 1.0, &mut src);
    let (p, _) = m.project(&x, None);
    let scale = F32(16.0f32.powf(-0.5));
    let s = zeros([batch, heads, hk, hk]);
    let (c_out, _) = chunk_wy_forward(&p.q, &p.k, &p.v, &p.g, &p.b, &p.w, &s, scale, 16);
    let (f_out, _) = fused_recurrent_forward(&p.q, &p.k, &p.v, &p.g, &p.b, &p.w, &s, scale);
    let diff = max_diff(&c_out.data, &f_out.data);
    assert!(diff < 1e-4, "chunk vs fused mismatch: max_diff={diff:.2e}");
}

/// Weights with element `at` moving.
fn moving(x: &[F32], at: Option<usize>) -> Vec<Dual<F32>> {
    x.iter()
        .enumerate()
        .map(|(i, y)| Dual { re: *y, eps: F32(if Some(i) == at { 1.0 } else { 0.0 }) })
        .collect()
}

fn moving_matrix(x: &Matrix<F32>, at: Option<usize>) -> Matrix<Dual<F32>> {
    Matrix::from_vec(moving(&x.data, at), x.rows, x.cols)
}

fn moving_linear(x: &Linear<F32>, at: Option<usize>) -> Linear<Dual<F32>> {
    Linear { weight: moving_matrix(&x.weight, at), bias: x.bias.as_ref().map(|b| moving(b, None)) }
}

/// The layer with one element of one of its parameters moving.
fn moving_layer(m: &GatedDeltaNet2<F32>, name: &str, at: usize) -> GatedDeltaNet2<Dual<F32>> {
    let on = |n: &str| if n == name { Some(at) } else { None };
    GatedDeltaNet2 {
        q_proj: moving_linear(&m.q_proj, on("q_proj")),
        k_proj: moving_linear(&m.k_proj, on("k_proj")),
        v_proj: moving_linear(&m.v_proj, on("v_proj")),
        f_proj_0: moving_linear(&m.f_proj_0, on("f_proj_0")),
        f_proj_1: moving_linear(&m.f_proj_1, on("f_proj_1")),
        b_proj: moving_linear(&m.b_proj, on("b_proj")),
        w_proj: moving_linear(&m.w_proj, on("w_proj")),
        g_proj_0: moving_linear(&m.g_proj_0, on("g_proj_0")),
        g_proj_1: moving_linear(&m.g_proj_1, on("g_proj_1")),
        a_log: moving(&m.a_log, on("a_log")),
        dt_bias: moving(&m.dt_bias, on("dt_bias")),
        o_norm_weight: moving(&m.o_norm_weight, on("o_norm")),
        o_proj: moving_linear(&m.o_proj, on("o_proj")),
        q_conv_w: moving_matrix(&m.q_conv_w, on("q_conv_w")),
        k_conv_w: moving_matrix(&m.k_conv_w, on("k_conv_w")),
        v_conv_w: moving_matrix(&m.v_conv_w, on("v_conv_w")),
        config: m.config,
        decay_factors: m.decay_factors.as_ref().map(|f| moving_matrix(f, None)),
    }
}

fn still(x: &Tensor3<F32>) -> Tensor3<Dual<F32>> {
    Tensor3::from_vec(moving(&x.data, None), x.d0, x.d1, x.d2)
}

/// The derivative of `mean(out^2)`.
fn loss_slope(out: &Tensor3<Dual<F32>>) -> f32 {
    let n = out.data.len() as f32;
    out.data.iter().map(|o| 2.0 * o.re.0 * o.eps.0).sum::<f32>() / n
}

#[test]
fn gradients_flow_both_modes() {
    let (d, heads, hk) = (32usize, 2usize, 16usize);
    for mode in [Gdn2Mode::FusedRecurrent, Gdn2Mode::Chunk] {
        let mut src = Source(24);
        let c = cfg(d, heads, hk, mode);
        let m = layer(&c, &mut src);
        let x = still(&hidden(2, 24, d, 1.0, &mut src));
        let slope = |name: &str, at: usize| {
            loss_slope(&moving_layer(&m, name, at).forward_train(&x)).abs()
        };
        let qg_abs = [0usize, 500, 1023].iter().map(|at| slope("q_proj", *at)).fold(0.0, f32::max);
        let ag_abs = slope("a_log", 0).max(slope("a_log", 1));
        assert!(
            qg_abs > 0.0 && ag_abs > 0.0,
            "mode={mode:?}: no gradient (q={qg_abs}, a_log={ag_abs})",
        );
    }
}

#[test]
fn gradients_flow_decode_path() {
    let (d, heads, hk, tokens) = (32usize, 2usize, 16usize, 6usize);
    let mut src = Source(25);
    let c = cfg(d, heads, hk, Gdn2Mode::FusedRecurrent);
    let m = moving_layer(&layer(&c, &mut src), "q_proj", 500);
    let x = hidden(1, tokens, d, 1.0, &mut src);
    let mut state: Option<Gdn2State<Dual<F32>>> = None;
    let mut qg = 0.0f32;
    for t in 0..tokens {
        let out = m.forward(&still(&slice(&x, t, t + 1)), &mut state, true);
        qg += loss_slope(&out);
    }
    assert!(qg.abs() > 0.0, "no gradient through decode path: q={qg}");
}

#[test]
#[should_panic(expected = "num_v_heads")]
fn rejects_num_v_heads_below_num_heads() {
    let c = Gdn2Config {
        hidden_size: 32,
        num_heads: 4,
        head_dim: 16,
        num_v_heads: Some(2),
        ..Default::default()
    };
    let _ = layer(&c, &mut Source(1));
}

#[test]
#[should_panic(expected = "divisible")]
fn rejects_non_divisible_num_v_heads() {
    let c = Gdn2Config {
        hidden_size: 32,
        num_heads: 4,
        head_dim: 16,
        num_v_heads: Some(6),
        ..Default::default()
    };
    let _ = layer(&c, &mut Source(1));
}

#[test]
#[should_panic(expected = "integer")]
fn rejects_fractional_expand_v() {
    let c = Gdn2Config {
        hidden_size: 32,
        num_heads: 4,
        head_dim: 16,
        expand_v: Ratio { num: 13, den: 10 },
        ..Default::default()
    };
    let _ = layer(&c, &mut Source(1));
}

#[test]
#[should_panic(expected = "chunk_size")]
fn rejects_zero_chunk_size() {
    let c = Gdn2Config {
        hidden_size: 32,
        num_heads: 4,
        head_dim: 16,
        chunk_size: 0,
        ..Default::default()
    };
    let _ = layer(&c, &mut Source(1));
}

#[test]
fn gva_configuration_runs() {
    let (d, heads, hk) = (64usize, 2usize, 16usize);
    let mut src = Source(26);
    let c = Gdn2Config {
        hidden_size: d,
        num_heads: heads,
        head_dim: hk,
        num_v_heads: Some(4),
        ..Default::default()
    };
    let m = layer(&c, &mut src);
    let x = hidden(2, 16, d, 1.0, &mut src);
    let out = m.forward_train(&x);
    assert_eq!([out.d0, out.d1, out.d2], [2, 16, d]);
    // Each key head serves two value heads in a row.
    let (p, _) = m.project(&x, None);
    assert_eq!([p.q.d0, p.q.d1, p.q.d2, p.q.d3], [2, 4, 16, hk]);
    for t in 0..16 {
        assert_eq!(p.q.get_row(1, 0, t), p.q.get_row(1, 1, t));
        assert_eq!(p.g.get_row(1, 2, t), p.g.get_row(1, 3, t));
        assert_ne!(p.q.get_row(1, 1, t), p.q.get_row(1, 2, t));
    }
    // Decoding goes with the full pass here too.
    let full = m.forward(&x, &mut None, true);
    let mut state = None;
    for t in 0..16 {
        let out = m.forward(&slice(&x, t, t + 1), &mut state, true);
        assert_eq!(out.data, slice(&full, t, t + 1).data);
    }
}

#[test]
fn model_fused_train_grads_match_plain() {
    let c = Gdn2Config {
        hidden_size: 16,
        num_heads: 1,
        head_dim: 4,
        mode: Gdn2Mode::Chunk,
        chunk_size: 5,
        ..Default::default()
    };
    let mut src = Source(27);
    let m = layer(&c, &mut src);
    let x = hidden(1, 10, 16, 0.1, &mut src);
    for name in [
        "q_proj", "v_proj", "b_proj", "w_proj", "f_proj_1", "g_proj_1", "o_proj", "a_log",
        "dt_bias", "o_norm",
    ] {
        let n = match name {
            "a_log" => 1,
            "dt_bias" | "o_norm" => 4,
            "f_proj_1" | "g_proj_1" => 16,
            _ => 64,
        };
        let mut max_abs = 0.0f32;
        let mut scale = 0.0f32;
        for at in 0..n {
            let moved = moving_layer(&m, name, at);
            let y = still(&x);
            let plain = loss_slope(&moved.forward_train(&y));
            // The operation passes the gradient of its outputs back to its inputs.
            let step = moved.forward_train_fused(&y, false);
            let fused = loss_slope(&step.output);
            let op = ChunkWy {
                k: &step.inputs.k,
                v: &step.inputs.v,
                b: &step.inputs.b,
                w: &step.inputs.w,
                s_in: &step.state,
                scratch: &step.scratch,
                scale: Dual { re: F32(0.5), eps: F32(0.0) },
                chunk_size: 5,
            };
            let d_out = step.mixed.copy();
            let r = op.backward(&d_out);
            let passed = |d: &Tensor4<Dual<F32>>, i: &Tensor4<Dual<F32>>| -> f32 {
                d.data.iter().zip(i.data.iter()).map(|(g, z)| g.re.0 * z.eps.0).sum()
            };
            let p = &step.inputs;
            let by_inputs = passed(&r.d_q, &p.q)
                + passed(&r.d_k, &p.k)
                + passed(&r.d_v, &p.v)
                + passed(&r.d_g, &p.g)
                + passed(&r.d_b, &p.b)
                + passed(&r.d_w, &p.w);
            let by_output: f32 = d_out.data.iter().map(|o| o.re.0 * o.eps.0).sum();
            assert!(
                (by_inputs - by_output).abs() <= 1e-3 * by_output.abs().max(1e-6),
                "{name}[{at}]: {by_inputs:.4e} {by_output:.4e}"
            );
            max_abs = max_abs.max((plain - fused).abs());
            scale = scale.max(plain.abs()).max(fused.abs());
        }
        let d = max_abs / scale.max(1e-30);
        assert!(d < 1e-3, "{name}: rel_diff={d:.2e}");
    }
}

#[test]
fn fused_kernel_matches_tensor_path() {
    let mut src = Source(28);
    let c = Gdn2Config {
        hidden_size: 256,
        num_heads: 4,
        head_dim: 32,
        chunk_size: 64,
        ..Default::default()
    };
    let m = layer(&c, &mut src);
    let seq = 16;
    let x = hidden(1, seq, 256, 1.0, &mut src);
    let (p, _) = m.project(&x, None);
    let (hv, hk, v_head) = (p.hv, 32, 32);
    let scale = F32((hk as f32).powf(-0.5));
    let zero = zeros([1, hv, hk, v_head]);
    let (ref_outs, ref_state) =
        fused_recurrent_forward(&p.q, &p.k, &p.v, &p.g, &p.b, &p.w, &zero, scale);
    let mut state = zero;
    for t in 0..seq {
        let sl = |y: &Tensor4<F32>| {
            let mut data = Vec::new();
            for h in 0..y.d1 {
                data.extend(y.get_row(0, h, t));
            }
            Tensor4::from_vec(data, 1, y.d1, 1, y.d3)
        };
        let (o, ns) = fused_step(
            &sl(&p.q),
            &sl(&p.k),
            &sl(&p.v),
            &sl(&p.g),
            &sl(&p.b),
            &sl(&p.w),
            &state,
            scale,
        )
        .expect("kernel should run");
        state = ns;
        let max_err = max_diff(&o.data, &sl(&ref_outs).data);
        assert!(
            max_err < 1e-3,
            "kernel output diverges from tensor path at token {t}: {max_err}",
        );
    }
    let state_err = max_diff(&state.data, &ref_state.data);
    assert!(
        state_err < 1e-3,
        "kernel state diverges from tensor path: {state_err}",
    );
}

#[test]
fn reading_leaves_the_state() {
    let mut src = Source(29);
    let c = cfg(8, 1, 4, Gdn2Mode::FusedRecurrent);
    let m = layer(&c, &mut src);
    let x = hidden(1, 3, 8, 1.0, &mut src);
    let mut state = None;
    let _ = m.forward(&x, &mut state, true);
    let before = state.as_ref().map(|s: &Gdn2State<F32>| s.recurrent.copy()).unwrap();
    let y = hidden(1, 2, 8, 1.0, &mut src);
    let out = m.forward(&y, &mut state, false);
    assert_eq!([out.d0, out.d1, out.d2], [1, 2, 8]);
    let after = state.unwrap();
    assert_eq!(before.data, after.recurrent.data);
    // What is read is `q^T S` of the state as it is.
    let (p, _) = m.project(&y, Some((&after.conv_q, &after.conv_k, &after.conv_v)));
    let scale = F32(0.5);
    let (read, same) = fused_recurrent_gdn2(
        &p.q, &p.k, &p.v, &p.g, &p.b, &p.w, Some(&after.recurrent), scale, false,
    );
    assert_eq!([read.d0, read.d1, read.d2, read.d3], [1, 2, 1, 4]);
    assert_eq!(same.unwrap().data, after.recurrent.data);
    let mut expected = 0.0f32;
    for i in 0..4 {
        expected += p.q.get(0, 0, 1, i).0 * after.recurrent.get(0, 0, i, 2).0;
    }
    assert!((read.get(0, 1, 0, 2).0 - expected * 0.5).abs() < 1e-6);
    // A fresh state is empty: nothing is found in it.
    let none = m.forward(&y, &mut None, false);
    assert!(none.data.iter().all(|o| o.0 == 0.0));
}

#[test]
fn long_sequences_use_the_configured_mode() {
    let mut src = Source(30);
    let mut c = cfg(8, 1, 4, Gdn2Mode::Chunk);
    c.chunk_size = 7;
    let m = layer(&c, &mut src);
    let x = hidden(1, 65, 8, 1.0, &mut src);
    // Up to 64 tokens the scan is token by token, whatever the mode.
    let short = slice(&x, 0, 64);
    let mut by_token = layer(&c, &mut Source(30));
    by_token.config.mode = Gdn2Mode::FusedRecurrent;
    assert_eq!(
        m.forward(&short, &mut None, true).data,
        by_token.forward(&short, &mut None, true).data
    );
    let (a, b) = (m.forward(&x, &mut None, true), by_token.forward(&x, &mut None, true));
    assert_ne!(a.data, b.data);
    assert!(max_diff(&a.data, &b.data) < 1e-5);
    assert_eq!(a.data, m.forward_train(&x).data);
    assert!(m.validate(&x, &None));
    assert!(!m.validate(&hidden(1, 1, 9, 1.0, &mut src), &None));
}

#[test]
fn states_of_other_extents_are_refused() {
    let mut src = Source(31);
    let mut c = cfg(8, 2, 4, Gdn2Mode::FusedRecurrent);
    c.num_v_heads = Some(4);
    let m = layer(&c, &mut src);
    let x = hidden(3, 2, 8, 1.0, &mut src);
    let zeros = |b: usize, hv: usize, hk: usize, v: usize, kd: usize, vd: usize| {
        Some(Gdn2State::<F32>::zeros(b, hv, hk, v, kd, vd))
    };
    assert!(m.validate(&x, &zeros(3, 4, 4, 4, 8, 16)));
    assert!(!m.validate(&hidden(3, 2, 7, 1.0, &mut src), &zeros(3, 4, 4, 4, 8, 16)));
    for bad in [
        zeros(2, 4, 4, 4, 8, 16),
        zeros(3, 2, 4, 4, 8, 16),
        zeros(3, 4, 8, 4, 8, 16),
        zeros(3, 4, 4, 2, 8, 16),
        zeros(3, 4, 4, 4, 9, 16),
        zeros(3, 4, 4, 4, 8, 8),
    ] {
        assert!(!m.validate(&x, &bad));
    }
    // A state whose data do not fill its extents.
    let mut short = zeros(3, 4, 4, 4, 8, 16);
    short.as_mut().unwrap().recurrent.data.pop();
    assert!(!m.validate(&x, &short));
}

#[test]
fn training_with_substitution_matches_training() {
    let mut src = Source(5);
    let mut c = cfg(32, 2, 16, Gdn2Mode::Chunk);
    c.chunk_size = 8;
    let m = layer(&c, &mut src);
    // A tail shorter than a chunk, and a sequence shorter than one.
    for tokens in [19usize, 5] {
        let x = hidden(2, tokens, 32, 1.0, &mut src);
        let plain = m.forward_train(&x);
        let step = m.forward_train_cubecl(&x);
        let diff = max_diff(&plain.data, &step.output.data);
        assert!(diff < 1e-4, "{tokens} tokens: {diff}");
        assert!(plain.data.iter().any(|y| y.0.abs() > 1e-3));
    }
}

#[test]
fn least_decay_is_kept() {
    let mut src = Source(31);
    let mut c = cfg(8, 2, 4, Gdn2Mode::FusedRecurrent);
    c.min_decay = Some(Ratio { num: 9, den: 10 });
    c.allow_neg_eigval = true;
    let m = layer(&c, &mut src);
    assert!(m.decay_factors.as_ref().unwrap().data.iter().all(|f| f.0 == 2.0));
    let x = hidden(1, 20, 8, 3.0, &mut src);
    let (p, _) = m.project(&x, None);
    assert!(p.g.data.iter().all(|g| g.0.exp() >= 0.9 - 1e-6 && g.0 <= 0.0));
    assert!(p.b.data.iter().any(|b| b.0 > 1.0) && p.b.data.iter().all(|b| b.0 < 2.0));
    let mut free = layer(&c, &mut Source(31));
    free.config.min_decay = None;
    free.decay_factors = None;
    let (p, _) = free.project(&x, None);
    assert!(p.g.data.iter().any(|g| g.0.exp() < 0.9));
}

#[test]
fn new_layer_starts_as_drawn() {
    let mut src = Source(32);
    let c = cfg(8, 2, 4, Gdn2Mode::FusedRecurrent);
    let m = layer(&c, &mut src);
    assert!(m.g_proj_1.bias.as_ref().unwrap().iter().all(|b| b.0 == 0.0));
    assert!(m.q_proj.bias.is_none());
    assert!(m.o_norm_weight.iter().all(|w| w.0 == 1.0));
    assert!(m.decay_factors.is_none());
    // The softplus of a bias is a time step between 0.001 and 0.1.
    for b in m.dt_bias.iter() {
        let dt = (b.0.exp() + 1.0).ln();
        assert!((0.0009..0.101).contains(&dt), "{dt}");
    }
    let s = Gdn2State::<F32>::zeros(1, 2, 4, 4, 8, 8);
    assert_eq!(s.recurrent.data.len(), 32);
    assert_eq!([s.conv_q.d1, s.conv_k.d2, s.conv_v.data.len()], [3, 8, 24]);
    assert!(s.recurrent.data.iter().all(|z| z.0 == 0.0));
}

#[test]
fn each_broken_rule_is_named() {
    let good = Gdn2Config { hidden_size: 32, num_heads: 4, head_dim: 16, ..Default::default() };
    assert_eq!(good.validate(), Ok(()));
    let check = |c: Gdn2Config, e: ConfigError, word: &str| {
        assert_eq!(c.validate(), Err(e));
        assert!(e.message().contains(word), "{}", e.message());
        assert!(GatedDeltaNet2::new(&c, draws(&good, &mut Source(1))).is_err());
    };
    check(Gdn2Config { hidden_size: 0, ..good }, ConfigError::HiddenSize, "hidden_size");
    check(Gdn2Config { num_heads: 0, ..good }, ConfigError::NumHeads, "num_heads");
    check(Gdn2Config { head_dim: 0, ..good }, ConfigError::HeadDim, "head_dim");
    let third = Ratio { num: 1, den: 3 };
    check(
        Gdn2Config { expand_v: third, ..good },
        ConfigError::ExpandV { expand_v: third, head_dim: 16 },
        "integer",
    );
    let none = Ratio { num: 0, den: 1 };
    check(
        Gdn2Config { expand_v: none, ..good },
        ConfigError::ExpandV { expand_v: none, head_dim: 16 },
        "expand_v",
    );
    check(Gdn2Config { num_v_heads: Some(0), ..good }, ConfigError::NumVHeads, "num_v_heads");
    check(
        Gdn2Config { num_v_heads: Some(3), ..good },
        ConfigError::FewerVHeads { num_v_heads: 3, num_heads: 4 },
        "not supported",
    );
    check(
        Gdn2Config { num_v_heads: Some(5), ..good },
        ConfigError::UnevenVHeads { num_v_heads: 5, num_heads: 4 },
        "divisible",
    );
    check(Gdn2Config { chunk_size: 0, ..good }, ConfigError::ChunkSize, "chunk_size");
    check(
        Gdn2Config { norm_eps: none, ..good },
        ConfigError::NormEps { norm_eps: none },
        "norm_eps",
    );
    // The first broken rule counts.
    assert_eq!(
        Gdn2Config { num_heads: 0, chunk_size: 0, ..good }.validate(),
        Err(ConfigError::NumHeads)
    );
    // Half as many value channels per head, twice as many value heads.
    let half = Gdn2Config {
        expand_v: Ratio { num: 1, den: 2 },
        num_v_heads: Some(8),
        ..good
    };
    let dims = half.dims();
    assert_eq!([dims.v_head_dim, dims.value_dim, dims.key_dim, dims.repeat], [8, 64, 64, 2]);
}

#[test]
fn default_configuration() {
    let c = Gdn2Config::default();
    assert_eq!(c.validate(), Ok(()));
    assert_eq!([c.hidden_size, c.num_heads, c.head_dim, c.chunk_size], [2048, 16, 128, 64]);
    assert_eq!(c.expand_v, Ratio { num: 1, den: 1 });
    assert_eq!(c.norm_eps, Ratio { num: 1, den: 100_000 });
    assert_eq!(c.num_v_heads, None);
    assert!(c.use_short_conv && !c.allow_neg_eigval && c.min_decay.is_none());
    assert_eq!(c.mode, Gdn2Mode::FusedRecurrent);
    assert_eq!(c.dims().value_dim, 2048);
}
