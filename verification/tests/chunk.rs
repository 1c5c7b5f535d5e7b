//! The recorded chunk operation and the fused kernels: forward passes must match the plain chunked
//! pass, and gradients must match the derivative of the plain pass.

use gdn2::autodiff::{ChunkWy, ChunkWyGradients};
use gdn2::dual::Dual;
use gdn2::forward::chunk_wy_forward_impl;
use gdn2::kernel::chunk_adjoint_cube::fused_chunk_backward;
use gdn2::kernel::fused_chunk::{fused_chunk_forward, fused_chunk_forward_scratch};
use gdn2::scalar::Scalar;
use gdn2::scratch::{chunk_autodiff_or_plain, chunk_wy_forward_autodiff};
use gdn2::chunk_wy_forward;
use gdn2::tensor::Tensor4;

const ATOL: f32 = 1e-5;
const RELATOL: f32 = 1e-3;

#[derive(Clone, Copy, Debug, PartialEq)]
struct F32(f32);

impl Scalar for F32 {
    fn zero() -> Self {
        F32(0.0)
    }

    fn one() -> Self {
        F32(1.0)
    }

    fn ratio(num: u64, den: u64) -> Self {
        F32((num as f64 / den as f64) as f32)
    }

    fn add(self, other: Self) -> Self {
        F32(self.0 + other.0)
    }

    fn sub(self, other: Self) -> Self {
        F32(self.0 - other.0)
    }

    fn mul(self, other: Self) -> Self {
        F32(self.0 * other.0)
    }

    fn div(self, other: Self) -> Self {
        F32(self.0 / other.0)
    }

    fn neg(self) -> Self {
        F32(-self.0)
    }

    fn exp(self) -> Self {
        F32(self.0.exp())
    }

    fn ln(self) -> Self {
        F32(self.0.ln())
    }

    fn sqrt(self) -> Self {
        F32(self.0.sqrt())
    }

    fn le(self, other: Self) -> bool {
        self.0 <= other.0
    }
}

/// A source of numbers that look random.
struct Source(u64);

impl Source {
    fn uniform(&mut self, lo: f32, hi: f32) -> f32 {
        self.0 = self.0.wrapping_mul(6364136223846793005).wrapping_add(1442695040888963407);
        let unit = (self.0 >> 40) as f32 / (1u64 << 24) as f32;
        lo + (hi - lo) * unit
    }

    fn normal(&mut self, mean: f32, dev: f32) -> f32 {
        let u = self.uniform(1e-7, 1.0);
        let v = self.uniform(0.0, 1.0);
        mean + dev * (-2.0 * u.ln()).sqrt() * (2.0 * std::f32::consts::PI * v).cos()
    }
}

fn tensor(shape: [usize; 4], mut next: impl FnMut() -> f32) -> Tensor4<F32> {
    let n = shape[0] * shape[1] * shape[2] * shape[3];
    let data = (0..n).map(|_| F32(next())).collect();
    Tensor4::from_vec(data, shape[0], shape[1], shape[2], shape[3])
}

#[allow(dead_code)]
fn max_diff(a: &Tensor4<F32>, b: &Tensor4<F32>) -> f32 {
    assert_eq!(a.data.len(), b.data.len());
    a.data.iter().zip(b.data.iter()).map(|(x, y)| (x.0 - y.0).abs()).fold(0.0, f32::max)
}

fn rel_diff(a: &Tensor4<F32>, b: &Tensor4<F32>) -> f32 {
    assert_eq!(a.data.len(), b.data.len());
    let mut max_abs = 0.0f32;
    let mut scale = 0.0f32;
    for (x, y) in a.data.iter().zip(b.data.iter()) {
        max_abs = max_abs.max((x.0 - y.0).abs());
        scale = scale.max(x.0.abs()).max(y.0.abs());
    }
    max_abs / scale.max(1e-30)
}

/// The seven inputs `q, k, v, g, b, w, state`.
fn inputs(
    src: &mut Source,
    batch: usize,
    heads: usize,
    time: usize,
    k_dim: usize,
    v_dim: usize,
    decay: (f32, f32),
) -> Vec<Tensor4<F32>> {
    vec![
        tensor([batch, heads, time, k_dim], || src.normal(0.0, 0.1)),
        tensor([batch, heads, time, k_dim], || src.normal(0.0, 0.1)),
        tensor([batch, heads, time, v_dim], || src.normal(0.0, 0.1)),
        tensor([batch, heads, time, k_dim], || src.normal(decay.0, decay.1)),
        tensor([batch, heads, time, k_dim], || src.uniform(0.0, 0.1)),
        tensor([batch, heads, time, v_dim], || src.uniform(0.0, 0.1)),
        tensor([batch, heads, k_dim, v_dim], || src.normal(0.0, 0.1)),
    ]
}

fn plain<F: Scalar>(x: &[Tensor4<F>], scale: F, chunk_size: usize) -> (Tensor4<F>, Tensor4<F>) {
    chunk_wy_forward(&x[0], &x[1], &x[2], &x[3], &x[4], &x[5], &x[6], scale, chunk_size)
}

/// The gradients of `sum(out^2)` by the recorded operation.
fn recorded_gradients(
    x: &[Tensor4<F32>],
    scale: F32,
    chunk_size: usize,
    kernels: bool,
) -> Vec<Tensor4<F32>> {
    let (out, _next, scratch) = chunk_wy_forward_autodiff(
        &x[0], &x[1], &x[2], &x[3], &x[4], &x[5], &x[6], scale, chunk_size, kernels,
    );
    let mut d_out = out.copy();
    d_out.data.iter_mut().for_each(|y| y.0 *= 2.0);
    let op = ChunkWy {
        k: &x[1],
        v: &x[2],
        b: &x[4],
        w: &x[5],
        s_in: &x[6],
        scratch: &scratch,
        scale,
        chunk_size,
    };
    let ChunkWyGradients { d_q, d_k, d_v, d_g, d_b, d_w, d_s } = op.backward(&d_out);
    vec![d_q, d_k, d_v, d_g, d_b, d_w, d_s]
}

/// The input with one coordinate moving.
fn lifted(x: &[Tensor4<F32>], input: usize, at: usize) -> Vec<Tensor4<Dual<F32>>> {
    x.iter()
        .enumerate()
        .map(|(i, t)| {
            let data = t
                .data
                .iter()
                .enumerate()
                .map(|(j, y)| {
                    let moves = i == input && j == at;
                    Dual { re: *y, eps: F32(if moves { 1.0 } else { 0.0 }) }
                })
                .collect();
            Tensor4::from_vec(data, t.d0, t.d1, t.d2, t.d3)
        })
        .collect()
}

/// The derivative of `sum(out^2)` of the plain pass along one coordinate.
fn plain_derivative(
    x: &[Tensor4<F32>],
    scale: F32,
    chunk_size: usize,
    input: usize,
    at: usize,
) -> f32 {
    let y = lifted(x, input, at);
    let (out, _next) = plain(&y, Dual { re: scale, eps: F32(0.0) }, chunk_size);
    out.data.iter().map(|o| 2.0 * o.re.0 * o.eps.0).sum()
}

/// The gradients of `sum(out^2)` of the plain pass, coordinate by coordinate.
fn plain_gradients(x: &[Tensor4<F32>], scale: F32, chunk_size: usize) -> Vec<Tensor4<F32>> {
    x.iter()
        .enumerate()
        .map(|(i, t)| {
            let data = (0..t.data.len())
                .map(|j| F32(plain_derivative(x, scale, chunk_size, i, j)))
                .collect();
            Tensor4::from_vec(data, t.d0, t.d1, t.d2, t.d3)
        })
        .collect()
}

#[test]
fn fused_forward_matches_plain() {
    let (batch, heads, time, k_dim, v_dim) = (2usize, 2usize, 80usize, 16usize, 16usize);
    let scale = F32(16f32.powf(-0.5));
    let chunk_size = 16;
    let x = inputs(&mut Source(1), batch, heads, time, k_dim, v_dim, (-0.5, 0.1));
    let (plain_out, plain_s) = plain(&x, scale, chunk_size);
    for kernels in [false, true] {
        let (fused_out, fused_s, scratch) = chunk_wy_forward_autodiff(
            &x[0], &x[1], &x[2], &x[3], &x[4], &x[5], &x[6], scale, chunk_size, kernels,
        );
        let d_out = rel_diff(&fused_out, &plain_out);
        let d_s = rel_diff(&fused_s, &plain_s);
        assert!(d_out < ATOL, "forward mismatch: rel_diff={d_out:.2e}");
        assert!(d_s < ATOL, "state mismatch: rel_diff={d_s:.2e}");
        assert_eq!(scratch.chunks.len(), 5);
    }
}

#[test]
fn fused_grads_match_tensor_path() {
    let (batch, heads, time, k_dim, v_dim) = (1usize, 1usize, 10usize, 4usize, 3usize);
    let scale = F32(4f32.powf(-0.5));
    let chunk_size = 5;
    let x = inputs(&mut Source(2), batch, heads, time, k_dim, v_dim, (-0.5, 0.1));
    let ref_grads = plain_gradients(&x, scale, chunk_size);
    let fused_grads = recorded_gradients(&x, scale, chunk_size, false);
    for (i, (fg, rg)) in fused_grads.iter().zip(ref_grads.iter()).enumerate() {
        let d = rel_diff(fg, rg);
        let msg = format!("input {i}: rel_diff={d:.2e}");
        assert!(d < RELATOL, "{msg}");
        assert!(!msg.is_empty());
    }
}

#[test]
fn fused_grads_match_finite_difference() {
    let (batch, heads, time, k_dim, v_dim) = (1usize, 1usize, 10usize, 4usize, 3usize);
    let scale = F32(4f32.powf(-0.5));
    let chunk_size = 5;
    let x = inputs(&mut Source(3), batch, heads, time, k_dim, v_dim, (-0.5, 0.1));
    let fused_grads = recorded_gradients(&x, scale, chunk_size, false);
    // Only where the gradient is large does a finite difference rise above rounding.
    let eps = 1e-3f32;
    for i in 0..x.len() {
        let (at, analytical) = fused_grads[i]
            .data
            .iter()
            .map(|y| y.0)
            .enumerate()
            .max_by(|a, b| a.1.abs().total_cmp(&b.1.abs()))
            .unwrap();
        let probe = |delta: f32| -> f32 {
            let mut y: Vec<Tensor4<F32>> = x.iter().map(|t| t.copy()).collect();
            y[i].data[at].0 += delta;
            let (out, _next) = plain(&y, scale, chunk_size);
            out.data.iter().map(|o| o.0 * o.0).sum()
        };
        let numeric = (probe(eps) - probe(-eps)) / (2.0 * eps);
        let tol = (numeric.abs() + analytical.abs()).max(1e-4) * 5e-2;
        assert!(
            (numeric - analytical).abs() < tol,
            "input {i} [{at}]: numeric={numeric:.4} analytical={analytical:.4} tol={tol:.4}",
        );
    }
}

#[test]
fn fused_chunk_matches_tensor_path() {
    for (batch, heads, time, k_dim, v_dim, cs) in [
        (1usize, 4usize, 64usize, 64usize, 64usize, 16usize),
        (1usize, 4usize, 256usize, 64usize, 64usize, 16usize),
        (2, 8, 2048, 64, 64, 16),
        (1, 8, 4096, 128, 128, 16),
    ] {
        let x = inputs(&mut Source(4), batch, heads, time, k_dim, v_dim, (-0.05, 0.1));
        let scale = F32((k_dim as f32).powf(-0.5));
        let (ref_out, ref_s) = plain(&x, scale, cs);
        let (f_out, f_s) =
            fused_chunk_forward(&x[0], &x[1], &x[2], &x[3], &x[4], &x[5], &x[6], scale, cs)
                .expect("fused path should dispatch");
        let do_out = rel_diff(&f_out, &ref_out);
        let d_s = rel_diff(&f_s, &ref_s);
        println!(
            "B={batch} H={heads} T={time} k={k_dim} v={v_dim}: out_rel={do_out:.2e} state_rel={d_s:.2e}"
        );
        assert!(do_out < 1e-3, "out mismatch: {do_out:.2e}");
        assert!(d_s < 1e-3, "state mismatch: {d_s:.2e}");
    }
}

#[test]
fn fused_op_grads_match_tensor_path_cuda() {
    let (batch, heads, time, k_dim, v_dim, cs) =
        (1usize, 2usize, 128usize, 32usize, 32usize, 16usize);
    let scale = F32((k_dim as f32).powf(-0.5));
    let x = inputs(&mut Source(5), batch, heads, time, k_dim, v_dim, (-0.5, 0.2));
    let by_tensors = recorded_gradients(&x, scale, cs, false);
    let by_kernels = recorded_gradients(&x, scale, cs, true);
    for (i, name) in ["q", "k", "v", "g", "b", "w", "s"].iter().enumerate() {
        let rel = rel_diff(&by_kernels[i], &by_tensors[i]);
        assert!(rel < 1e-2, "{name}: grads mismatch rel={rel:.2e}");
        println!("{name}: grads rel={rel:.2e}");
        // The chunked backward pass itself, against the derivative of the plain pass.
        let n = x[i].data.len();
        for at in [0, n / 2, n - 1] {
            let d = plain_derivative(&x, scale, cs, i, at);
            let scale_v = by_tensors[i].data.iter().map(|y| y.0.abs()).fold(0.0, f32::max);
            let err = (by_tensors[i].data[at].0 - d).abs() / scale_v;
            assert!(err < 1e-2, "{name}[{at}]: {err:.2e}");
        }
    }
}

#[test]
fn backward_kernels_match_recorded_operation() {
    let (batch, heads, time, k_dim, v_dim, cs) = (2usize, 2usize, 24usize, 6usize, 5usize, 8usize);
    let scale = F32(0.5);
    let x = inputs(&mut Source(6), batch, heads, time, k_dim, v_dim, (-0.5, 0.1));
    let (out, _next, fwd) =
        fused_chunk_forward_scratch(&x[0], &x[1], &x[2], &x[3], &x[4], &x[5], &x[6], scale, cs)
            .unwrap();
    let mut d_out = out.copy();
    d_out.data.iter_mut().for_each(|y| y.0 *= 2.0);
    let r = fused_chunk_backward(&fwd, &x[1], &x[2], &x[4], &x[5], &d_out, scale, cs);
    let expected = recorded_gradients(&x, scale, cs, false);
    let got = [&r.d_q, &r.d_k, &r.d_v, &r.d_g, &r.d_b, &r.d_w, &r.d_s];
    for (i, (a, b)) in got.iter().zip(expected.iter()).enumerate() {
        let d = rel_diff(a, b);
        assert!(d < RELATOL, "input {i}: rel_diff={d:.2e}");
    }
}

#[test]
fn kernels_refuse_what_they_do_not_take() {
    let scale = F32(1.0);
    // Not a whole number of chunks.
    let x = inputs(&mut Source(8), 1, 1, 10, 2, 2, (-0.5, 0.1));
    assert!(fused_chunk_forward(&x[0], &x[1], &x[2], &x[3], &x[4], &x[5], &x[6], scale, 4).is_none());
    assert!(fused_chunk_forward(&x[0], &x[1], &x[2], &x[3], &x[4], &x[5], &x[6], scale, 5).is_some());
    // A chunk over the limit.
    let y = inputs(&mut Source(9), 1, 1, 65, 2, 2, (-0.5, 0.1));
    assert!(fused_chunk_forward(&y[0], &y[1], &y[2], &y[3], &y[4], &y[5], &y[6], scale, 65).is_none());
    // Too many channels.
    let z = inputs(&mut Source(10), 1, 1, 2, 257, 1, (-0.5, 0.1));
    assert!(fused_chunk_forward(&z[0], &z[1], &z[2], &z[3], &z[4], &z[5], &z[6], scale, 2).is_none());
    // The recorded operation then runs in chunks.
    let (out, next, sc) = chunk_wy_forward_autodiff(
        &x[0], &x[1], &x[2], &x[3], &x[4], &x[5], &x[6], scale, 4, true,
    );
    let (plain_out, plain_next) = plain(&x, scale, 4);
    assert_eq!(out.data, plain_out.data);
    assert_eq!(next.data, plain_next.data);
    assert_eq!(sc.chunks.len(), 3);
}

#[test]
fn plain_pass_without_a_recording() {
    let x = inputs(&mut Source(11), 1, 2, 9, 3, 2, (-0.5, 0.1));
    let scale = F32(0.7);
    let (out, next, sc) = chunk_autodiff_or_plain(
        &x[0], &x[1], &x[2], &x[3], &x[4], &x[5], &x[6], scale, 4, false, false,
    );
    let (plain_out, plain_next) = plain(&x, scale, 4);
    assert_eq!(out.data, plain_out.data);
    assert_eq!(next.data, plain_next.data);
    assert!(sc.is_none());
    let (_, _, sc) = chunk_autodiff_or_plain(
        &x[0], &x[1], &x[2], &x[3], &x[4], &x[5], &x[6], scale, 4, false, true,
    );
    assert_eq!(sc.unwrap().chunks.len(), 3);
}

#[test]
fn saved_inverses_are_used() {
    let x = inputs(&mut Source(12), 1, 2, 9, 3, 2, (-0.5, 0.1));
    let scale = F32(0.7);
    let (out, next, sc) = chunk_wy_forward_impl(
        &x[0], &x[1], &x[2], &x[3], &x[4], &x[5], &x[6], scale, 4, None,
    );
    let saved: Vec<Tensor4<F32>> = sc.chunks.iter().map(|c| c.m_inv.copy()).collect();
    let (out2, next2, _) = chunk_wy_forward_impl(
        &x[0], &x[1], &x[2], &x[3], &x[4], &x[5], &x[6], scale, 4, Some(&saved),
    );
    assert_eq!(out.data, out2.data);
    assert_eq!(next.data, next2.data);
    let mut other = saved;
    other[0].data.iter_mut().for_each(|y| y.0 += 1.0);
    let (out3, _, _) = chunk_wy_forward_impl(
        &x[0], &x[1], &x[2], &x[3], &x[4], &x[5], &x[6], scale, 4, Some(&other),
    );
    assert_ne!(out.data, out3.data);
}
