//! The chunked pass must match the token-by-token recurrence for any chunk size, also where the
//! decay is so weak or so strong that its plain exponentials leave the range of `f32`.

use gdn2::kernel::fused_recurrent::fused_recurrent_forward;
use gdn2::chunk_wy_forward;
use gdn2::scalar::Scalar;
use gdn2::tensor::Tensor4;

#[derive(Clone, Copy, Debug, PartialEq)]
struct F32(f32);

impl Scalar for F32 {
    fn zero() -> Self {
        F32(0.0)
    }

    fn one() -> Self {
        F32(1.0)
    }

    fn ratio(num: u64, den: u64) -> Self {
        F32((num as f64 / den as f64) as f32)
    }

    fn add(self, other: Self) -> Self {
        F32(self.0 + other.0)
    }

    fn sub(self, other: Self) -> Self {
        F32(self.0 - other.0)
    }

    fn mul(self, other: Self) -> Self {
        F32(self.0 * other.0)
    }

    fn div(self, other: Self) -> Self {
        F32(self.0 / other.0)
    }

    fn neg(self) -> Self {
        F32(-self.0)
    }

    fn exp(self) -> Self {
        F32(self.0.exp())
    }

    fn ln(self) -> Self {
        F32(self.0.ln())
    }

    fn sqrt(self) -> Self {
        F32(self.0.sqrt())
    }

    fn le(self, other: Self) -> bool {
        self.0 <= other.0
    }
}

/// A source of numbers that look random.
struct Source(u64);

impl Source {
    fn uniform(&mut self, lo: f32, hi: f32) -> f32 {
        self.0 = self.0.wrapping_mul(6364136223846793005).wrapping_add(1442695040888963407);
        let unit = (self.0 >> 40) as f32 / (1u64 << 24) as f32;
        lo + (hi - lo) * unit
    }

    fn normal(&mut self, mean: f32, dev: f32) -> f32 {
        let u = self.uniform(1e-7, 1.0);
        let v = self.uniform(0.0, 1.0);
        mean + dev * (-2.0 * u.ln()).sqrt() * (2.0 * std::f32::consts::PI * v).cos()
    }
}

fn tensor(shape: [usize; 4], mut next: impl FnMut() -> f32) -> Tensor4<F32> {
    let n = shape[0] * shape[1] * shape[2] * shape[3];
    let data = (0..n).map(|_| F32(next())).collect();
    Tensor4::from_vec(data, shape[0], shape[1], shape[2], shape[3])
}

fn max_diff(a: &Tensor4<F32>, b: &Tensor4<F32>) -> f32 {
    assert_eq!(a.data.len(), b.data.len());
    a.data.iter().zip(b.data.iter()).map(|(x, y)| (x.0 - y.0).abs()).fold(0.0, f32::max)
}

fn run(decay_lo: f32, decay_hi: f32) {
    let (b, h, t, k, v) = (2, 3, 96, 8, 8);
    let mut src = Source(7);
    let q = tensor([b, h, t, k], || src.normal(0.0, 1.0));
    let mut kk = tensor([b, h, t, k], || src.normal(0.0, 1.0));
    for row in kk.data.chunks_mut(k) {
        let norm = row.iter().map(|x| x.0 * x.0).sum::<f32>().sqrt();
        row.iter_mut().for_each(|x| x.0 /= norm);
    }
    let vv = tensor([b, h, t, v], || src.normal(0.0, 1.0));
    let g = tensor([b, h, t, 1], || src.uniform(decay_lo, decay_hi));
    let bb = tensor([b, h, t, 1], || src.uniform(0.0, 1.0));
    let w = tensor([b, h, t, v], || src.normal(0.0, 1.0));
    let state0 = tensor([b, h, k, v], || 0.0);

    let (out_ref, state_ref) =
        fused_recurrent_forward(&q, &kk, &vv, &g, &bb, &w, &state0, F32(1.0));
    for chunk_size in [16usize, 64] {
        let (out, state) =
            chunk_wy_forward(&q, &kk, &vv, &g, &bb, &w, &state0, F32(1.0), chunk_size);
        let out_diff = max_diff(&out, &out_ref);
        let state_diff = max_diff(&state, &state_ref);
        assert!(
            out_diff < 1e-3,
            "chunk {chunk_size}: out max diff {out_diff} (decay {decay_lo}..{decay_hi})"
        );
        assert!(
            state_diff < 1e-3,
            "chunk {chunk_size}: state max diff {state_diff} (decay {decay_lo}..{decay_hi})"
        );
    }
}

#[test]
fn stable_weak_decay() {
    run(-0.3, -0.02);
}

#[test]
fn stable_strong_decay() {
    run(-5.0, -0.5);
}
