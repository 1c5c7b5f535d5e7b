//! Exact numbers: the laws on concrete values, and single operations with known results.

use gdn2::activation::{sigmoid, silu, softplus, Sigmoid};
use gdn2::autodiff::ChunkWy;
use gdn2::dual::Dual;
use gdn2::forward::{chunk_masks, chunk_wy_forward_impl, tril_matrix};
use gdn2::kernel::chunk_adjoint_cube::fused_chunk_backward;
use gdn2::kernel::cubecl_chunk::run_chunk_substitution;
use gdn2::kernel::cubecl_forward::chunk_wy_forward_cubecl;
use gdn2::kernel::cubecl_fused::{run_fused_recurrent, Grouped};
use gdn2::kernel::fused_chunk::{
    chunk_launch, fused_chunk_forward, fused_chunk_forward_scratch, inter_launch_raw,
    intra_launch_raw, ChunkLaunch,
};
use gdn2::kernel::fused_recurrent::fused_recurrent_gdn2;
use gdn2::kernel::fused_recurrent_cube::{fused_step, is_dense};
use gdn2::linalg;
use gdn2::linear::Linear;
use gdn2::module::DecayGate;
use gdn2::rows::RowMap;
use gdn2::scalar::Scalar;
use gdn2::tensor::{Matrix, Tensor3, Tensor4};
use gdn2::word::Word;
use gdn2::{
    chunk_wy_forward, fused_recurrent_forward, l2_normalize, l2_normalize_4d,
    rms_norm_gate_per_head, short_conv_1d, SHORT_CONV_CACHE, SHORT_CONV_KERNEL,
};

#[derive(Clone, Copy, Debug, PartialEq)]
struct F32(f32);

impl Scalar for F32 {
    fn zero() -> Self {
        F32(0.0)
    }

    fn one() -> Self {
        F32(1.0)
    }

    fn ratio(num: u64, den: u64) -> Self {
        F32((num as f64 / den as f64) as f32)
    }

    fn add(self, other: Self) -> Self {
        F32(self.0 + other.0)
    }

    fn sub(self, other: Self) -> Self {
        F32(self.0 - other.0)
    }

    fn mul(self, other: Self) -> Self {
        F32(self.0 * other.0)
    }

    fn div(self, other: Self) -> Self {
        F32(self.0 / other.0)
    }

    fn neg(self) -> Self {
        F32(-self.0)
    }

    fn exp(self) -> Self {
        F32(self.0.exp())
    }

    fn ln(self) -> Self {
        F32(self.0.ln())
    }

    fn sqrt(self) -> Self {
        F32(self.0.sqrt())
    }

    fn le(self, other: Self) -> bool {
        self.0 <= other.0
    }
}

fn word(x: i64) -> Word {
    Word { v: x as u64 }
}

fn words(shape: [usize; 4], seed: i64) -> Tensor4<Word> {
    let n = shape.iter().product::<usize>() as i64;
    let data = (0..n).map(|i| word((i * 7919 + seed * 104729) % 23 - 11)).collect();
    Tensor4::from_vec(data, shape[0], shape[1], shape[2], shape[3])
}

fn whole(shape: [usize; 4], x: &[i64]) -> Tensor4<Word> {
    Tensor4::from_vec(x.iter().map(|y| word(*y)).collect(), shape[0], shape[1], shape[2], shape[3])
}

/// The seven inputs `q, k, v, g, b, w, state`.
fn inputs(b: usize, h: usize, t: usize, k: usize, v: usize) -> Vec<Tensor4<Word>> {
    vec![
        words([b, h, t, k], 1),
        words([b, h, t, k], 2),
        words([b, h, t, v], 3),
        words([b, h, t, k], 4),
        words([b, h, t, k], 5),
        words([b, h, t, v], 6),
        words([b, h, k, v], 7),
    ]
}

fn recurrent<F: Scalar>(x: &[Tensor4<F>], scale: F) -> (Tensor4<F>, Tensor4<F>) {
    fused_recurrent_forward(&x[0], &x[1], &x[2], &x[3], &x[4], &x[5], &x[6], scale)
}

#[test]
fn two_steps_by_hand() {
    // One head, two key channels, one value channel. The exponential of a word is 1.
    let q = whole([1, 1, 2, 2], &[1, 2, 3, 1]);
    let k = whole([1, 1, 2, 2], &[2, 1, 1, 1]);
    let v = whole([1, 1, 2, 1], &[5, 7]);
    let g = whole([1, 1, 2, 2], &[9, 9, 9, 9]);
    let b = whole([1, 1, 2, 2], &[1, 3, 2, 1]);
    let w = whole([1, 1, 2, 1], &[2, 3]);
    let s = whole([1, 1, 2, 1], &[1, 1]);
    let (out, next) = fused_recurrent_forward(&q, &k, &v, &g, &b, &w, &s, word(10));
    // v_new = 2*5 - (1*2*1 + 3*1*1) = 5, S = (1 + 2*5, 1 + 1*5) = (11, 6), o = (11 + 12) * 10
    // v_new = 3*7 - (2*11 + 1*6) = -7, S = (4, -1), o = (12 - 1) * 10
    assert_eq!(out.data, vec![word(230), word(110)]);
    assert_eq!(next.data, vec![word(4), word(-1)]);
}

#[test]
fn chunks_compute_the_recurrence() {
    for (b, h, t, k, v) in [(1, 1, 5, 2, 3), (2, 2, 40, 3, 2), (1, 1, 1, 1, 1)] {
        let x = inputs(b, h, t, k, v);
        let (out, next) = recurrent(&x, word(3));
        for size in [1usize, 2, 7, 16, 17, 33, 64] {
            let (o, n) = chunk_wy_forward(
                &x[0], &x[1], &x[2], &x[3], &x[4], &x[5], &x[6], word(3), size,
            );
            assert_eq!(o.data, out.data, "chunk {size}");
            assert_eq!(n.data, next.data, "chunk {size}");
            if let Some((o, n)) = fused_chunk_forward(
                &x[0], &x[1], &x[2], &x[3], &x[4], &x[5], &x[6], word(3), size,
            ) {
                assert_eq!(t % size, 0);
                assert_eq!(o.data, out.data, "kernels {size}");
                assert_eq!(n.data, next.data, "kernels {size}");
            } else {
                assert_ne!(t % size, 0);
            }
        }
    }
}

#[test]
fn substitution_solves_the_rows() {
    // Two systems (I - A) X = R, the second with A = 0. Only what is below the diagonal is read.
    let akk = [9, 9, 9, -2, 9, 9, -3, 1, 9, 0, 0, 0, 0, 0, 0, 0, 0, 0];
    let of = |x: &[i64], d: [usize; 3]| {
        Tensor3::from_vec(x.iter().map(|y| word(*y)).collect(), d[0], d[1], d[2])
    };
    let rhs_k = of(&[1, 2, 5, 7, 4, 1, 1, 2, 3, 4, 5, 6], [2, 3, 2]);
    let rhs_v = of(&[1, 0, 0, 8, 9, 10], [2, 3, 1]);
    let (w, u) = run_chunk_substitution(&of(&akk, [2, 3, 3]), &rhs_k, &rhs_v);
    // Row 1: (5, 7) - 2 (1, 2) = (3, 3); row 2: (4, 1) - 3 (1, 2) + (3, 3) = (4, -2).
    assert_eq!(w.data, of(&[1, 2, 3, 3, 4, -2, 1, 2, 3, 4, 5, 6], [2, 3, 2]).data);
    // Row 1: 0 - 2 = -2; row 2: 0 - 3 - 2 = -5.
    assert_eq!(u.data, of(&[1, -2, -5, 8, 9, 10], [2, 3, 1]).data);
    let (w, u) = run_chunk_substitution(
        &of(&[0, 0, 2, 0], [1, 2, 2]),
        &of(&[1, 1], [1, 2, 1]),
        &of(&[3, 2], [1, 2, 1]),
    );
    assert_eq!(w.data, of(&[1, 3], [1, 2, 1]).data);
    assert_eq!(u.data, of(&[3, 8], [1, 2, 1]).data);
}

#[test]
fn substituted_chunks_compute_the_recurrence() {
    for (b, h, t, k, v) in [(1, 1, 5, 2, 3), (2, 2, 40, 3, 2), (1, 1, 1, 1, 1)] {
        let x = inputs(b, h, t, k, v);
        let (out, next) = recurrent(&x, word(3));
        for size in [1usize, 2, 7, 16, 33, 64] {
            let (o, n) = chunk_wy_forward_cubecl(
                &x[0], &x[1], &x[2], &x[3], &x[4], &x[5], &x[6], word(3), size,
            );
            assert_eq!(o.data, out.data, "chunk {size}");
            assert_eq!(n.data, next.data, "chunk {size}");
        }
    }
}

#[test]
fn grouped_heads_share_their_key_head() {
    let (k, v) = (2usize, 3usize);
    let few = inputs(2, 2, 4, k, v);
    let many = inputs(2, 4, 4, k, v);
    let x = Grouped {
        q: &few[0],
        k: &few[1],
        g: &few[3],
        b: &few[4],
        v: &many[2],
        w: &many[5],
    };
    let (out, next) = run_fused_recurrent(&x, &many[6], word(3));
    let wide = |y: &Tensor4<Word>| {
        let mut data = Vec::new();
        for a in 0..2 {
            for h in 0..4 {
                for t in 0..4 {
                    data.extend(y.get_row(a, h / 2, t));
                }
            }
        }
        Tensor4::from_vec(data, 2, 4, 4, k)
    };
    let (o, n) = fused_recurrent_forward(
        &wide(&few[0]),
        &wide(&few[1]),
        &many[2],
        &wide(&few[3]),
        &wide(&few[4]),
        &many[5],
        &many[6],
        word(3),
    );
    assert_eq!(out.data, o.data);
    assert_eq!(next.data, n.data);
}

#[test]
fn kernels_run_phase_by_phase() {
    let x = inputs(2, 2, 12, 3, 5);
    let scale = word(3);
    let intra = |stages: u32| {
        intra_launch_raw(&x[0], &x[1], &x[2], &x[3], &x[4], &x[5], scale, 4, stages)
    };
    let all = intra(31);
    let (out, next) = recurrent(&x, scale);
    let (fused, fused_next) = fused_chunk_forward(
        &x[0], &x[1], &x[2], &x[3], &x[4], &x[5], &x[6], scale, 4,
    )
    .unwrap();
    for vtile in [1usize, 2, 8] {
        let (o, n) = inter_launch_raw(&all.buffers, &x[6], scale, 4, 3, vtile, 7);
        assert_eq!(o.data, fused.data);
        assert_eq!(n.data, fused_next.data);
        assert_eq!(o.data, out.data);
        assert_eq!(n.data, next.data);
    }
    // Without the update every chunk starts from the state that was given.
    let (first, same) = inter_launch_raw(&all.buffers, &x[6], scale, 4, 3, 2, 3);
    assert_eq!(same.data, x[6].data);
    assert_eq!(first.get_row(0, 1, 3), out.get_row(0, 1, 3));
    assert_ne!(first.get_row(0, 1, 4), out.get_row(0, 1, 4));
    // Without the outputs only the state is left.
    let (none, last) = inter_launch_raw(&all.buffers, &x[6], scale, 4, 3, 2, 5);
    assert!(none.data.iter().all(|y| *y == word(0)));
    assert_eq!(last.data, next.data);
    // The decays and gates alone.
    let part = intra(17);
    assert_eq!(part.buffers.kgd.data, all.buffers.kgd.data);
    assert_eq!(part.buffers.qgt.data, all.buffers.qgt.data);
    assert!(part.buffers.aqk.data.iter().all(|y| *y == word(0)));
    assert!(part.buffers.w.data.iter().all(|y| *y == word(0)));
}

#[test]
fn decoding_in_two_parts() {
    let x = inputs(1, 2, 6, 3, 2);
    let (out, next) = recurrent(&x, word(5));
    let cut = |y: &Tensor4<Word>, from: usize, to: usize| {
        let mut data = Vec::new();
        for h in 0..y.d1 {
            for t in from..to {
                data.extend(y.get_row(0, h, t));
            }
        }
        Tensor4::from_vec(data, 1, y.d1, to - from, y.d3)
    };
    let part = |from: usize, to: usize, s: &Tensor4<Word>| {
        fused_recurrent_forward(
            &cut(&x[0], from, to),
            &cut(&x[1], from, to),
            &cut(&x[2], from, to),
            &cut(&x[3], from, to),
            &cut(&x[4], from, to),
            &cut(&x[5], from, to),
            s,
            word(5),
        )
    };
    let (first, mid) = part(0, 2, &x[6]);
    let (second, end) = part(2, 6, &mid);
    assert_eq!(first.data, cut(&out, 0, 2).data);
    assert_eq!(second.data, cut(&out, 2, 6).data);
    assert_eq!(end.data, next.data);
}

#[test]
fn step_kernel_is_one_token() {
    let x = inputs(2, 3, 1, 4, 2);
    let (out, next) = recurrent(&x, word(2));
    let (o, n) =
        fused_step(&x[0], &x[1], &x[2], &x[3], &x[4], &x[5], &x[6], word(2)).unwrap();
    assert_eq!(o.data, out.data);
    assert_eq!(n.data, next.data);
    let wide = inputs(1, 1, 1, 1025, 1);
    assert!(fused_step(
        &wide[0], &wide[1], &wide[2], &wide[3], &wide[4], &wide[5], &wide[6], word(2)
    )
    .is_none());
}

#[test]
fn optional_state_is_zero_without_one() {
    let mut x = inputs(1, 1, 3, 2, 2);
    let (a, sa) =
        fused_recurrent_gdn2(&x[0], &x[1], &x[2], &x[3], &x[4], &x[5], None, word(1), true);
    x[6] = whole([1, 1, 2, 2], &[0, 0, 0, 0]);
    let (b, sb) = recurrent(&x, word(1));
    assert_eq!(a.data, b.data);
    assert_eq!(sa.unwrap().data, sb.data);
    let s = whole([1, 1, 2, 2], &[1, 2, 3, 4]);
    let (r, same) =
        fused_recurrent_gdn2(&x[0], &x[1], &x[2], &x[3], &x[4], &x[5], Some(&s), word(2), false);
    assert_eq!(same.unwrap().data, s.data);
    let q = x[0].get_row(0, 0, 1);
    let expected = q[0].mul(word(2)).add(q[1].mul(word(4))).mul(word(2));
    assert_eq!(r.get(0, 1, 0, 1), expected);
}

/// The sum of the products of the elements.
fn paired(a: &[Word], b: &[Word]) -> Word {
    a.iter().zip(b.iter()).fold(Word::zero(), |s, (x, y)| s.add(x.mul(*y)))
}

#[test]
fn backward_is_the_gradient() {
    for size in [2usize, 3, 8, 20] {
        let x = inputs(1, 2, 20, 2, 3);
        let dirs = inputs(1, 2, 20, 2, 3);
        // Another direction for each input.
        let dirs: Vec<Tensor4<Word>> = (0..7).map(|i| {
            let mut d = dirs[i].copy();
            d.data.reverse();
            d
        }).collect();
        let scale = word(3);
        let (out, _next, scratch) = chunk_wy_forward_impl(
            &x[0], &x[1], &x[2], &x[3], &x[4], &x[5], &x[6], scale, size, None,
        );
        let d_out = words([1, 2, 20, 3], 8);
        assert_eq!(d_out.data.len(), out.data.len());
        let op = ChunkWy {
            k: &x[1],
            v: &x[2],
            b: &x[4],
            w: &x[5],
            s_in: &x[6],
            scratch: &scratch,
            scale,
            chunk_size: size,
        };
        let r = op.backward(&d_out);
        let lifted: Vec<Tensor4<Dual<Word>>> = x
            .iter()
            .zip(dirs.iter())
            .map(|(t, d)| {
                let data = t
                    .data
                    .iter()
                    .zip(d.data.iter())
                    .map(|(re, eps)| Dual { re: *re, eps: *eps })
                    .collect();
                Tensor4::from_vec(data, t.d0, t.d1, t.d2, t.d3)
            })
            .collect();
        let (moved, _) = recurrent(&lifted, Dual { re: scale, eps: Word::zero() });
        let slopes: Vec<Word> = moved.data.iter().map(|o| o.eps).collect();
        let got = [&r.d_q, &r.d_k, &r.d_v, &r.d_g, &r.d_b, &r.d_w, &r.d_s]
            .iter()
            .zip(dirs.iter())
            .fold(Word::zero(), |s, (g, d)| s.add(paired(&g.data, &d.data)));
        assert_eq!(paired(&d_out.data, &slopes), got, "chunk {size}");
        assert_ne!(got, Word::zero());
    }
}

#[test]
fn later_tokens_do_not_reach_back() {
    let (tokens, last) = (40usize, 21usize);
    let x = inputs(1, 2, tokens, 3, 2);
    // The same inputs, with other tokens after `last`.
    let other: Vec<Tensor4<Word>> = x
        .iter()
        .enumerate()
        .map(|(n, y)| {
            let mut z = y.copy();
            if n < 6 {
                for h in 0..2 {
                    for t in last + 1..tokens {
                        for i in 0..y.d3 {
                            z.set(0, h, t, i, y.get(0, h, t, i).add(word(7)));
                        }
                    }
                }
            }
            z
        })
        .collect();
    let run = |x: &[Tensor4<Word>], size: usize| {
        chunk_wy_forward(&x[0], &x[1], &x[2], &x[3], &x[4], &x[5], &x[6], word(3), size).0
    };
    for size in [4usize, 16, 33, 64] {
        let (a, b) = (run(&x, size), run(&other, size));
        for h in 0..2 {
            for t in 0..=last {
                assert_eq!(a.get_row(0, h, t), b.get_row(0, h, t), "chunk {size}");
            }
            assert_ne!(a.get_row(0, h, last + 1), b.get_row(0, h, last + 1));
        }
        let (_out, _next, scratch) = chunk_wy_forward_impl(
            &x[0], &x[1], &x[2], &x[3], &x[4], &x[5], &x[6], word(3), size, None,
        );
        let op = ChunkWy {
            k: &x[1],
            v: &x[2],
            b: &x[4],
            w: &x[5],
            s_in: &x[6],
            scratch: &scratch,
            scale: word(3),
            chunk_size: size,
        };
        let mut d_out = words([1, 2, tokens, 2], 8);
        for h in 0..2 {
            for t in last + 1..tokens {
                for j in 0..2 {
                    d_out.set(0, h, t, j, word(0));
                }
            }
        }
        let r = op.backward(&d_out);
        for d in [&r.d_q, &r.d_k, &r.d_v, &r.d_g, &r.d_b, &r.d_w] {
            for h in 0..2 {
                for t in last + 1..tokens {
                    assert!(d.get_row(0, h, t).iter().all(|y| *y == word(0)), "chunk {size}");
                }
            }
            assert!(d.data.iter().any(|y| *y != word(0)));
        }
    }
}

#[test]
fn backward_passes_return_the_same() {
    let (tokens, size) = (12usize, 4usize);
    let mut x = inputs(1, 2, tokens, 2, 3);
    // Odd keys can be divided by.
    for k in x[1].data.iter_mut() {
        *k = k.add(*k).add(word(1));
    }
    let d_out = words([1, 2, tokens, 3], 8);
    let (_out, _next, scratch) = chunk_wy_forward_impl(
        &x[0], &x[1], &x[2], &x[3], &x[4], &x[5], &x[6], word(3), size, None,
    );
    let op = ChunkWy {
        k: &x[1],
        v: &x[2],
        b: &x[4],
        w: &x[5],
        s_in: &x[6],
        scratch: &scratch,
        scale: word(3),
        chunk_size: size,
    };
    let r = op.backward(&d_out);
    let (_out, _next, fwd) = fused_chunk_forward_scratch(
        &x[0], &x[1], &x[2], &x[3], &x[4], &x[5], &x[6], word(3), size,
    )
    .unwrap();
    let f = fused_chunk_backward(&fwd, &x[1], &x[2], &x[4], &x[5], &d_out, word(3), size);
    for (a, b) in [
        (&r.d_q, &f.d_q),
        (&r.d_k, &f.d_k),
        (&r.d_v, &f.d_v),
        (&r.d_g, &f.d_g),
        (&r.d_b, &f.d_b),
        (&r.d_w, &f.d_w),
        (&r.d_s, &f.d_s),
    ] {
        assert_eq!(a.data, b.data);
        assert!(a.data.iter().any(|y| *y != word(0)));
    }
}

#[test]
fn passes_split_at_any_token() {
    let x = inputs(1, 2, 20, 2, 3);
    let cut = |y: &Tensor4<Word>, from: usize, to: usize| {
        let mut data = Vec::new();
        for h in 0..y.d1 {
            for t in from..to {
                data.extend(y.get_row(0, h, t));
            }
        }
        Tensor4::from_vec(data, 1, y.d1, to - from, y.d3)
    };
    let part = |from: usize, to: usize, s: &Tensor4<Word>, size: usize| {
        let y: Vec<Tensor4<Word>> = x[..6].iter().map(|y| cut(y, from, to)).collect();
        chunk_wy_forward(&y[0], &y[1], &y[2], &y[3], &y[4], &y[5], s, word(3), size)
    };
    let (out, next) = part(0, 20, &x[6], 5);
    let (by_kernels, kernel_next) = fused_chunk_forward(
        &x[0], &x[1], &x[2], &x[3], &x[4], &x[5], &x[6], word(3), 10,
    )
    .unwrap();
    assert_eq!(by_kernels.data, out.data);
    assert_eq!(kernel_next.data, next.data);
    for m in [1usize, 7, 19] {
        let (first, mid) = part(0, m, &x[6], 4);
        let (rest, end) = part(m, 20, &mid, 17);
        assert_eq!(first.data, cut(&out, 0, m).data);
        assert_eq!(rest.data, cut(&out, m, 20).data);
        assert_eq!(end.data, next.data);
    }
}

#[test]
fn masks_are_triangles() {
    let t = tril_matrix::<Word>(3);
    let ones: Vec<u64> = t.data.iter().map(|x| x.v).collect();
    assert_eq!(ones, vec![1, 0, 0, 1, 1, 0, 1, 1, 1]);
    let (causal, strict) = chunk_masks::<Word>(3);
    assert_eq!(causal.data, t.data);
    let below: Vec<u64> = strict.data.iter().map(|x| x.v).collect();
    assert_eq!(below, vec![0, 0, 0, 1, 0, 0, 1, 1, 0]);
}

#[test]
fn launches() {
    assert_eq!(
        chunk_launch(2, 3, 128, 64, 20, 16),
        Some(ChunkLaunch { nt: 8, heads: 6, blocks: 48, vtile: 8, lanes: 4, tiles: 3 })
    );
    assert_eq!(
        chunk_launch(1, 1, 64, 65, 5, 64),
        Some(ChunkLaunch { nt: 1, heads: 1, blocks: 1, vtile: 2, lanes: 1, tiles: 3 })
    );
    assert_eq!(chunk_launch(1, 1, 65, 4, 4, 64), None);
    assert_eq!(chunk_launch(1, 1, 0, 4, 4, 64), None);
    assert_eq!(chunk_launch(1, 1, 65, 4, 4, 65), None);
    assert_eq!(chunk_launch(1, 1, 64, 257, 4, 64), None);
    assert_eq!(chunk_launch(1, 1, 64, 4, 257, 64), None);
}

#[test]
fn dense_layouts() {
    assert!(is_dense(&vec![2, 3, 4, 5], &vec![60, 20, 5, 1]));
    assert!(!is_dense(&vec![2, 3, 4, 5], &vec![60, 5, 15, 1]));
    // A single token may be permuted.
    assert!(is_dense(&vec![2, 3, 1, 5], &vec![15, 5, 999, 1]));
    assert!(!is_dense(&vec![2, 3, 1, 5], &vec![15, 5, 5, 2]));
    assert!(is_dense(&vec![], &vec![]));
}

fn near(a: F32, b: f32) -> bool {
    (a.0 - b).abs() < 1e-6
}

#[test]
fn activations() {
    assert!(near(sigmoid(F32(0.0)), 0.5));
    assert!(near(sigmoid(F32(2.0)), 0.880797));
    assert!(near(silu(F32(2.0)), 1.761594));
    assert!(near(softplus(F32(0.0)), 0.6931472));
    assert!(near(softplus(F32(1.0)), 1.3132617));
    let doubled = Sigmoid { double: true }.apply(&vec![F32(2.0)]);
    assert!(near(doubled[0], 1.761594));
}

#[test]
fn linear_layers() {
    let weight = Matrix::from_vec(vec![word(1), word(2), word(3), word(4), word(5), word(6)], 2, 3);
    let plain = Linear { weight, bias: None };
    assert_eq!(plain.apply(&vec![word(10), word(1)]), vec![word(14), word(25), word(36)]);
    let biased = Linear { weight: plain.weight, bias: Some(vec![word(1), word(0), word(-1)]) };
    assert_eq!(biased.apply(&vec![word(10), word(1)]), vec![word(15), word(25), word(35)]);
}

#[test]
fn norms() {
    let x = Tensor3::from_vec(vec![F32(3.0), F32(4.0), F32(0.0), F32(5.0)], 1, 2, 2);
    let r = l2_normalize(&x, F32(0.0));
    assert!(near(r.get(0, 0, 0), 0.6) && near(r.get(0, 0, 1), 0.8) && near(r.get(0, 1, 1), 1.0));
    let y = Tensor4::from_vec(x.data, 1, 1, 2, 2);
    let r = l2_normalize_4d(&y, F32(11.0));
    assert!(near(r.get(0, 0, 0, 0), 0.5) && near(r.get(0, 0, 0, 1), 4.0 / 6.0));
    // rms of (3, 4) with eps 3.5 is 4; silu(2) = 1.761594.
    let gate = Tensor4::from_vec(vec![F32(2.0), F32(0.0), F32(0.0), F32(0.0)], 1, 1, 2, 2);
    let r = rms_norm_gate_per_head(&y, &gate, &vec![F32(8.0), F32(1.0)], F32(3.5));
    assert!(near(r.get(0, 0, 0, 0), 3.0 / 4.0 * 8.0 * 1.761594));
    assert!(near(r.get(0, 0, 0, 1), 0.0));
}

#[test]
fn normalized_rows_are_no_longer_than_one() {
    let x = Tensor3::from_vec((0..12).map(|i| F32(i as f32 * 0.7 - 3.0)).collect(), 1, 4, 3);
    for eps in [1e-6f32, 0.5, 40.0] {
        let r = l2_normalize(&x, F32(eps));
        for t in 0..4 {
            let square = |row: Vec<F32>| row.iter().map(|y| y.0 * y.0).sum::<f32>();
            let (long, short) = (square(x.get_row(0, t)), square(r.get_row(0, t)));
            assert!(0.0 <= short && short <= 1.0 + 1e-6);
            assert!(near(F32(short), long / (long + eps)));
        }
    }
    // A row of zeros stays one: the squared length of words is 0, the root of 0 + 1 is 1.
    let zeros = Tensor3::from_vec(vec![word(0); 3], 1, 1, 3);
    assert_eq!(l2_normalize(&zeros, word(1)).data, vec![word(0); 3]);
}

#[test]
fn short_convolution() {
    assert_eq!((SHORT_CONV_KERNEL, SHORT_CONV_CACHE), (4, 3));
    let x = Tensor3::from_vec((1..=5).map(|i| F32(i as f32)).collect(), 1, 5, 1);
    let w = Matrix::from_vec(vec![F32(1000.0), F32(100.0), F32(10.0), F32(1.0)], 1, 4);
    let (out, cache) = short_conv_1d(&x, &w, None);
    // silu of large numbers is the number itself.
    let expected = [1111.0, 1112.0, 1123.0, 1234.0, 2345.0];
    for t in 0..5 {
        assert_eq!(out.get(0, t, 0).0, expected[t]);
    }
    assert_eq!(cache.data, vec![F32(3.0), F32(4.0), F32(5.0)]);
    // Token by token, with the cache.
    let mut past: Option<Tensor3<F32>> = None;
    for t in 0..5 {
        let tok = Tensor3::from_vec(vec![x.get(0, t, 0)], 1, 1, 1);
        let (o, c) = short_conv_1d(&tok, &w, past.as_ref());
        assert_eq!(o.get(0, 0, 0).0, expected[t]);
        past = Some(c);
    }
    assert_eq!(past.unwrap().data, cache.data);
}

#[test]
fn heads_are_dealt_out() {
    let x = Tensor3::from_vec((0..12).map(word).collect(), 1, 2, 6);
    let h = x.split_heads(3, 2);
    assert_eq!(h.get_row(0, 1, 1), vec![word(8), word(9)]);
    let r = h.repeat_heads(2);
    assert_eq!([r.d0, r.d1, r.d2, r.d3], [1, 6, 2, 2]);
    assert_eq!(r.get_row(0, 3, 1), vec![word(8), word(9)]);
    let back = h.swap_middle().merge_heads();
    assert_eq!(back.data, x.data);
}

#[test]
fn matrix_operations() {
    let m = |x: &[i64], r: usize, c: usize| {
        Matrix::from_vec(x.iter().map(|y| word(*y)).collect(), r, c)
    };
    let a = m(&[1, 2, 3, 4], 2, 2);
    let b = m(&[5, 6, 7, 8], 2, 2);
    assert_eq!(linalg::product(&a, &b).data, m(&[19, 22, 43, 50], 2, 2).data);
    assert_eq!(linalg::product_rows(&a, &b).data, m(&[17, 23, 39, 53], 2, 2).data);
    assert_eq!(linalg::product_cols(&a, &b).data, m(&[26, 30, 38, 44], 2, 2).data);
    assert_eq!(linalg::cumulate(&a).data, m(&[1, 2, 4, 6], 2, 2).data);
    assert_eq!(linalg::scale(&a, word(3)).data, m(&[3, 6, 9, 12], 2, 2).data);
    assert_eq!(linalg::negate(&a).data, m(&[-1, -2, -3, -4], 2, 2).data);
    assert_eq!(a.transposed().data, m(&[1, 3, 2, 4], 2, 2).data);
}

#[test]
fn gates_lie_in_their_ranges() {
    let row: Vec<F32> = [-80.0, -3.0, 0.0, 0.5, 90.0].iter().map(|x| F32(*x)).collect();
    for (double, top) in [(false, 1.0), (true, 2.0)] {
        let gates = Sigmoid { double }.apply(&row);
        assert!(gates.iter().all(|g| 0.0 <= g.0 && g.0 <= top));
        assert!(near(gates[2], top / 2.0));
        assert!(near(gates[4], top));
    }
    let (a_log, dt_bias) = (vec![F32(0.5)], vec![F32(0.1); 5]);
    let factors = Matrix::from_vec(vec![F32(2.0); 5], 1, 5);
    for floor in [None, Some((F32(0.25), &factors))] {
        let gate = DecayGate { a_log: &a_log, dt_bias: &dt_bias, head_dim: 5, floor };
        let logs = gate.apply(&row);
        assert!(logs.iter().all(|g| g.0 <= 0.0));
        if floor.is_some() {
            assert!(logs.iter().all(|g| g.0.exp() >= 0.2499));
            assert!(near(F32(logs[4].0.exp()), 0.25));
        }
    }
}

#[test]
fn compensated_sums_keep_small_terms() {
    // 3e-8 is less than half the distance from 1 to the next number.
    let mut data = vec![F32(3e-8); 1001];
    data[0] = F32(1.0);
    let column = Matrix::from_vec(data, 1001, 1);
    assert_eq!(linalg::cumulate(&column).get(1000, 0), F32(1.0));
    assert_eq!(linalg::cumulate_compensated(&column).get(0, 0), F32(1.0));
    assert!(near(linalg::cumulate_compensated(&column).get(1000, 0), 1.00003));
    assert_ne!(linalg::cumulate_compensated(&column).get(1000, 0), F32(1.0));
    let whole = Matrix::from_vec(vec![word(3), word(-5), word(7), word(1)], 2, 2);
    let sums = vec![word(3), word(-5), word(10), word(-4)];
    assert_eq!(linalg::cumulate_compensated(&whole).data, sums);
}

#[test]
fn exact_numbers() {
    let three = word(3);
    assert_eq!(three.div(three), word(1));
    assert_eq!(word(21).div(word(7)), word(3));
    assert_eq!(word(5).exp(), word(1));
    assert_eq!(word(-4).add(word(4)), word(0));
    // exp(x + y e) = exp(x) (1 + y e), and division undoes multiplication.
    let d = Dual { re: word(7), eps: word(5) };
    assert_eq!(d.exp().eps, word(5));
    let p = d.mul(d.exp()).div(d.exp());
    assert_eq!((p.re, p.eps), (d.re, d.eps));
}
