//! Weights repacked by columns, their kernels, and the drivers over them.
use loken::arith::{Brain, Half, Real};
use loken::blocks::{BlockFormat, GgmlDType, Quantized};
use loken::bytes::{from_float_bytes, matmul_bytes, to_float_bytes, Counters};
use loken::drivers::{
    matmul_mxfp4_repacked_tiled, matmul_mxfp4_x8_tiled, matmul_q4_0_repacked_gemv,
    matmul_q4_0_repacked_tiled, matmul_q4k_plain, matmul_q4k_plain_pre, matmul_q4k_repacked,
    matmul_q4k_repacked_tiled, matmul_q4k_repacked_tiled_prequant, matmul_q5_0_repacked_tiled,
    matmul_q5k_repacked_tiled, matmul_q6k_repacked_tiled, matmul_q8_0_repacked_tiled,
    matmul_q8_0_x8_tiled, quantize_act_q8k, quantize_activation_q8k,
};
use loken::error::{Entry, Error};
use loken::ffn::ffn_swiglu_coop;
use loken::format::mxfp4::BlockMxFp4;
use loken::format::q4_0::{vec_dot_q4_0_q8_0, BlockQ4_0};
use loken::format::q4_k::{vec_dot_q4k_q8k, BlockQ4K};
use loken::format::q5_0::{vec_dot_q5_0_q8_0, BlockQ5_0};
use loken::format::q5_k::{vec_dot_q5k_q8k, BlockQ5K};
use loken::format::q6_k::{vec_dot_q6k_q8k, BlockQ6K};
use loken::format::q8_0::{vec_dot_q8_0_q8_0, BlockQ8_0};
use loken::format::q8_k::BlockQ8K;
use loken::layout::write_blocks;
use loken::matmul::matmul;
use loken::ops::activation::SiluGate;
use loken::ops::norm::RmsNorm;
use loken::repack_mxfp4;
use loken::repack_mxfp4_x8;
use loken::repack_q4_0;
use loken::repack_q4k;
use loken::repack_q4k_marlin::{dequant_repacked, repack_q4k as repack_parts};
use loken::repack_q5_0;
use loken::repack_q5k;
use loken::repack_q6k;
use loken::repack_q8_0;
use loken::repack_q8_0_x8;

/// Single precision, as the carrier the kernels run over.
#[derive(Clone, Copy, Debug, PartialEq)]
struct F(f32);

/// The error function, by its series near zero and its continued fraction far from it.
fn erf64(x: f64) -> f64 {
    let a = x.abs();
    let v = if a < 3.0 {
        let (mut term, mut sum, mut n) = (a, a, 0.0f64);
        while term.abs() > 1e-17 * sum.abs() && n < 200.0 {
            n += 1.0;
            term *= -a * a / n;
            sum += term / (2.0 * n + 1.0);
        }
        sum * 2.0 / std::f64::consts::PI.sqrt()
    } else {
        let mut f = 0.0f64;
        for k in (1..60).rev() {
            f = k as f64 / 2.0 / (a + f);
        }
        1.0 - (-a * a).exp() / (std::f64::consts::PI.sqrt() * (a + f))
    };
    if x < 0.0 {
        -v
    } else {
        v
    }
}

impl Real for F {
    fn zero() -> Self {
        F(0.0)
    }
    fn inf() -> Self {
        F(f32::INFINITY)
    }
    fn from_i32(i: i32) -> Self {
        F(i as f32)
    }
    fn from_count(n: usize) -> Self {
        F(n as f32)
    }
    fn from_bits(b: u32) -> Self {
        F(f32::from_bits(b))
    }
    fn to_bits(a: Self) -> u32 {
        a.0.to_bits()
    }
    fn from_half(h: Half) -> Self {
        F(half::f16::from_bits(h.bits).to_f32())
    }
    fn to_half(a: Self) -> Half {
        Half { bits: half::f16::from_f32(a.0).to_bits() }
    }
    fn to_brain(a: Self) -> Brain {
        Brain { bits: half::bf16::from_f32(a.0).to_bits() }
    }
    fn plus(a: Self, b: Self) -> Self {
        F(a.0 + b.0)
    }
    fn minus(a: Self, b: Self) -> Self {
        F(a.0 - b.0)
    }
    fn times(a: Self, b: Self) -> Self {
        F(a.0 * b.0)
    }
    fn over(a: Self, b: Self) -> Self {
        F(a.0 / b.0)
    }
    fn fused(a: Self, b: Self, c: Self) -> Self {
        F(a.0.mul_add(b.0, c.0))
    }
    fn negate(a: Self) -> Self {
        F(-a.0)
    }
    fn magnitude(a: Self) -> Self {
        F(a.0.abs())
    }
    fn greater(a: Self, b: Self) -> Self {
        F(a.0.max(b.0))
    }
    fn lesser(a: Self, b: Self) -> Self {
        F(a.0.min(b.0))
    }
    fn below(a: Self, b: Self) -> bool {
        a.0 < b.0
    }
    fn at_most(a: Self, b: Self) -> bool {
        a.0 <= b.0
    }
    fn same(a: Self, b: Self) -> bool {
        a.0 == b.0
    }
    fn nearest(a: Self) -> i32 {
        a.0.round() as i32
    }
    fn log2_floor(a: Self) -> i32 {
        a.0.log2().floor() as i32
    }
    fn root(a: Self) -> Self {
        F(a.0.sqrt())
    }
    fn exponential(a: Self) -> Self {
        F(a.0.exp())
    }
    fn logarithm(a: Self) -> Self {
        F(a.0.ln())
    }
    fn tangent_h(a: Self) -> Self {
        F(a.0.tanh())
    }
    fn error_fn(a: Self) -> Self {
        F(erf64(a.0 as f64) as f32)
    }
}

fn wrap(v: &[f32]) -> Vec<F> {
    v.iter().map(|&x| F(x)).collect()
}

fn half_of(x: f32) -> Half {
    Half { bits: half::f16::from_f32(x).to_bits() }
}

/// A generator of words.
fn words(seed: u64) -> impl FnMut() -> u64 {
    let mut s = seed;
    move || {
        s ^= s << 13;
        s ^= s >> 7;
        s ^= s << 17;
        s
    }
}

/// A generator of values between minus one and one.
fn units(seed: u64) -> impl FnMut() -> f32 {
    let mut next = words(seed);
    move || ((next() >> 40) as f32 / (1u64 << 24) as f32) * 2.0 - 1.0
}

fn q4_0_rows(rng: &mut impl FnMut() -> u64, count: usize) -> Vec<BlockQ4_0> {
    let mut rows = Vec::with_capacity(count);
    for _ in 0..count {
        let mut qs = [0u8; 16];
        for q in qs.iter_mut() {
            *q = (rng() & 0xFF) as u8;
        }
        rows.push(BlockQ4_0 { d: half_of((rng() % 1000) as f32 / 500.0 - 1.0), qs });
    }
    rows
}

fn q8_0_rows(rng: &mut impl FnMut() -> u64, count: usize, shift: f32) -> Vec<BlockQ8_0> {
    let mut rows = Vec::with_capacity(count);
    for _ in 0..count {
        let mut qs = [0i8; 32];
        for q in qs.iter_mut() {
            *q = ((rng() % 255) as i32 - 127) as i8;
        }
        rows.push(BlockQ8_0 { d: half_of((rng() % 1000) as f32 / 500.0 - shift), qs });
    }
    rows
}

fn quantised<T: Quantized<F>>(x: &[F]) -> Vec<T> {
    let mut q = vec![T::zeros(); x.len() / T::block_len()];
    T::quantize(x, &mut q);
    q
}

fn values(next: &mut impl FnMut() -> f32, n: usize, by: f32) -> Vec<F> {
    (0..n).map(|_| F(next() * by)).collect()
}

fn relative(got: &[F], want: &[F]) -> f64 {
    let (mut num, mut den) = (0f64, 0f64);
    for (g, w) in got.iter().zip(want) {
        num += ((g.0 - w.0) as f64).powi(2);
        den += (w.0 as f64).powi(2);
    }
    (num / den).sqrt()
}

fn farthest(got: &[F], want: &[F]) -> f32 {
    got.iter().zip(want).fold(0f32, |m, (a, b)| m.max((a.0 - b.0).abs()))
}

#[test]
fn repacked_q4_0_gemv_matches_vec_dot() {
    let (n, nb) = (16usize, 4usize);
    let mut rng = words(0x2545F4914F6CDD1Du64);
    let rows = q4_0_rows(&mut rng, n * nb);
    let act = q8_0_rows(&mut rng, nb, 0.0);
    let mut want = vec![0f32; n];
    for (r, w) in want.iter_mut().enumerate() {
        *w = <BlockQ4_0 as BlockFormat<F>>::dot(&rows[r * nb..r * nb + nb], &act).0;
    }
    let packed = repack_q4_0::repack(&rows, n, nb);
    let mut got = vec![0f32; n];
    let mut got_scalar = vec![0f32; n];
    for g in 0..n / 8 {
        let bgrp = &packed[g * nb * 8..(g + 1) * nb * 8];
        let mut local = [F(0.0); 8];
        repack_q4_0::gemv_group_scalar(bgrp, &act, nb, &mut local);
        for j in 0..8 {
            got_scalar[g * 8 + j] = local[j].0;
        }
        repack_q4_0::gemv_group_avx2(bgrp, &act, nb, &mut local);
        for j in 0..8 {
            got[g * 8 + j] = local[j].0;
        }
    }
    for r in 0..n {
        let tol = 1e-2 + 1e-3 * want[r].abs();
        assert!(
            (want[r] - got_scalar[r]).abs() <= tol,
            "scalar row {r}: want {} got {}",
            want[r],
            got_scalar[r]
        );
        assert!(
            (want[r] - got[r]).abs() <= tol,
            "row {r}: want {} got {}",
            want[r],
            got[r]
        );
    }
}

/// Columns of packed blocks against their scalar definition, for every tile height.
fn tiles_agree<B, A>(
    packed: &[B],
    per_group: usize,
    groups: usize,
    acts: &[A],
    nb: usize,
    m: usize,
    bound: f32,
    scalar: fn(&[B], &[A], usize, &mut [F]),
    tiled: fn(&[B], &[&[A]], usize, &mut [F]),
) {
    for g in 0..groups {
        let bgrp = &packed[g * per_group..(g + 1) * per_group];
        for mt in 1..=m {
            let refs: Vec<&[A]> = (0..mt).map(|t| &acts[t * nb..(t + 1) * nb]).collect();
            let mut want_t = vec![F(0.0); mt * 8];
            for (t, a) in refs.iter().enumerate() {
                scalar(bgrp, a, nb, &mut want_t[t * 8..t * 8 + 8]);
            }
            let mut got = [F(0.0); 64];
            tiled(bgrp, &refs, nb, &mut got);
            for (i, w) in want_t.iter().enumerate() {
                let rel = (got[i].0 - w.0).abs() / w.0.abs().max(1e-3);
                assert!(rel < bound, "gemm mt={mt} lane {i}: got {} want {}", got[i].0, w.0);
            }
        }
    }
}

/// Columns of packed blocks against each row's own dot product.
fn columns_agree<B, A>(
    packed: &[B],
    per_group: usize,
    want: &[f32],
    act: &[A],
    nb: usize,
    scalar: fn(&[B], &[A], usize, &mut [F]),
) {
    for g in 0..want.len() / 8 {
        let bgrp = &packed[g * per_group..(g + 1) * per_group];
        let mut got = [F(0.0); 8];
        scalar(bgrp, act, nb, &mut got);
        for c in 0..8 {
            let r = want[g * 8 + c];
            let rel = (r - got[c].0).abs() / r.abs().max(1e-3);
            assert!(
                rel < 1e-4,
                "oracle col {}: dot {r} vs {} rel {rel}",
                g * 8 + c,
                got[c].0
            );
        }
    }
}

#[test]
fn repacked_q5_0_matches_vec_dot_and_oracle() {
    let (n, nb) = (16usize, 4usize);
    let mut rng = words(0x9E3779B97F4A7C15u64);
    let mut rows = Vec::with_capacity(n * nb);
    for _ in 0..n * nb {
        let mut qs = [0u8; 16];
        for q in qs.iter_mut() {
            *q = (rng() & 0xFF) as u8;
        }
        let mut qh = [0u8; 4];
        for h in qh.iter_mut() {
            *h = (rng() & 0xFF) as u8;
        }
        rows.push(BlockQ5_0 { d: half_of((rng() % 1000) as f32 / 500.0 - 1.0), qh, qs });
    }
    let m = 8usize;
    let acts = q8_0_rows(&mut rng, m * nb, 0.0);
    let packed = repack_q5_0::repack(&rows, n, nb);
    let want: Vec<f32> = (0..n)
        .map(|c| vec_dot_q5_0_q8_0::<F>(&rows[c * nb..c * nb + nb], &acts[0..nb]).0)
        .collect();
    columns_agree(&packed, nb * 8, &want, &acts[0..nb], nb, repack_q5_0::gemv_group_scalar::<F>);
    tiles_agree(
        &packed,
        nb * 8,
        n / 8,
        &acts,
        nb,
        m,
        1e-4,
        repack_q5_0::gemv_group_scalar::<F>,
        repack_q5_0::gemm_group_avx2::<F>,
    );
}

#[test]
fn repacked_q8_0_matches_vec_dot_and_oracle() {
    let (n, nb) = (16usize, 4usize);
    let mut rng = words(0x14057B7EF767814Fu64);
    let rows = q8_0_rows(&mut rng, n * nb, 1.0);
    let m = 8usize;
    let acts = q8_0_rows(&mut rng, m * nb, 0.0);
    let packed = repack_q8_0::repack(&rows, n, nb);
    let want: Vec<f32> = (0..n)
        .map(|c| vec_dot_q8_0_q8_0::<F>(&rows[c * nb..c * nb + nb], &acts[0..nb]).0)
        .collect();
    columns_agree(&packed, nb * 8, &want, &acts[0..nb], nb, repack_q8_0::gemv_group_scalar::<F>);
    tiles_agree(
        &packed,
        nb * 8,
        n / 8,
        &acts,
        nb,
        m,
        1e-4,
        repack_q8_0::gemv_group_scalar::<F>,
        repack_q8_0::gemm_group_avx2::<F>,
    );
}

#[test]
fn repacked_q4_0_gemm_matches_vec_dot_and_oracle() {
    let (n, nb) = (16usize, 4usize);
    let mut rng = words(0x2545F4914F6CDD1Du64);
    let rows = q4_0_rows(&mut rng, n * nb);
    let m = 8usize;
    let acts = q8_0_rows(&mut rng, m * nb, 0.0);
    let packed = repack_q4_0::repack(&rows, n, nb);
    let want: Vec<f32> = (0..n)
        .map(|c| vec_dot_q4_0_q8_0::<F>(&rows[c * nb..c * nb + nb], &acts[0..nb]).0)
        .collect();
    columns_agree(&packed, nb * 8, &want, &acts[0..nb], nb, repack_q4_0::gemv_group_scalar::<F>);
    tiles_agree(
        &packed,
        nb * 8,
        n / 8,
        &acts,
        nb,
        m,
        1e-4,
        repack_q4_0::gemv_group_scalar::<F>,
        repack_q4_0::gemm_group_avx2::<F>,
    );
}

/// Weights `[n, k]` and an activation `[m, k]`, and their product by the dense path.
fn dense<T: BlockFormat<F> + loken::layout::Stored<F>>(
    dtype: GgmlDType,
    shape: (usize, usize, usize),
    seed: u64,
) -> (Vec<T>, Vec<F>, Vec<F>) {
    let (m, k, n) = shape;
    let mut rng = units(seed);
    let wf = values(&mut rng, n * k, 4.0);
    let wq: Vec<T> = quantised(&wf);
    let wbytes = write_blocks::<F, T>(&wq);
    let lhs = values(&mut rng, m * k, 3.0);
    let mut want = vec![F(0.0); m * n];
    matmul_bytes(&mut Counters::new(), dtype, shape, &lhs, &wbytes, &mut want).unwrap();
    (wq, lhs, want)
}

#[test]
fn q4_0_full_matmul_matches_reference() {
    let shape = (13usize, 2048usize, 512usize);
    let (wq, lhs, want) = dense::<BlockQ4_0>(GgmlDType::Q4_0, shape, 0x8A5CD789635D2DFFu64);
    let g8 = repack_q4_0::repack(&wq, shape.2, shape.1 / 32);
    let mut got = vec![F(0.0); want.len()];
    matmul_q4_0_repacked_tiled(shape, &lhs, &g8, &mut got).unwrap();
    assert_eq!(
        farthest(&got, &want),
        0.0,
        "full q4_0 matmul must match reference bit-for-bit"
    );
}

#[test]
fn q5_0_full_matmul_matches_reference() {
    let shape = (13usize, 2048usize, 512usize);
    let (wq, lhs, want) = dense::<BlockQ5_0>(GgmlDType::Q5_0, shape, 0x243F6A8885A308D3u64);
    let g8 = repack_q5_0::repack(&wq, shape.2, shape.1 / 32);
    let mut got = vec![F(0.0); want.len()];
    matmul_q5_0_repacked_tiled(shape, &lhs, &g8, &mut got).unwrap();
    assert_eq!(
        farthest(&got, &want),
        0.0,
        "full q5_0 matmul must match reference bit-for-bit"
    );
}

#[test]
fn q8_0_full_matmul_matches_reference() {
    let shape = (13usize, 2048usize, 512usize);
    let (wq, lhs, want) = dense::<BlockQ8_0>(GgmlDType::Q8_0, shape, 0xB5026F5AA96619E9u64);
    let g8 = repack_q8_0::repack(&wq, shape.2, shape.1 / 32);
    let mut got = vec![F(0.0); want.len()];
    matmul_q8_0_repacked_tiled(shape, &lhs, &g8, &mut got).unwrap();
    assert_eq!(
        farthest(&got, &want),
        0.0,
        "full q8_0 matmul must match reference bit-for-bit"
    );
}

#[test]
fn mxfp4_full_matmul_matches_reference() {
    let shape = (13usize, 2048usize, 512usize);
    let (wq, lhs, want) = dense::<BlockMxFp4>(GgmlDType::MxFp4, shape, 0x51D3F00DABCDEF01u64);
    let g8 = repack_mxfp4::repack(&wq, shape.2, shape.1 / 32);
    let mut got = vec![F(0.0); want.len()];
    matmul_mxfp4_repacked_tiled(shape, &lhs, &g8, &mut got).unwrap();
    assert_eq!(
        farthest(&got, &want),
        0.0,
        "full mxfp4 matmul must match reference bit-for-bit"
    );
}

#[test]
fn q5k_full_matmul_matches_reference() {
    let shape = (13usize, 2048usize, 512usize);
    let (wq, lhs, want) = dense::<BlockQ5K>(GgmlDType::Q5K, shape, 0x9E3779B97F4A7C15u64);
    let x8 = repack_q5k::repack(&wq, shape.2, shape.1 / 256);
    let mut got = vec![F(0.0); want.len()];
    matmul_q5k_repacked_tiled(shape, &lhs, &x8, &mut got).unwrap();
    assert_eq!(
        farthest(&got, &want),
        0.0,
        "full q5k matmul must match reference bit-for-bit"
    );
}

#[test]
fn mxfp4_x8_scalar_matches_reference() {
    let shape = (13usize, 2048usize, 512usize);
    let (wq, lhs, want) = dense::<BlockMxFp4>(GgmlDType::MxFp4, shape, 0x1234_5678_9ABC_DEF1u64);
    let mut got = vec![F(0.0); want.len()];
    repack_mxfp4_x8::matmul_scalar(shape, &lhs, &wq, &mut got);
    let rel = relative(&got, &want);
    assert!(
        rel < 1e-2,
        "interleaved scalar oracle rel error {rel} too high (layout bug?)"
    );
}

/// A generator of short words.
fn shorts(seed: u64) -> impl FnMut() -> u32 {
    let mut next = words(seed);
    move || (next() >> 33) as u32
}

fn fill_act(blk: &mut repack_mxfp4_x8::BlockQ8_0x4, rng: &mut impl FnMut() -> u32) {
    for m in 0..4 {
        blk.d[m] = half_of(0.01 + (rng() % 100) as f32 * 0.001);
    }
    for x in blk.qs.iter_mut() {
        *x = ((rng() % 255) as i32 - 127) as i8;
    }
}

fn empty_act(nb: usize) -> Vec<repack_mxfp4_x8::BlockQ8_0x4> {
    vec![repack_mxfp4_x8::BlockQ8_0x4 { d: [Half { bits: 0 }; 4], qs: [0i8; 128] }; nb]
}

#[test]
fn mxfp4_x8_avx2_matches_scalar() {
    let nb = 6usize;
    let mut rng = shorts(0xDEAD_BEEF_1357_9BDFu64);
    let mut b = vec![repack_mxfp4_x8::BlockMxFp4x8 { e: [0u8; 8], qs: [0u8; 128] }; nb];
    let mut a = empty_act(nb);
    for blk in 0..nb {
        for c in 0..8 {
            b[blk].e[c] = (120 + (rng() % 16)) as u8;
        }
        for x in b[blk].qs.iter_mut() {
            *x = (rng() & 0xFF) as u8;
        }
        fill_act(&mut a[blk], &mut rng);
    }
    let mut want = [F(0.0); 32];
    repack_mxfp4_x8::gemm_scalar(&a, &b, nb, &mut want);
    let mut got = [F(0.0); 32];
    repack_mxfp4_x8::gemm_group_avx2(&a, &b, nb, &mut got);
    let rel = relative(&got, &want);
    assert!(
        rel < 1e-4,
        "AVX2 kernel rel error {rel} vs scalar oracle too high (shuffle bug?)"
    );
}

#[test]
fn mxfp4_x8_gemm16_matches_scalar() {
    let nb = 5usize;
    let mut rng = shorts(0x0F1E_2D3C_4B5A_6978u64);
    let mut b = vec![repack_mxfp4_x8::BlockMxFp4x8 { e: [0u8; 8], qs: [0u8; 128] }; nb];
    for blk in b.iter_mut() {
        for c in 0..8 {
            blk.e[c] = (120 + (rng() % 16)) as u8;
        }
        for x in blk.qs.iter_mut() {
            *x = (rng() & 0xFF) as u8;
        }
    }
    let mut mkgrp = || {
        let mut g = empty_act(nb);
        for blk in g.iter_mut() {
            fill_act(blk, &mut rng);
        }
        g
    };
    let (a0, a1, a2, a3) = (mkgrp(), mkgrp(), mkgrp(), mkgrp());
    let mut got = [F(0.0); 128];
    repack_mxfp4_x8::gemm_group16_avx2(&a0, &a1, &a2, &a3, &b, nb, &mut got);
    for (rp, ag) in [&a0, &a1, &a2, &a3].iter().enumerate() {
        let mut want = [F(0.0); 32];
        repack_mxfp4_x8::gemm_scalar(ag, &b, nb, &mut want);
        assert!(
            relative(&got[rp * 32..rp * 32 + 32], &want) < 1e-4,
            "gemm16 row-group {rp} mismatch"
        );
    }
}

#[test]
fn mxfp4_x8_tiled_driver_matches_reference() {
    let shape = (20usize, 1024usize, 256usize);
    let (wq, lhs, want) = dense::<BlockMxFp4>(GgmlDType::MxFp4, shape, 0xABCD_1234_5678_9EF0u64);
    let x8 = repack_mxfp4_x8::repack(&wq, shape.2, shape.1 / 32);
    let mut got = vec![F(0.0); want.len()];
    matmul_mxfp4_x8_tiled(shape, &lhs, &x8, &mut got).unwrap();
    assert!(relative(&got, &want) < 1e-2, "x8 tiled driver rel error too high");
}

#[test]
fn q8_0_x8_scalar_matches_reference() {
    let shape = (13usize, 1024usize, 256usize);
    let (wq, lhs, want) = dense::<BlockQ8_0>(GgmlDType::Q8_0, shape, 0x7788_99AA_BBCC_DDEEu64);
    let mut got = vec![F(0.0); want.len()];
    repack_q8_0_x8::matmul_scalar(shape, &lhs, &wq, &mut got);
    let rel = relative(&got, &want);
    assert!(
        rel < 1e-2,
        "q8_0 x8 scalar oracle rel error {rel} too high (layout bug?)"
    );
}

#[test]
fn the_q8_0_x8_driver_matches_the_scalar_one() {
    let shape = (20usize, 512usize, 64usize);
    let (wq, lhs, want) = dense::<BlockQ8_0>(GgmlDType::Q8_0, shape, 0x1357_9BDF_0246_8ACEu64);
    let x8 = repack_q8_0_x8::repack(&wq, shape.2, shape.1 / 32);
    let mut got = vec![F(0.0); want.len()];
    matmul_q8_0_x8_tiled(shape, &lhs, &x8, &mut got).unwrap();
    assert!(relative(&got, &want) < 1e-2);
}

#[test]
fn q8_0_x8_avx2_matches_scalar() {
    let nb = 5usize;
    let mut rng = shorts(0x2468_ACE0_1357_9BDFu64);
    let mut b = vec![repack_q8_0_x8::BlockQ8_0x8 { d: [Half { bits: 0 }; 8], qs: [0i8; 256] }; nb];
    for blk in b.iter_mut() {
        for c in 0..8 {
            blk.d[c] = half_of(0.02 + (rng() % 50) as f32 * 0.002);
        }
        for x in blk.qs.iter_mut() {
            *x = ((rng() % 255) as i32 - 127) as i8;
        }
    }
    let mut mkgrp = || {
        let mut g = empty_act(nb);
        for blk in g.iter_mut() {
            fill_act(blk, &mut rng);
        }
        g
    };
    let (a0, a1, a2, a3) = (mkgrp(), mkgrp(), mkgrp(), mkgrp());
    // 4-row tile
    for ag in [&a0, &a1, &a2, &a3] {
        let mut want = [F(0.0); 32];
        repack_q8_0_x8::gemm_scalar(ag, &b, nb, &mut want);
        let mut got = [F(0.0); 32];
        repack_q8_0_x8::gemm_group_avx2(ag, &b, nb, &mut got);
        assert!(relative(&got, &want) < 1e-4, "q8_0 4-row AVX2 mismatch");
    }
    // 16-row tile
    let mut got = [F(0.0); 128];
    repack_q8_0_x8::gemm_group16_avx2(&a0, &a1, &a2, &a3, &b, nb, &mut got);
    for (rp, ag) in [&a0, &a1, &a2, &a3].iter().enumerate() {
        let mut want = [F(0.0); 32];
        repack_q8_0_x8::gemm_scalar(ag, &b, nb, &mut want);
        assert!(
            relative(&got[rp * 32..rp * 32 + 32], &want) < 1e-4,
            "q8_0 16-row AVX2 row-group {rp} mismatch"
        );
    }
}

#[test]
fn repacked_q5k_matches_vec_dot_and_oracle() {
    let (n, nb) = (16usize, 4usize);
    let mut rng = units(0xC2B2AE3D27D4EB4Fu64);
    let k = nb * 256;
    let wf = values(&mut rng, n * k, 4.0);
    let wq: Vec<BlockQ5K> = quantised(&wf);
    let m = 8usize;
    let aq: Vec<BlockQ8K<F>> = quantised(&values(&mut rng, m * k, 3.0));
    let x8 = repack_q5k::repack(&wq, n, nb);
    let want: Vec<f32> = (0..n)
        .map(|c| vec_dot_q5k_q8k(&wq[c * nb..c * nb + nb], &aq[0..nb]).0)
        .collect();
    columns_agree(&x8, nb, &want, &aq[0..nb], nb, repack_q5k::gemv_group_scalar::<F>);
    tiles_agree(
        &x8,
        nb,
        n / 8,
        &aq,
        nb,
        m,
        1e-3,
        repack_q5k::gemv_group_scalar::<F>,
        repack_q5k::gemm_group_avx2::<F>,
    );
}

#[test]
fn repacked_q6k_gemv_matches_vec_dot() {
    let (k, n) = (512usize, 16usize);
    let nb = k / 256;
    let mut next = units(0x0FED_CBA9_8765_4321u64);
    let wq: Vec<BlockQ6K> = quantised(&values(&mut next, n * k, 4.0));
    let aq: Vec<BlockQ8K<F>> = quantised(&values(&mut next, k, 3.0));
    let reference: Vec<f32> = (0..n)
        .map(|col| vec_dot_q6k_q8k(&wq[col * nb..(col + 1) * nb], &aq).0)
        .collect();
    let x8 = repack_q6k::repack(&wq, n, nb);
    columns_agree(&x8, nb, &reference, &aq, nb, repack_q6k::gemv_group_scalar::<F>);
}

#[test]
fn repacked_q6k_gemm_matches_scalar_oracle() {
    let (k, n) = (512usize, 16usize);
    let nb = k / 256;
    let mut next = units(0x0FED_CBA9_8765_4321u64);
    let wq: Vec<BlockQ6K> = quantised(&values(&mut next, n * k, 4.0));
    let m = 8usize;
    let aq: Vec<BlockQ8K<F>> = quantised(&values(&mut next, m * k, 3.0));
    let x8 = repack_q6k::repack(&wq, n, nb);
    tiles_agree(
        &x8,
        nb,
        n / 8,
        &aq,
        nb,
        m,
        1e-4,
        repack_q6k::gemv_group_scalar::<F>,
        repack_q6k::gemm_group_avx2::<F>,
    );
}

#[test]
fn repacked_q4k_gemm_matches_scalar_oracle() {
    let (k, n) = (512usize, 16usize);
    let nb = k / 256;
    let mut next = units(0x1234_5678_9ABC_DEF0u64);
    let wq: Vec<BlockQ4K> = quantised(&values(&mut next, n * k, 0.1));
    let m = 8usize;
    let aq: Vec<BlockQ8K<F>> = quantised(&values(&mut next, m * k, 1.0));
    let x8 = repack_q4k::repack(&wq, n, nb);
    for g in 0..n / 8 {
        let bgrp = &x8[g * nb..(g + 1) * nb];
        for mt in 1..=m {
            let act_refs: Vec<&[BlockQ8K<F>]> =
                (0..mt).map(|t| &aq[t * nb..(t + 1) * nb]).collect();
            let mut want = vec![F(0.0); mt * 8];
            for (t, a) in act_refs.iter().enumerate() {
                repack_q4k::gemv_group_scalar(bgrp, a, nb, &mut want[t * 8..t * 8 + 8]);
            }
            for variant in 0..2 {
                let mut got = [F(0.0); 64];
                if variant == 0 {
                    repack_q4k::gemm_group_avx2_rt::<F, 1>(bgrp, &act_refs, nb, &mut got);
                } else {
                    let gs = repack_q4k::prep_group_scales(bgrp, nb);
                    repack_q4k::gemm_group_avx2_pre_rt::<F, 1>(bgrp, &act_refs, nb, &gs, &mut got);
                }
                for (i, w) in want.iter().enumerate() {
                    let rel = (got[i].0 - w.0).abs() / w.0.abs().max(1e-3);
                    assert!(
                        rel < 1e-4,
                        "variant {variant} mt={mt} lane {i}: got {} want {}",
                        got[i].0,
                        w.0
                    );
                }
            }
        }
    }
}

#[test]
fn repacked_q4k_gemv_matches_vec_dot() {
    let (k, n) = (512usize, 16usize);
    let nb = k / 256;
    let seed = 0x1234_5678_9ABC_DEF0u64;
    let mut next = units(seed);
    let wq: Vec<BlockQ4K> = quantised(&values(&mut next, n * k, 0.1));
    let aq: Vec<BlockQ8K<F>> = quantised(&values(&mut next, k, 1.0));
    let reference: Vec<f32> = (0..n)
        .map(|col| vec_dot_q4k_q8k(&wq[col * nb..(col + 1) * nb], &aq).0)
        .collect();
    let x8 = repack_q4k::repack(&wq, n, nb);
    columns_agree(&x8, nb, &reference, &aq, nb, repack_q4k::gemv_group_scalar::<F>);
    columns_agree(&x8, nb, &reference, &aq, nb, repack_q4k::gemv_group_avx2::<F>);

    // Plain scales and packed ones are bit-identical.
    let x8_v2 = repack_q4k::repack_v2(&wq, n, nb);
    for g in 0..n / 8 {
        let mut out_v2 = [F(0.0); 8];
        let mut out_plain = [F(0.0); 8];
        repack_q4k::gemv_group_avx2_v2(&x8_v2[g * nb..(g + 1) * nb], &aq, nb, &mut out_v2);
        repack_q4k::gemv_group_avx2_plain(&x8[g * nb..(g + 1) * nb], &aq, nb, &mut out_plain);
        for c in 0..8 {
            assert!(
                out_plain[c].0.to_bits() == out_v2[c].0.to_bits(),
                "group {g} col {c}: plain {} vs v2 {} (not bit-identical)",
                out_plain[c].0,
                out_v2[c].0
            );
        }
    }

    // The drivers, across tile boundaries.
    for m in [1usize, 3, 4, 7, 9] {
        let lhs = values(&mut units(seed), m * k, 1.0);
        let mut dst_ref = vec![F(0.0); m * n];
        matmul::<F, BlockQ4K>((m, k, n), &lhs, &wq, &mut dst_ref).unwrap();
        let mut dst_x8 = vec![F(0.0); m * n];
        matmul_q4k_repacked((m, k, n), &lhs, &x8, &mut dst_x8).unwrap();
        let mut dst_tiled = vec![F(0.0); m * n];
        matmul_q4k_repacked_tiled((m, k, n), &lhs, &x8, &mut dst_tiled).unwrap();
        for i in 0..m * n {
            let r = dst_ref[i].0;
            let rel = (r - dst_x8[i].0).abs() / r.abs().max(1e-3);
            assert!(
                rel < 1e-4,
                "m={m} idx {i}: x8 {} vs ref {r} rel {rel}",
                dst_x8[i].0
            );
            let relt = (r - dst_tiled[i].0).abs() / r.abs().max(1e-3);
            assert!(
                relt < 1e-4,
                "m={m} idx {i}: tiled {} vs ref {r} rel {relt}",
                dst_tiled[i].0
            );
        }
    }
}

#[test]
fn the_q4k_drivers_agree_on_a_shared_activation() {
    let (k, n) = (512usize, 16usize);
    let nb = k / 256;
    let mut next = units(0x5555_AAAA_1234_4321u64);
    let wq: Vec<BlockQ4K> = quantised(&values(&mut next, n * k, 0.1));
    let x8 = repack_q4k::repack(&wq, n, nb);
    let lhs = values(&mut next, 5 * k, 1.0);

    let mut tiled = vec![F(0.0); 5 * n];
    matmul_q4k_repacked_tiled((5, k, n), &lhs, &x8, &mut tiled).unwrap();
    let acts = quantize_act_q8k(&lhs, 5, k);
    let mut shared = vec![F(0.0); 5 * n];
    matmul_q4k_repacked_tiled_prequant((5, k, n), &acts, &x8, &mut shared).unwrap();
    assert_eq!(tiled, shared);
    let mut plain = vec![F(0.0); 5 * n];
    matmul_q4k_plain((5, k, n), &lhs, &x8, &mut plain).unwrap();
    assert_eq!(tiled, plain);

    let one = quantize_activation_q8k(&lhs[..k], nb);
    let mut from_one = vec![F(0.0); n];
    matmul_q4k_plain_pre((k, n), &one, &x8, &mut from_one).unwrap();
    let mut alone = vec![F(0.0); n];
    matmul_q4k_plain((1, k, n), &lhs[..k], &x8, &mut alone).unwrap();
    assert_eq!(from_one, alone);
}

#[test]
fn the_other_drivers_match_the_dense_product() {
    let shape = (3usize, 512usize, 16usize);
    let (wq, lhs, want) = dense::<BlockQ6K>(GgmlDType::Q6K, shape, 0x0102_0304_0506_0708u64);
    let x8 = repack_q6k::repack(&wq, 16, 2);
    let mut got = vec![F(0.0); want.len()];
    matmul_q6k_repacked_tiled(shape, &lhs, &x8, &mut got).unwrap();
    assert!(relative(&got, &want) < 1e-4);

    let (wq, lhs, want) = dense::<BlockQ4_0>(GgmlDType::Q4_0, shape, 0x1112_1314_1516_1718u64);
    let g8 = repack_q4_0::repack(&wq, 16, 16);
    let mut got = vec![F(0.0); want.len()];
    matmul_q4_0_repacked_gemv(shape, &lhs, &g8, &mut got).unwrap();
    assert_eq!(farthest(&got, &want), 0.0);
}

#[test]
fn repack_matches_reference_dequant() {
    let (n, k) = (16usize, 512usize);
    let mut next = units(0x1234_5678_9abc_def0u64);
    let w = values(&mut next, n * k, 0.7);
    let data = from_float_bytes(GgmlDType::Q4K, &w).unwrap();
    let mut reference = vec![F(0.0); n * k];
    to_float_bytes(GgmlDType::Q4K, &data, &mut reference).unwrap();

    let r = repack_parts(&data, n, k);
    let mine: Vec<F> = dequant_repacked(&r);

    assert_eq!(mine.len(), reference.len());
    let max_abs = farthest(&mine, &reference);
    assert!(max_abs < 1e-3, "repack dequant mismatch, max_abs={max_abs}");
}

#[test]
fn a_feed_forward_block_is_its_phases() {
    let (hidden, inter) = (256usize, 512usize);
    let mut next = units(0x0BAD_CAFE_1234_5678u64);
    let bytes = |next: &mut dyn FnMut() -> f32, n: usize| {
        let w: Vec<F> = (0..n).map(|_| F(next() * 0.1)).collect();
        from_float_bytes(GgmlDType::Q4K, &w).unwrap()
    };
    let gate = bytes(&mut next, inter * hidden);
    let up = bytes(&mut next, inter * hidden);
    let down = bytes(&mut next, hidden * inter);
    let start = values(&mut next, hidden, 1.0);
    let norm = RmsNorm { weight: vec![F(1.0); hidden], eps: F(1e-6) };

    let mut x = start.clone();
    let (mut nb, mut gu, mut act) =
        (vec![F(0.0); hidden], vec![F(0.0); 2 * inter], vec![F(0.0); inter]);
    let ran = ffn_swiglu_coop(
        &mut x,
        Some((GgmlDType::Q4K, hidden, inter, &gate)),
        (GgmlDType::Q4K, hidden, inter, &up),
        (GgmlDType::Q4K, inter, hidden, &down),
        None,
        &norm,
        &SiluGate,
        &mut nb,
        &mut gu,
        &mut act,
    );
    assert_eq!(ran, Ok(true));

    let mut counters = Counters::new();
    let mut g = vec![F(0.0); inter];
    let mut u = vec![F(0.0); inter];
    matmul_bytes(&mut counters, GgmlDType::Q4K, (1, hidden, inter), &nb, &gate, &mut g).unwrap();
    matmul_bytes(&mut counters, GgmlDType::Q4K, (1, hidden, inter), &nb, &up, &mut u).unwrap();
    assert_eq!(gu[..inter], g[..]);
    assert_eq!(gu[inter..], u[..]);
    let gated: Vec<F> = (0..inter)
        .map(|i| F(g[i].0 * (1.0 / (1.0 + (-g[i].0).exp())) * u[i].0))
        .collect();
    assert_eq!(act, gated);
    let mut d = vec![F(0.0); hidden];
    matmul_bytes(&mut counters, GgmlDType::Q4K, (1, inter, hidden), &gated, &down, &mut d)
        .unwrap();
    for i in 0..hidden {
        assert_eq!(x[i].0, start[i].0 + d[i].0);
    }

    // Buffers that do not fit leave everything as it was.
    let mut y = start.clone();
    let mut short = vec![F(0.0); hidden - 1];
    let declined = ffn_swiglu_coop(
        &mut y,
        Some((GgmlDType::Q4K, hidden, inter, &gate)),
        (GgmlDType::Q4K, hidden, inter, &up),
        (GgmlDType::Q4K, inter, hidden, &down),
        None,
        &norm,
        &SiluGate,
        &mut short,
        &mut gu,
        &mut act,
    );
    assert_eq!(declined, Ok(false));
    assert_eq!(y, start);
}

#[test]
fn a_product_refuses_an_activation_of_another_size() {
    let wq = quantised::<BlockQ4K>(&vec![F(0.5); 8 * 256]);
    let mut dst = vec![F(0.0); 8];
    assert_eq!(
        matmul::<F, BlockQ4K>((1, 256, 8), &vec![F(1.0); 255], &wq, &mut dst),
        Err(Error::Activation { entry: Entry::Matmul, len: 255, m: 1, k: 256, n: 8 })
    );
}
