//! The quantisation formats, their dot products, and the float carriers.
use loken::arith::{Brain, Half, Real};
use loken::blocks::{BlockFormat, GgmlDType, Quantized};
use loken::bytes::{
    from_float_bytes, matmul_bytes, matmul_bytes_multi, matmul_f16_bytes,
    matmul_f16_gate_up_silu_bytes, read_product, take_cpu_bytes, take_cpu_mac_counters,
    to_float_bytes, Counters, Multiply,
};
use loken::error::{Entry, Error};
use loken::float::Single;
use loken::format::iq2_xxs::BlockIq2Xxs;
use loken::format::mxfp4::{vec_dot_mxfp4_q8_0, BlockMxFp4};
use loken::format::q2_k::{vec_dot_q2k_q8k, BlockQ2K};
use loken::format::q3_k::{vec_dot_q3k_q8k, BlockQ3K};
use loken::format::q4_0::{vec_dot_q4_0_q8_0, BlockQ4_0};
use loken::format::q4_1::{vec_dot_q4_1_q8_1, BlockQ4_1};
use loken::format::q4_k::{vec_dot_q4k_q8k, BlockQ4K};
use loken::format::q5_0::{vec_dot_q5_0_q8_0, BlockQ5_0};
use loken::format::q5_1::{vec_dot_q5_1_q8_1, BlockQ5_1};
use loken::format::q5_k::{vec_dot_q5k_q8k, BlockQ5K};
use loken::format::q6_k::{vec_dot_q6k_q8k, BlockQ6K};
use loken::format::q8_0::{vec_dot_q8_0_q8_0, BlockQ8_0};
use loken::format::q8_1::{vec_dot_q8_1_q8_1, BlockQ8_1};
use loken::format::q8_k::{vec_dot_q8k_q8k, BlockQ8K};
use loken::grid::{cell_share, gemv_grid};
use loken::kfit::Guided;
use loken::matmul::dot_columns;
use loken::repack_q4k::{sub_scales_and_mins, sub_scales_and_mins_bytes};
use loken::scale::{fit_signed_scale, magnitude_weights};

/// Single precision, as the carrier the kernels run over.
#[derive(Clone, Copy, Debug, PartialEq)]
struct F(f32);

/// The error function, by its series near zero and its continued fraction far from it.
fn erf64(x: f64) -> f64 {
    let a = x.abs();
    let v = if a < 3.0 {
        let (mut term, mut sum, mut n) = (a, a, 0.0f64);
        while term.abs() > 1e-17 * sum.abs() && n < 200.0 {
            n += 1.0;
            term *= -a * a / n;
            sum += term / (2.0 * n + 1.0);
        }
        sum * 2.0 / std::f64::consts::PI.sqrt()
    } else {
        let mut f = 0.0f64;
        for k in (1..60).rev() {
            f = k as f64 / 2.0 / (a + f);
        }
        1.0 - (-a * a).exp() / (std::f64::consts::PI.sqrt() * (a + f))
    };
    if x < 0.0 {
        -v
    } else {
        v
    }
}

impl Real for F {
    fn zero() -> Self {
        F(0.0)
    }
    fn inf() -> Self {
        F(f32::INFINITY)
    }
    fn from_i32(i: i32) -> Self {
        F(i as f32)
    }
    fn from_count(n: usize) -> Self {
        F(n as f32)
    }
    fn from_bits(b: u32) -> Self {
        F(f32::from_bits(b))
    }
    fn to_bits(a: Self) -> u32 {
        a.0.to_bits()
    }
    fn from_half(h: Half) -> Self {
        F(half::f16::from_bits(h.bits).to_f32())
    }
    fn to_half(a: Self) -> Half {
        Half { bits: half::f16::from_f32(a.0).to_bits() }
    }
    fn to_brain(a: Self) -> Brain {
        Brain { bits: half::bf16::from_f32(a.0).to_bits() }
    }
    fn plus(a: Self, b: Self) -> Self {
        F(a.0 + b.0)
    }
    fn minus(a: Self, b: Self) -> Self {
        F(a.0 - b.0)
    }
    fn times(a: Self, b: Self) -> Self {
        F(a.0 * b.0)
    }
    fn over(a: Self, b: Self) -> Self {
        F(a.0 / b.0)
    }
    fn fused(a: Self, b: Self, c: Self) -> Self {
        F(a.0.mul_add(b.0, c.0))
    }
    fn negate(a: Self) -> Self {
        F(-a.0)
    }
    fn magnitude(a: Self) -> Self {
        F(a.0.abs())
    }
    fn greater(a: Self, b: Self) -> Self {
        F(a.0.max(b.0))
    }
    fn lesser(a: Self, b: Self) -> Self {
        F(a.0.min(b.0))
    }
    fn below(a: Self, b: Self) -> bool {
        a.0 < b.0
    }
    fn at_most(a: Self, b: Self) -> bool {
        a.0 <= b.0
    }
    fn same(a: Self, b: Self) -> bool {
        a.0 == b.0
    }
    fn nearest(a: Self) -> i32 {
        a.0.round() as i32
    }
    fn log2_floor(a: Self) -> i32 {
        a.0.log2().floor() as i32
    }
    fn root(a: Self) -> Self {
        F(a.0.sqrt())
    }
    fn exponential(a: Self) -> Self {
        F(a.0.exp())
    }
    fn logarithm(a: Self) -> Self {
        F(a.0.ln())
    }
    fn tangent_h(a: Self) -> Self {
        F(a.0.tanh())
    }
    fn error_fn(a: Self) -> Self {
        F(erf64(a.0 as f64) as f32)
    }
}

fn wrap(v: &[f32]) -> Vec<F> {
    v.iter().map(|&x| F(x)).collect()
}

/// A deterministic signal with both signs and a wide dynamic range.
fn signal(seed: u32, n: usize) -> Vec<F> {
    (0..n)
        .map(|i| {
            let h = (i as u32)
                .wrapping_mul(2_654_435_761)
                .wrapping_add(seed.wrapping_mul(40_503));
            let unit = (h >> 8) as f32 / (1 << 24) as f32 - 0.5;
            F(unit * (1 << (i % 5)) as f32)
        })
        .collect()
}

fn operands<T: BlockFormat<F>>(seed: u32, blocks: usize) -> (Vec<T>, Vec<T::ActivationBlock>) {
    let n = blocks * T::block_len();
    let mut weights = vec![T::zeros(); blocks];
    T::quantize(&signal(seed, n), &mut weights);
    let width = <T::ActivationBlock as Quantized<F>>::block_len();
    let mut acts = vec![<T::ActivationBlock as Quantized<F>>::zeros(); n / width];
    <T::ActivationBlock as Quantized<F>>::quantize(&signal(seed ^ 0x5bf0_3635, n), &mut acts);
    (weights, acts)
}

fn close(name: &str, case: &str, fast: f32, slow: f32) {
    let tolerance = 1e-3 * slow.abs().max(1.0);
    assert!(
        (fast - slow).abs() <= tolerance,
        "{name} ({case}): {fast} disagrees with the scalar definition {slow} \
         (tolerance {tolerance:e})"
    );
}

fn kernel_agrees<T: BlockFormat<F>>(name: &str, kernel: fn(&[T], &[T::ActivationBlock]) -> F) {
    for seed in [1u32, 17, 4321] {
        for blocks in [1usize, 2, 7] {
            let (w, a) = operands::<T>(seed, blocks);
            close(
                name,
                &format!("seed {seed}, {blocks} blocks"),
                kernel(&w, &a).0,
                T::dot_scalar(&w, &a).0,
            );
        }
    }
}

fn dispatch_agrees<T: BlockFormat<F>>(name: &str) {
    for seed in [1u32, 17, 4321] {
        for blocks in [1usize, 2, 7] {
            let (w, a) = operands::<T>(seed, blocks);
            close(
                name,
                &format!("dispatch, seed {seed}, {blocks} blocks"),
                T::dot(&w, &a).0,
                T::dot_scalar(&w, &a).0,
            );
        }
    }
}

#[test]
fn every_avx2_kernel_agrees_with_its_scalar_definition() {
    kernel_agrees::<BlockQ4_0>("q4_0", vec_dot_q4_0_q8_0::<F>);
    kernel_agrees::<BlockQ4_1>("q4_1", vec_dot_q4_1_q8_1::<F>);
    kernel_agrees::<BlockQ5_0>("q5_0", vec_dot_q5_0_q8_0::<F>);
    kernel_agrees::<BlockQ5_1>("q5_1", vec_dot_q5_1_q8_1::<F>);
    kernel_agrees::<BlockQ8_0>("q8_0", vec_dot_q8_0_q8_0::<F>);
    kernel_agrees::<BlockQ8_1>("q8_1", vec_dot_q8_1_q8_1::<F>);
    kernel_agrees::<BlockMxFp4>("mxfp4", vec_dot_mxfp4_q8_0::<F>);
    kernel_agrees::<BlockQ2K>("q2_K", vec_dot_q2k_q8k::<F>);
    kernel_agrees::<BlockQ3K>("q3_K", vec_dot_q3k_q8k::<F>);
    kernel_agrees::<BlockQ4K>("q4_K", vec_dot_q4k_q8k::<F>);
    kernel_agrees::<BlockQ5K>("q5_K", vec_dot_q5k_q8k::<F>);
    kernel_agrees::<BlockQ6K>("q6_K", vec_dot_q6k_q8k::<F>);
    kernel_agrees::<BlockQ8K<F>>("q8_K", vec_dot_q8k_q8k::<F>);
}

#[test]
fn every_dispatch_agrees_with_its_scalar_definition() {
    dispatch_agrees::<BlockQ4_0>("q4_0");
    dispatch_agrees::<BlockQ4_1>("q4_1");
    dispatch_agrees::<BlockQ5_0>("q5_0");
    dispatch_agrees::<BlockQ5_1>("q5_1");
    dispatch_agrees::<BlockQ8_0>("q8_0");
    dispatch_agrees::<BlockQ8_1>("q8_1");
    dispatch_agrees::<BlockMxFp4>("mxfp4");
    dispatch_agrees::<BlockQ2K>("q2_K");
    dispatch_agrees::<BlockQ3K>("q3_K");
    dispatch_agrees::<BlockQ4K>("q4_K");
    dispatch_agrees::<BlockQ5K>("q5_K");
    dispatch_agrees::<BlockQ6K>("q6_K");
    dispatch_agrees::<BlockQ8K<F>>("q8_K");
}

#[test]
fn the_iq2_dispatch_agrees_with_its_scalar_definition() {
    dispatch_agrees::<BlockIq2Xxs>("iq2_xxs");
}

/// Values with both signs, several octaves, and no round numbers.
fn carrier_signal(seed: u32, n: usize) -> Vec<F> {
    (0..n)
        .map(|i| {
            let h = (i as u32)
                .wrapping_mul(2_246_822_519)
                .wrapping_add(seed.wrapping_mul(374_761_393));
            let unit = (h >> 8) as f32 / (1 << 24) as f32 - 0.5;
            F(unit * (1 << (i % 6)) as f32 * 1.031_7)
        })
        .collect()
}

/// The dot product of what the carrier holds, summed in double precision.
fn reference<T: BlockFormat<F>>(a: &[T], b: &[T]) -> f64 {
    let (mut av, mut bv) = (vec![F(0.0); a.len()], vec![F(0.0); b.len()]);
    T::dequantize(a, &mut av);
    T::dequantize(b, &mut bv);
    av.iter().zip(&bv).map(|(x, y)| x.0 as f64 * y.0 as f64).sum()
}

fn carrier_agrees<T: BlockFormat<F, ActivationBlock = T>>(name: &str, tolerance: f64) {
    for n in [1usize, 8, 31, 32, 33, 96, 257] {
        for seed in [1u32, 77] {
            let mut a = vec![T::zeros(); n];
            let mut b = vec![T::zeros(); n];
            T::quantize(&carrier_signal(seed, n), &mut a);
            T::quantize(&carrier_signal(seed ^ 0x9e37_79b9, n), &mut b);

            let got = T::dot(&a, &b).0 as f64;
            let want = reference(&a, &b);
            let slack = tolerance * want.abs().max(1.0);
            assert!(
                (got - want).abs() <= slack,
                "{name}: dot {got} against the f64 sum of the same values {want} \
                 (n = {n}, seed {seed}, tolerance {slack:e})"
            );
        }
    }
}

#[test]
fn the_f32_carrier_sums_the_values_it_holds() {
    carrier_agrees::<Single<F>>("f32", 1e-6);
}

#[test]
fn the_f16_carrier_sums_the_values_it_holds() {
    carrier_agrees::<Half>("f16", 1e-3);
}

#[test]
fn the_bf16_carrier_sums_the_values_it_holds() {
    carrier_agrees::<Brain>("bf16", 1e-2);
}

#[test]
fn every_bf16_lane_reads_back_as_itself() {
    const N: usize = 64;
    let values: Vec<F> = carrier_signal(3, N);
    let zero = Brain { bits: 0 };
    let mut held = vec![zero; N];
    <Brain as Quantized<F>>::quantize(&values, &mut held);

    for (i, &v) in held.iter().enumerate() {
        let mut one = vec![zero; N];
        one[i] = Brain { bits: half::bf16::ONE.to_bits() };
        let got = <Brain as BlockFormat<F>>::dot(&held, &one).0;
        let want = half::bf16::from_bits(v.bits).to_f32();
        assert!(
            (got - want).abs() <= 1e-3 * want.abs().max(1.0),
            "bf16 lane {i}: read back as {got}, holds {want}"
        );
    }
}

fn xorshift(seed: u64) -> impl FnMut() -> f32 {
    let mut s = seed;
    move || {
        s ^= s << 13;
        s ^= s >> 7;
        s ^= s << 17;
        ((s >> 40) as f32 / (1u64 << 24) as f32) * 2.0 - 1.0
    }
}

#[test]
fn vec_dot_mxfp4_q8_0_avx_matches_scalar() {
    let nb = 16usize;
    let n = nb * 32;
    let mut next = xorshift(0x9E37_79B9_7F4A_7C15u64);
    let wf: Vec<F> = (0..n).map(|_| F(next() * 5.0)).collect();
    let xf: Vec<F> = (0..n).map(|_| F(next() * 3.0)).collect();
    let mut wq = vec![<BlockMxFp4 as Quantized<F>>::zeros(); nb];
    BlockMxFp4::quantize(&wf, &mut wq);
    let mut xq = vec![<BlockQ8_0 as Quantized<F>>::zeros(); nb];
    BlockQ8_0::quantize(&xf, &mut xq);
    let scalar = <BlockMxFp4 as BlockFormat<F>>::dot_scalar(&wq, &xq).0;
    let avx = vec_dot_mxfp4_q8_0::<F>(&wq, &xq).0;
    let rel = (scalar - avx).abs() / scalar.abs().max(1e-6);
    assert!(rel < 1e-4, "avx {avx} scalar {scalar} rel {rel}");
}

#[test]
fn vec_dot_q6k_q8k_avx_matches_scalar() {
    let nb = 12usize;
    let n = nb * 256;
    let mut next = xorshift(0xD1B5_4A32_D192_ED03u64);
    let wf: Vec<F> = (0..n).map(|_| F(next() * 4.0)).collect();
    let xf: Vec<F> = (0..n).map(|_| F(next() * 3.0)).collect();
    let mut wq = vec![<BlockQ6K as Quantized<F>>::zeros(); nb];
    BlockQ6K::quantize(&wf, &mut wq);
    let mut xq = vec![BlockQ8K::<F>::zeros(); nb];
    BlockQ8K::quantize(&xf, &mut xq);
    let scalar = <BlockQ6K as BlockFormat<F>>::dot_scalar(&wq, &xq).0;
    let avx = vec_dot_q6k_q8k(&wq, &xq).0;
    let rel = (scalar - avx).abs() / scalar.abs().max(1e-6);
    assert!(rel < 1e-4, "q6k avx {avx} scalar {scalar} rel {rel}");
}

#[test]
fn round_trip_stays_within_half_a_quantisation_step() {
    const QK8_1: usize = 32;
    let mut x = vec![F(0.0); 4 * QK8_1];
    for (i, v) in x.iter_mut().enumerate() {
        let t = i as f32;
        *v = F(match i / QK8_1 {
            0 => (t * 0.31).sin() * 3.0,
            1 => 12.0 + (t * 0.11).cos(),
            2 => 0.0,
            _ => (t * 0.07).sin() * 217.0,
        });
    }
    let mut q = vec![<BlockQ8_1 as Quantized<F>>::zeros(); x.len() / QK8_1];
    BlockQ8_1::quantize(&x, &mut q);
    let mut back = vec![F(0.0); x.len()];
    BlockQ8_1::dequantize(&q, &mut back);

    for (b, blk) in q.iter().enumerate() {
        let step = half::f16::from_bits(blk.d.bits).to_f32();
        for j in 0..QK8_1 {
            let i = b * QK8_1 + j;
            let err = (x[i].0 - back[i].0).abs();
            assert!(
                err <= step * 0.5 + 1e-4,
                "block {b} lane {j}: {} came back as {} (step {step})",
                x[i].0,
                back[i].0
            );
        }
    }
    for v in &back[2 * QK8_1..3 * QK8_1] {
        assert_eq!(v.0, 0.0);
    }
}

#[test]
fn the_other_eight_bit_blocks_come_back_within_half_a_step() {
    // 127 steps of a quarter: neither the scale nor any product of it rounds.
    let x: Vec<F> = (0..256).map(|i| F(((i * 37) % 255) as f32 * 0.25 - 31.75)).collect();
    assert!(x.iter().any(|v| v.0.abs() == 31.75));
    let mut q = vec![<BlockQ8_0 as Quantized<F>>::zeros(); 8];
    BlockQ8_0::quantize(&x, &mut q);
    let mut back = vec![F(0.0); 256];
    BlockQ8_0::dequantize(&q, &mut back);
    for (i, (a, b)) in x.iter().zip(&back).enumerate() {
        let step = half::f16::from_bits(q[i / 32].d.bits).to_f32();
        assert!((a.0 - b.0).abs() <= 0.5 * step + 1e-2 * step, "{i}: {} {}", a.0, b.0);
    }
    let mut k = vec![<BlockQ8K<F> as Quantized<F>>::zeros(); 1];
    BlockQ8K::quantize(&x, &mut k);
    let mut back = vec![F(0.0); 256];
    BlockQ8K::dequantize(&k, &mut back);
    for (i, (a, b)) in x.iter().zip(&back).enumerate() {
        assert!((a.0 - b.0).abs() <= 0.5 * k[0].d.0.abs() + 1e-4, "{i}: {} {}", a.0, b.0);
    }
}

#[test]
fn multi_matches_per_expert() {
    let mut next = xorshift(0x2545_F491_4F6C_DD1Du64);
    for &dtype in &[GgmlDType::Q4K, GgmlDType::Q6K] {
        let (k, n, ne) = (512usize, 96usize, 5usize);
        let mut rhs_bytes: Vec<Vec<u8>> = Vec::new();
        let mut lhs: Vec<Vec<F>> = Vec::new();
        for _ in 0..ne {
            let wf: Vec<F> = (0..n * k).map(|_| F(next() * 0.1)).collect();
            rhs_bytes.push(from_float_bytes(dtype, &wf).unwrap());
            lhs.push((0..k).map(|_| F(next())).collect());
        }
        let mut counters = Counters::new();
        let mut want: Vec<Vec<F>> = (0..ne).map(|_| vec![F(0.0); n]).collect();
        for e in 0..ne {
            matmul_bytes(&mut counters, dtype, (1, k, n), &lhs[e], &rhs_bytes[e], &mut want[e])
                .unwrap();
        }
        let mut got: Vec<Vec<F>> = (0..ne).map(|_| vec![F(0.0); n]).collect();
        {
            let rb: Vec<&[u8]> = rhs_bytes.iter().map(|v| v.as_slice()).collect();
            let lv: Vec<&[F]> = lhs.iter().map(|v| v.as_slice()).collect();
            matmul_bytes_multi(dtype, k, n, &rb, &lv, &mut got).unwrap();
        }
        for e in 0..ne {
            for c in 0..n {
                assert_eq!(
                    got[e][c].0.to_bits(),
                    want[e][c].0.to_bits(),
                    "{dtype:?} expert {e} col {c}: {} vs {}",
                    got[e][c].0,
                    want[e][c].0
                );
            }
        }
    }
}

#[test]
fn q5_0_avx_dot_matches_unopt() {
    let mut state = 0x12345678u64;
    let mut rnd = move || {
        state = state
            .wrapping_mul(6364136223846793005)
            .wrapping_add(1442695040888963407);
        ((state >> 33) as f32 / u32::MAX as f32) * 2.0 - 1.0
    };
    for &k in &[32usize, 64, 2688, 4096, 6144, 8192] {
        let xf: Vec<F> = (0..k).map(|_| F(rnd())).collect();
        let yf: Vec<F> = (0..k).map(|_| F(rnd())).collect();
        let mut xq = vec![<BlockQ5_0 as Quantized<F>>::zeros(); k / 32];
        let mut yq = vec![<BlockQ8_0 as Quantized<F>>::zeros(); k / 32];
        BlockQ5_0::quantize(&xf, &mut xq);
        BlockQ8_0::quantize(&yf, &mut yq);
        let scalar = <BlockQ5_0 as BlockFormat<F>>::dot_scalar(&xq, &yq).0;
        let simd = vec_dot_q5_0_q8_0::<F>(&xq, &yq).0;
        assert!(
            (scalar - simd).abs() <= scalar.abs().max(1.0) * 1e-5,
            "q5_0 avx k={k}: {simd} != scalar {scalar}"
        );
    }
}

fn halves(v: &[f32]) -> Vec<Half> {
    v.iter().map(|&x| Half { bits: half::f16::from_f32(x).to_bits() }).collect()
}

fn wide(h: Half) -> f32 {
    half::f16::from_bits(h.bits).to_f32()
}

#[test]
fn fused_gate_up_silu_matches_reference() {
    let mut next = xorshift(0x9E37_79B9_7F4A_7C15u64);
    for &dtype in &[GgmlDType::Q4K, GgmlDType::Q6K] {
        let (k, n) = (512usize, 128usize);
        let gate: Vec<F> = (0..n * k).map(|_| F(next() * 0.1)).collect();
        let up: Vec<F> = (0..n * k).map(|_| F(next() * 0.1)).collect();
        let gb = from_float_bytes(dtype, &gate).unwrap();
        let ub = from_float_bytes(dtype, &up).unwrap();
        let xf: Vec<f32> = (0..k).map(|_| next()).collect();
        let xh: Vec<Half> = halves(&xf);
        let zero = Half { bits: 0 };
        let mut got = vec![zero; n];
        matmul_f16_gate_up_silu_bytes::<F>(dtype, (1, k, n), &xh, &gb, &ub, &mut got).unwrap();
        let mut gd = vec![zero; n];
        let mut ud = vec![zero; n];
        matmul_f16_bytes::<F>(dtype, (1, k, n), &xh, &gb, &mut gd).unwrap();
        matmul_f16_bytes::<F>(dtype, (1, k, n), &xh, &ub, &mut ud).unwrap();
        for j in 0..n {
            let g = wide(gd[j]);
            let u = wide(ud[j]);
            let want = half::f16::from_f32((g / (1.0 + (-g).exp())) * u).to_f32();
            let have = wide(got[j]);
            assert!(
                (have - want).abs() <= want.abs().max(1.0) * 2e-2,
                "{dtype:?} col {j}: fused {have} vs ref {want}"
            );
        }
    }
}

#[test]
fn an_mxfp4_block_reads_as_its_table_times_its_scale() {
    // Exponent 128 stands for 2^(128 - 128) on the doubled table.
    let mut qs = [0u8; 16];
    for (i, q) in qs.iter_mut().enumerate() {
        *q = (i as u8) | ((15 - i as u8) << 4);
    }
    let mut out = vec![F(0.0); 32];
    <BlockMxFp4 as Quantized<F>>::dequantize(&[BlockMxFp4 { e: 128, qs }], &mut out);
    let table = [
        0.0f32, 1.0, 2.0, 3.0, 4.0, 6.0, 8.0, 12.0, 0.0, -1.0, -2.0, -3.0, -4.0, -6.0, -8.0, -12.0,
    ];
    for i in 0..16 {
        assert_eq!(out[i].0, table[i], "low nibble {i}");
        assert_eq!(out[16 + i].0, table[15 - i], "high nibble {i}");
    }
}

#[test]
fn a_q4_0_block_reads_as_its_nibbles_less_eight() {
    let mut qs = [0u8; 16];
    qs[0] = 0xf0;
    qs[1] = 0x08;
    let d = Half { bits: half::f16::from_f32(0.5).to_bits() };
    let mut out = vec![F(0.0); 32];
    <BlockQ4_0 as Quantized<F>>::dequantize(&[BlockQ4_0 { d, qs }], &mut out);
    assert_eq!(out[0].0, -4.0);
    assert_eq!(out[16].0, 3.5);
    assert_eq!(out[1].0, 0.0);
    assert_eq!(out[17].0, -4.0);
}

#[test]
fn bytes_and_values_go_back_and_forth() {
    for dtype in [
        GgmlDType::F32,
        GgmlDType::Q4_0,
        GgmlDType::Q4_1,
        GgmlDType::Q5_0,
        GgmlDType::Q5_1,
        GgmlDType::Q8_0,
        GgmlDType::Q2K,
        GgmlDType::Q3K,
        GgmlDType::Q4K,
        GgmlDType::Q5K,
        GgmlDType::Q6K,
        GgmlDType::MxFp4,
        GgmlDType::Iq2Xxs,
    ] {
        let x: Vec<F> = (0..512).map(|i| F((i as f32 * 0.37).sin() * 2.0)).collect();
        let bytes = from_float_bytes(dtype, &x).unwrap();
        let mut back = vec![F(0.0); 512];
        to_float_bytes(dtype, &bytes, &mut back).unwrap();
        let (mut num, mut den) = (0f64, 0f64);
        for (a, b) in x.iter().zip(&back) {
            num += ((a.0 - b.0) as f64).powi(2);
            den += (a.0 as f64).powi(2);
        }
        let rel = (num / den).sqrt();
        assert!(rel < 0.5, "{dtype:?}: {rel}");
        // Blocks that were read back and written again are the same bytes.
        if dtype == GgmlDType::F32 {
            assert_eq!(x, back);
        }
    }
}

#[test]
fn an_importance_changes_what_is_kept() {
    let x: Vec<F> = (0..256).map(|i| F((i as f32 * 0.173).sin() * 1.7)).collect();
    let w: Vec<F> = (0..256).map(|i| F(if i % 8 == 0 { 64.0 } else { 0.05 })).collect();
    let error = |b: &[BlockQ4K]| {
        let mut back = vec![F(0.0); 256];
        <BlockQ4K as Quantized<F>>::dequantize(b, &mut back);
        let mut num = 0f64;
        for i in 0..256 {
            num += w[i].0 as f64 * ((x[i].0 - back[i].0) as f64).powi(2);
        }
        num
    };
    let mut plain = vec![<BlockQ4K as Quantized<F>>::zeros(); 1];
    BlockQ4K::quantize(&x, &mut plain);
    let mut guided = vec![<BlockQ4K as Quantized<F>>::zeros(); 1];
    BlockQ4K::quantize_guided(&x, &mut guided, &w, 256);
    assert!(error(&guided) < error(&plain));
}

#[test]
fn importances_are_read_as_far_as_there_are_blocks() {
    // One block of a row of four: only the first run of importances is needed.
    let x: Vec<F> = (0..256).map(|i| F((i as f32 * 0.173).sin() * 1.7)).collect();
    let w: Vec<F> = (0..256).map(|i| F(if i % 8 == 0 { 64.0 } else { 0.05 })).collect();
    let mut long = w.clone();
    long.extend(vec![F(9.0); 768]);
    let mut short = vec![<BlockQ4K as Quantized<F>>::zeros(); 1];
    let mut full = short.clone();
    BlockQ4K::quantize_guided(&x, &mut short, &w, 1024);
    BlockQ4K::quantize_guided(&x, &mut full, &long, 1024);
    assert_eq!(short[0].qs, full[0].qs);
    assert_eq!(short[0].scales, full[0].scales);
    let none: [F; 0] = [];
    BlockQ4K::quantize_guided(&none, &mut [], &none, 0);
}

#[test]
fn a_signed_fit_is_no_worse_than_its_first_levels() {
    for nmax in [1i32, 4, 16, 32, 64] {
        let x: Vec<F> = (0..32).map(|i| F(((i * i) as f32 * 0.37).sin() * 3.0)).collect();
        let w: Vec<F> = (0..32).map(|i| F(0.5 + (i % 5) as f32)).collect();
        let (d, ls) = fit_signed_scale(nmax, &x, &w);
        assert!(ls.iter().all(|&l| 0 <= l as i32 && (l as i32) < 2 * nmax));
        let error = |d: f64, l: &dyn Fn(usize) -> f64| {
            (0..32).map(|i| w[i].0 as f64 * (x[i].0 as f64 - d * l(i)).powi(2)).sum::<f64>()
        };
        let far = x.iter().fold(0f32, |m, v| if v.0.abs() > m.abs() { v.0 } else { m });
        let first = |i: usize| {
            (-(nmax as f32) * x[i].0 / far).round().clamp(-(nmax as f32), (nmax - 1) as f32) as f64
        };
        let (mut a, mut b) = (0f64, 0f64);
        for i in 0..32 {
            a += w[i].0 as f64 * x[i].0 as f64 * first(i);
            b += w[i].0 as f64 * first(i) * first(i);
        }
        let got = error(d.0 as f64, &|i| ls[i] as f64 - nmax as f64);
        assert!(got <= error(a / b, &first) + 1e-5, "nmax {nmax}: {got}");
    }
    let (d, ls) = fit_signed_scale(4, &[F(0.0); 3], &[F(1.0); 3]);
    assert_eq!((d, ls), (F(0.0), vec![0, 0, 0]));
}

#[test]
fn no_value_falls_out_of_a_fit() {
    let x = [F(0.0), F(-3.0), F(0.0), F(4.0)];
    let w = magnitude_weights(&x);
    // The root mean square is 2.5.
    assert_eq!(w, [F(2.5), F(5.5), F(2.5), F(6.5)]);
}

#[test]
fn packed_scales_are_read_from_the_first_twelve_bytes() {
    let packed: Vec<u8> = (0..20).map(|i| (i * 53 + 7) as u8).collect();
    assert_eq!(sub_scales_and_mins_bytes(&packed), sub_scales_and_mins_bytes(&packed[..12]));
    let words = sub_scales_and_mins(&packed);
    let bytes = sub_scales_and_mins_bytes(&packed);
    for w in 0..4 {
        let four: [u8; 4] = bytes[4 * w..4 * w + 4].try_into().unwrap();
        assert_eq!(words[w], u32::from_le_bytes(four));
    }
    assert_eq!(bytes[0], packed[0] % 64);
    assert!(bytes.iter().all(|&b| b < 64));
}

#[test]
fn errors_say_what_is_wrong() {
    let said = |e: Error| e.message();
    assert_eq!(
        said(Error::Bytes { len: 17, size: 18 }),
        "quant_cpu: byte length 17 is not a multiple of the block size 18"
    );
    let wide = |entry: Entry| {
        said(Error::Width { entry, len: 33, dtype: GgmlDType::Q4_0, block: 32 })
    };
    assert_eq!(
        wide(Entry::Quantize),
        "quant_cpu quantize: 33 elems not a multiple of Q4_0 block size 32"
    );
    assert_eq!(wide(Entry::Matmul), "quant_cpu matmul: k 33 not a multiple of Q4_0 block size 32");
    assert_eq!(
        wide(Entry::MatmulF16),
        "quant_cpu matmul_f16: k 33 not a multiple of Q4_0 block size 32"
    );
    assert_eq!(wide(Entry::GateUpSilu), "gate_up_silu: k 33 not a multiple of Q4_0 block size 32");
    assert_eq!(wide(Entry::Experts), "matmul_bytes_multi: k 33 not a multiple of block size 32");
    assert_eq!(said(Error::ActivationOnly), "quant_cpu: Q8_1 has no weight-side path");
    let acts = |entry: Entry| said(Error::Activation { entry, len: 31, m: 2, k: 32, n: 5 });
    assert_eq!(
        acts(Entry::Matmul),
        format!(
            "quant matmul: activation has 31 elements but the shape says 2x32 = 64{}(n=5) - \
             the caller's shape and its data disagree",
            " ".repeat(14)
        )
    );
    assert_eq!(acts(Entry::MatmulF16), format!("unexpected lhs length 31 {:?}", (2, 32, 5)));
    assert_eq!(acts(Entry::GateUpSilu), "gate_up_silu: lhs len 31 != 2x32");
    assert_eq!(
        said(Error::Weights { entry: Entry::Matmul, have: 5, rows: 3, per_row: 2 }),
        "quant_cpu matmul: rhs has 5 blocks, want 6 (3 rows x 2 / row)"
    );
    assert_eq!(
        said(Error::Weights { entry: Entry::MatmulF16, have: 5, rows: 3, per_row: 2 }),
        "quant_cpu matmul_f16: rhs has 5 blocks, want 6"
    );
    assert_eq!(
        said(Error::GateUpWeights { gate: 5, up: 6, rows: 3, per_row: 2 }),
        "gate_up_silu: gate/up have 5/6 blocks, want 6"
    );
    // A product that fits no machine word is still said in full.
    assert_eq!(
        said(Error::GateUpWeights { gate: 0, up: 0, rows: usize::MAX, per_row: 10 }),
        format!("gate_up_silu: gate/up have 0/0 blocks, want {}", usize::MAX as u128 * 10)
    );
    let out = |entry: Entry| said(Error::Output { entry, len: 7, m: 2, n: 4 });
    assert_eq!(out(Entry::Matmul), "quant_cpu matmul: dst len 7 != 2x4");
    assert_eq!(out(Entry::MatmulF16), "quant_cpu matmul_f16: dst len 7 != 2x4");
    assert_eq!(out(Entry::GateUpSilu), "gate_up_silu: dst len 7 != 2x4");
    assert_eq!(
        said(Error::Values { blocks: 2, dtype: GgmlDType::Q8_0, len: 63 }),
        "quant_cpu dequantize: 2 blocks of Q8_0 != 63 output elems"
    );
    assert_eq!(
        said(Error::Experts { weights: 1, lhs: 2, outs: 30 }),
        "matmul_bytes_multi: ne mismatch rhs 1 lhs 2 outs 30"
    );
    assert_eq!(
        said(Error::ExpertActivation { e: 4, len: 10, k: 1024 }),
        "matmul_bytes_multi: lhs[4] len 10 != k 1024"
    );
    assert_eq!(
        said(Error::ExpertOutput { e: 0, len: 10, n: 100 }),
        "matmul_bytes_multi: outs[0] len 10 != n 100"
    );
    assert_eq!(
        said(Error::ExpertWeights { e: 1, have: 9, rows: 5, per_row: 2 }),
        "matmul_bytes_multi: rhs[1] has 9 blocks, want 10"
    );
    assert_eq!(said(Error::Rank { want: 4, have: 3 }), "tensor has 3 dims, want 4");
    assert_eq!(said(Error::Shape), "the shapes do not go together");
    assert_eq!(said(Error::Axis { dim: 2, rank: 1 }), "dim 2 out of range for a tensor of 1 dims");
    assert_eq!(
        said(Error::Index { dim: 0, start: 2, end: 5, size: 4 }),
        "index 2..5 out of range for dim 0 of size 4"
    );
    assert_eq!(
        said(Error::Values { blocks: usize::MAX, dtype: GgmlDType::MxFp4, len: 0 }),
        format!("quant_cpu dequantize: {} blocks of MxFp4 != 0 output elems", usize::MAX)
    );
}

#[test]
fn widths_and_lengths_that_disagree_are_refused() {
    let x = vec![F(1.0); 33];
    assert_eq!(
        from_float_bytes(GgmlDType::Q4_0, &x),
        Err(Error::Width {
            entry: Entry::Quantize,
            len: 33,
            dtype: GgmlDType::Q4_0,
            block: 32,
        })
    );
    let mut y = vec![F(0.0); 32];
    assert_eq!(
        to_float_bytes(GgmlDType::Q4_0, &[0u8; 17], &mut y),
        Err(Error::Bytes { len: 17, size: 18 })
    );
    assert_eq!(
        to_float_bytes(GgmlDType::Q4_0, &[0u8; 36], &mut y),
        Err(Error::Values { blocks: 2, dtype: GgmlDType::Q4_0, len: 32 })
    );
    assert_eq!(from_float_bytes(GgmlDType::Q8_1, &vec![F(1.0); 32]).is_err(), true);
    let mut counters = Counters::new();
    let w = from_float_bytes(GgmlDType::Q8_0, &vec![F(1.0); 64]).unwrap();
    let mut dst = vec![F(0.0); 2];
    assert_eq!(
        matmul_bytes(&mut counters, GgmlDType::Q8_0, (1, 32, 2), &vec![F(1.0); 31], &w, &mut dst),
        Err(Error::Activation { entry: Entry::Matmul, len: 31, m: 1, k: 32, n: 2 })
    );
    // A call is counted when it is made.
    assert_eq!(take_cpu_mac_counters(&mut counters), (64, 1));
}

#[test]
fn every_type_is_called_by_its_name() {
    let types = [
        GgmlDType::F32,
        GgmlDType::F16,
        GgmlDType::BF16,
        GgmlDType::Q4_0,
        GgmlDType::Q4_1,
        GgmlDType::Q5_0,
        GgmlDType::Q5_1,
        GgmlDType::Q8_0,
        GgmlDType::Q8_1,
        GgmlDType::Q2K,
        GgmlDType::Q3K,
        GgmlDType::Q4K,
        GgmlDType::Q5K,
        GgmlDType::Q6K,
        GgmlDType::Q8K,
        GgmlDType::MxFp4,
        GgmlDType::Iq2Xxs,
    ];
    for t in types {
        assert_eq!(t.name(), format!("{t:?}"));
    }
}

#[test]
fn half_precision_entries_say_which_they_are() {
    let w = from_float_bytes(GgmlDType::Q8_0, &vec![F(1.0); 64]).unwrap();
    let half = |n: usize| vec![Half { bits: 0x3c00 }; n];
    let mut dst = half(2);
    let plain = |lhs: &[Half], k: usize, w: &[u8], dst: &mut [Half]| {
        matmul_f16_bytes::<F>(GgmlDType::Q8_0, (1, k, 2), lhs, w, dst)
    };
    assert_eq!(
        plain(&half(31), 32, &w, &mut dst),
        Err(Error::Activation { entry: Entry::MatmulF16, len: 31, m: 1, k: 32, n: 2 })
    );
    assert_eq!(
        plain(&half(33), 33, &w, &mut dst),
        Err(Error::Width {
            entry: Entry::MatmulF16,
            len: 33,
            dtype: GgmlDType::Q8_0,
            block: 32,
        })
    );
    assert_eq!(
        plain(&half(32), 32, &w[..34], &mut dst),
        Err(Error::Weights { entry: Entry::MatmulF16, have: 1, rows: 2, per_row: 1 })
    );
    assert_eq!(
        plain(&half(32), 32, &w, &mut half(3)),
        Err(Error::Output { entry: Entry::MatmulF16, len: 3, m: 1, n: 2 })
    );
    let both = |lhs: &[Half], gate: &[u8], up: &[u8], dst: &mut [Half]| {
        matmul_f16_gate_up_silu_bytes::<F>(GgmlDType::Q8_0, (1, 32, 2), lhs, gate, up, dst)
    };
    assert_eq!(
        both(&half(31), &w, &w, &mut dst),
        Err(Error::Activation { entry: Entry::GateUpSilu, len: 31, m: 1, k: 32, n: 2 })
    );
    assert_eq!(
        both(&half(32), &w, &w[..34], &mut dst),
        Err(Error::GateUpWeights { gate: 2, up: 1, rows: 2, per_row: 1 })
    );
    assert_eq!(
        both(&half(32), &w, &w, &mut half(1)),
        Err(Error::Output { entry: Entry::GateUpSilu, len: 1, m: 1, n: 2 })
    );
    assert_eq!(dst, half(2));
}

#[test]
fn runs_that_do_not_match_meet_in_the_shorter() {
    let x: Vec<F> = (0..80).map(|i| F(i as f32 - 40.0)).collect();
    let blank = <BlockQ8_0 as Quantized<F>>::zeros();
    // Two whole blocks of values and half a one, into three blocks and into one.
    let mut three = vec![blank; 3];
    three[2].qs[0] = 77;
    BlockQ8_0::quantize(&x, &mut three);
    let mut two = vec![blank; 2];
    BlockQ8_0::quantize(&x[..64], &mut two);
    assert_eq!((three[0].d, three[0].qs), (two[0].d, two[0].qs));
    assert_eq!((three[1].d, three[1].qs), (two[1].d, two[1].qs));
    assert_eq!(three[2].qs[0], 77);
    let mut one = vec![blank; 1];
    BlockQ8_0::quantize(&x, &mut one);
    assert_eq!((one[0].d, one[0].qs), (two[0].d, two[0].qs));
    // And back: the values that no block reaches stay.
    let mut all = vec![F(0.0); 64];
    BlockQ8_0::dequantize(&two, &mut all);
    let mut long = vec![F(5.0); 80];
    BlockQ8_0::dequantize(&two, &mut long);
    assert_eq!(long[..64], all[..]);
    assert_eq!(long[64..], [F(5.0); 16]);
    let mut short = vec![F(5.0); 40];
    BlockQ8_0::dequantize(&two, &mut short);
    assert_eq!(short[..32], all[..32]);
    assert_eq!(short[32..], [F(5.0); 8]);
}

#[test]
fn importances_are_asked_only_of_the_blocks_written() {
    let x: Vec<F> = (0..512).map(|i| F((i as f32 * 0.37).sin())).collect();
    let w: Vec<F> = (0..256).map(|i| F(1.0 + i as f32)).collect();
    let blank = <BlockQ4K as Quantized<F>>::zeros();
    let mut one = vec![blank; 1];
    BlockQ4K::quantize_guided(&x[..256], &mut one, &w, 512);
    // The second block would need a second run of importances; there are no values for it.
    let mut two = vec![blank; 2];
    two[1].qs[3] = 9;
    BlockQ4K::quantize_guided(&x[..300], &mut two, &w, 512);
    assert_eq!(two[0].qs, one[0].qs);
    assert_eq!(two[0].d, one[0].d);
    assert_eq!(two[1].qs[3], 9);
    // And values for which there is no block are left alone.
    let mut first = vec![blank; 1];
    BlockQ4K::quantize_guided(&x, &mut first, &w, 512);
    assert_eq!(first[0].qs, one[0].qs);
}

#[test]
fn no_mxfp4_block_of_three_exponents_loses_less() {
    let table = [0.0f64, 1.0, 2.0, 3.0, 4.0, 6.0, 8.0, 12.0];
    for seed in 1..6u32 {
        let x: Vec<F> = signal(seed, 32);
        let mut b = vec![<BlockMxFp4 as Quantized<F>>::zeros(); 1];
        BlockMxFp4::quantize(&x, &mut b);
        let mut back = vec![F(0.0); 32];
        BlockMxFp4::dequantize(&b, &mut back);
        let kept: f64 =
            x.iter().zip(&back).map(|(a, c)| (a.0 as f64 - c.0 as f64).powi(2)).sum();
        let top = x.iter().fold(0f32, |m, v| m.max(v.0.abs()));
        let base = top.log2().floor() as i32 - 2;
        for step in base - 1..=base + 1 {
            // The best any codes do under this exponent: each value takes its nearest.
            let d = 2f64.powi(step - 1);
            let least: f64 = x
                .iter()
                .map(|v| {
                    table
                        .iter()
                        .map(|t| (t * d - (v.0 as f64).abs()).powi(2))
                        .fold(f64::INFINITY, f64::min)
                })
                .sum();
            assert!(kept <= least * (1.0 + 1e-5), "{seed}: {kept} > {least} under {step}");
        }
    }
    // Nothing to lose of zeros.
    let mut b = vec![BlockMxFp4 { e: 9, qs: [0x55; 16] }; 1];
    BlockMxFp4::quantize(&vec![F(0.0); 32], &mut b);
    assert_eq!((b[0].e, b[0].qs), (0, [0u8; 16]));
}

#[test]
fn a_row_of_a_product_is_the_product_of_the_row() {
    let (m, k, n) = (3, 64, 5);
    let w = from_float_bytes(GgmlDType::Q4_0, &signal(7, n * k)).unwrap();
    let x = signal(11, m * k);
    let mut counters = Counters::new();
    let mut all = vec![F(0.0); m * n];
    matmul_bytes(&mut counters, GgmlDType::Q4_0, (m, k, n), &x, &w, &mut all).unwrap();
    for r in 0..m {
        let mut alone = vec![F(0.0); n];
        let row = &x[r * k..(r + 1) * k];
        matmul_bytes(&mut counters, GgmlDType::Q4_0, (1, k, n), row, &w, &mut alone).unwrap();
        assert_eq!(alone[..], all[r * n..(r + 1) * n]);
    }
}

#[test]
fn a_product_in_shares_is_the_product() {
    let (m, k, n) = (2, 64, 40);
    let w = from_float_bytes(GgmlDType::Q8_0, &signal(3, n * k)).unwrap();
    let x = signal(5, m * k);
    let mut counters = Counters::new();
    let mut whole = vec![F(0.0); m * n];
    matmul_bytes(&mut counters, GgmlDType::Q8_0, (m, k, n), &x, &w, &mut whole).unwrap();
    let job = Multiply { shape: (m, k, n), lhs: &x, bytes: &w, dst: m * n };
    let read = read_product::<F, BlockQ8_0>(&job).unwrap();
    let kb = read.per_row;
    let (cols, count) = gemv_grid(m, n, 2);
    assert_eq!((kb, cols, count), (2, 16, 6));
    let mut out = vec![F(0.0); m * n];
    for chunk in (0..count).rev() {
        let (row, from, to) = cell_share(m, n, cols, chunk);
        let act = &read.acts[row * kb..(row + 1) * kb];
        let part: Vec<F> = dot_columns(&read.rhs, act, kb, from, to);
        out[row * n + from..row * n + to].copy_from_slice(&part);
    }
    assert_eq!(out, whole);
    assert_eq!(cell_share(m, n, cols, 2), (0, 32, 40));
    assert_eq!(cell_share(m, n, cols, 4), (1, 16, 32));
    let short = Multiply { shape: (m, k, n), lhs: &x[1..], bytes: &w, dst: m * n };
    assert_eq!(
        read_product::<F, BlockQ8_0>(&short).err(),
        Some(Error::Activation { entry: Entry::Matmul, len: m * k - 1, m, k, n })
    );
    let wide = Multiply { shape: (m, 63, n), lhs: &x, bytes: &w, dst: m * n };
    assert_eq!(
        read_product::<F, BlockQ8_0>(&wide).err(),
        Some(Error::Width { entry: Entry::Matmul, len: 63, dtype: GgmlDType::Q8_0, block: 32 })
    );
}

#[test]
fn counters_are_read_and_cleared() {
    let mut counters = Counters::new();
    let w = from_float_bytes(GgmlDType::Q8_0, &vec![F(1.0); 64]).unwrap();
    let mut dst = vec![F(0.0); 2];
    matmul_bytes(&mut counters, GgmlDType::Q8_0, (1, 32, 2), &vec![F(1.0); 32], &w, &mut dst)
        .unwrap();
    assert!((dst[0].0 - 32.0).abs() < 0.05);
    let macs = take_cpu_mac_counters(&mut counters);
    assert_eq!(macs.0, 64);
    assert_eq!(macs.1, 1);
    assert_eq!(take_cpu_mac_counters(&mut counters), (0, 0));
    assert_eq!(take_cpu_bytes(&mut counters), 68);
    assert_eq!(take_cpu_bytes(&mut counters), 0);
}
