//! Operations over tensors.
use loken::arith::{Brain, Half, Real};
use loken::error::Error;
use loken::ffn::{GateFn, NormFn};
use loken::float::Single;
use loken::ops::activation::{
    sigmoid, silu, split_silu_mul_f32, swiglu, swiglu_oai, Activation, SiluGate,
};
use loken::ops::attention::{
    banded_causal_attention, causal_band_mask, causal_mask, flash_attn_prefill, heads_first,
    repeat_kv, repeat_kv_unbatched, rope, rope_i, score_band,
};
use loken::ops::norm::{fused_add_rmsnorm_f32, rms_norm, RmsNorm};
use loken::ops::softmax::{
    log_softmax, softmax, softmax_last_dim, softmax_last_dim_masked, softmax_scaled_masked,
};
use loken::ops::stored;
use loken::ops::traits::{IndexOp, Module, TensorId, TensorIndexer};
use loken::tensor::{broadcast_add, host_f32, Tensor};

/// Single precision, as the carrier the kernels run over.
#[derive(Clone, Copy, Debug, PartialEq)]
struct F(f32);

/// The error function, by its series near zero and its continued fraction far from it.
fn erf64(x: f64) -> f64 {
    let a = x.abs();
    let v = if a < 3.0 {
        let (mut term, mut sum, mut n) = (a, a, 0.0f64);
        while term.abs() > 1e-17 * sum.abs() && n < 200.0 {
            n += 1.0;
            term *= -a * a / n;
            sum += term / (2.0 * n + 1.0);
        }
        sum * 2.0 / std::f64::consts::PI.sqrt()
    } else {
        let mut f = 0.0f64;
        for k in (1..60).rev() {
            f = k as f64 / 2.0 / (a + f);
        }
        1.0 - (-a * a).exp() / (std::f64::consts::PI.sqrt() * (a + f))
    };
    if x < 0.0 {
        -v
    } else {
        v
    }
}

impl Real for F {
    fn zero() -> Self {
        F(0.0)
    }
    fn inf() -> Self {
        F(f32::INFINITY)
    }
    fn from_i32(i: i32) -> Self {
        F(i as f32)
    }
    fn from_count(n: usize) -> Self {
        F(n as f32)
    }
    fn from_bits(b: u32) -> Self {
        F(f32::from_bits(b))
    }
    fn to_bits(a: Self) -> u32 {
        a.0.to_bits()
    }
    fn from_half(h: Half) -> Self {
        F(half::f16::from_bits(h.bits).to_f32())
    }
    fn to_half(a: Self) -> Half {
        Half { bits: half::f16::from_f32(a.0).to_bits() }
    }
    fn to_brain(a: Self) -> Brain {
        Brain { bits: half::bf16::from_f32(a.0).to_bits() }
    }
    fn plus(a: Self, b: Self) -> Self {
        F(a.0 + b.0)
    }
    fn minus(a: Self, b: Self) -> Self {
        F(a.0 - b.0)
    }
    fn times(a: Self, b: Self) -> Self {
        F(a.0 * b.0)
    }
    fn over(a: Self, b: Self) -> Self {
        F(a.0 / b.0)
    }
    fn fused(a: Self, b: Self, c: Self) -> Self {
        F(a.0.mul_add(b.0, c.0))
    }
    fn negate(a: Self) -> Self {
        F(-a.0)
    }
    fn magnitude(a: Self) -> Self {
        F(a.0.abs())
    }
    fn greater(a: Self, b: Self) -> Self {
        F(a.0.max(b.0))
    }
    fn lesser(a: Self, b: Self) -> Self {
        F(a.0.min(b.0))
    }
    fn below(a: Self, b: Self) -> bool {
        a.0 < b.0
    }
    fn at_most(a: Self, b: Self) -> bool {
        a.0 <= b.0
    }
    fn same(a: Self, b: Self) -> bool {
        a.0 == b.0
    }
    fn nearest(a: Self) -> i32 {
        a.0.round() as i32
    }
    fn log2_floor(a: Self) -> i32 {
        a.0.log2().floor() as i32
    }
    fn root(a: Self) -> Self {
        F(a.0.sqrt())
    }
    fn exponential(a: Self) -> Self {
        F(a.0.exp())
    }
    fn logarithm(a: Self) -> Self {
        F(a.0.ln())
    }
    fn tangent_h(a: Self) -> Self {
        F(a.0.tanh())
    }
    fn error_fn(a: Self) -> Self {
        F(erf64(a.0 as f64) as f32)
    }
}

fn wrap(v: &[f32]) -> Vec<F> {
    v.iter().map(|&x| F(x)).collect()
}

fn tensor(v: Vec<f32>, dims: &[usize]) -> Tensor<F> {
    Tensor::from_vec(wrap(&v), dims.to_vec()).unwrap()
}

fn flat(t: &Tensor<F>) -> Vec<f32> {
    t.data.iter().map(|x| x.0).collect()
}

fn halves(v: &[f32]) -> Vec<Half> {
    v.iter().map(|&x| Half { bits: half::f16::from_f32(x).to_bits() }).collect()
}

fn wide(h: Half) -> f32 {
    half::f16::from_bits(h.bits).to_f32()
}

/// `[h, m, k]` times `[h, k, n]`, head by head.
fn matmul(h: usize, m: usize, k: usize, n: usize, a: &[f32], b: &[f32]) -> Vec<f32> {
    let mut out = vec![0f32; h * m * n];
    for x in 0..h {
        for r in 0..m {
            for c in 0..n {
                let mut s = 0f32;
                for i in 0..k {
                    s += a[(x * m + r) * k + i] * b[(x * k + i) * n + c];
                }
                out[(x * m + r) * n + c] = s;
            }
        }
    }
    out
}

/// `[h, m, n]` with its two last dimensions exchanged.
fn transposed(h: usize, m: usize, n: usize, a: &[f32]) -> Vec<f32> {
    let mut out = vec![0f32; h * m * n];
    for x in 0..h {
        for r in 0..m {
            for c in 0..n {
                out[(x * n + c) * m + r] = a[(x * m + r) * n + c];
            }
        }
    }
    out
}

#[test]
fn a_banded_attention_answers_what_the_whole_context_answers() {
    let (kv_heads, groups, seq, past, hd) = (2usize, 3usize, 6usize, 11usize, 4usize);
    let rows = groups * seq;
    let kv = past + seq;
    let mk = |n: usize, shape: [usize; 4], spread: f32| {
        let v: Vec<f32> = (0..n).map(|i| (i as f32 * 0.7).sin() * spread).collect();
        tensor(v, &shape)
    };
    let q = mk(kv_heads * rows * hd, [1, kv_heads, rows, hd], 6.0);
    let k = mk(kv_heads * kv * hd, [1, kv_heads, kv, hd], 6.0);
    let v = mk(kv_heads * kv * hd, [1, kv_heads, kv, hd], 2.0);

    let banded = banded_causal_attention(&q, &k, &v, seq, past).unwrap();

    let kt = transposed(kv_heads, kv, hd, &flat(&k));
    let scores = tensor(
        matmul(kv_heads, rows, hd, kv, &flat(&q), &kt),
        &[1, kv_heads * groups, seq, kv],
    );
    let mask: Vec<f32> = (0..seq)
        .flat_map(|p| {
            (0..kv).map(move |j| {
                if j > past + p {
                    f32::NEG_INFINITY
                } else {
                    0f32
                }
            })
        })
        .collect();
    let mask = tensor(mask, &[seq, kv]);
    let weights = softmax_last_dim(&broadcast_add(&scores, &mask).unwrap()).unwrap();
    let whole = matmul(kv_heads, rows, kv, hd, &flat(&weights), &flat(&v));

    let a = flat(&banded);
    assert_eq!(a.len(), whole.len());
    for (i, (x, y)) in a.iter().zip(whole.iter()).enumerate() {
        assert!((x - y).abs() < 1e-4, "element {i}: {x} vs {y}");
    }
}

#[test]
fn several_bands_answer_what_the_whole_context_answers() {
    // A context longer than a band, so that the running maximum moves between bands.
    let (kv_heads, seq, past, hd) = (1usize, 2usize, 9_000usize, 2usize);
    let kv = past + seq;
    assert!(score_band(kv_heads * seq, kv) < kv);
    let q: Vec<f32> = (0..seq * hd).map(|i| (i as f32 * 0.9).cos() * 3.0).collect();
    let k: Vec<f32> = (0..kv * hd).map(|i| (i as f32 * 0.013).sin() * 2.0).collect();
    let v: Vec<f32> = (0..kv * hd).map(|i| (i as f32 * 0.31).sin()).collect();
    let got = banded_causal_attention(
        &tensor(q.clone(), &[1, 1, seq, hd]),
        &tensor(k.clone(), &[1, 1, kv, hd]),
        &tensor(v.clone(), &[1, 1, kv, hd]),
        seq,
        past,
    )
    .unwrap();
    for p in 0..seq {
        let score = |c: usize| {
            (0..hd).map(|i| q[p * hd + i] as f64 * k[c * hd + i] as f64).sum::<f64>()
        };
        let top = (0..=past + p).map(score).fold(f64::NEG_INFINITY, f64::max);
        let sum: f64 = (0..=past + p).map(|c| (score(c) - top).exp()).sum();
        for i in 0..hd {
            let want: f64 = (0..=past + p)
                .map(|c| (score(c) - top).exp() / sum * v[c * hd + i] as f64)
                .sum();
            let have = got.data[p * hd + i].0 as f64;
            assert!((have - want).abs() < 1e-3, "{p} {i}: {have} vs {want}");
        }
    }
}

#[test]
fn the_band_stays_between_its_bounds() {
    assert_eq!(score_band(64, 100), 100);
    assert!(score_band(64, 1_000_000) <= 8192);
    // A great many rows still get a band worth launching a matmul for.
    assert!(score_band(1_000_000, 1_000_000) >= 256);
}

#[test]
fn a_band_is_as_wide_as_its_scores_allow() {
    assert_eq!(score_band(0, 0), 1);
    assert_eq!(score_band(4096, 1_000_000), 4096);
    assert_eq!(score_band(1, 1_000_000), 8192);
    assert_eq!(score_band(usize::MAX, 1_000_000), 256);
}

#[test]
fn grouping_the_queries_answers_what_copying_the_keys_does() {
    let (kv, rep, seq, kv_len, hd) = (3usize, 4usize, 5usize, 7usize, 6usize);
    let heads = kv * rep;
    let mk = |n: usize, shape: [usize; 4]| {
        let v: Vec<f32> = (0..n).map(|i| ((i * 37) % 23) as f32 - 11.0).collect();
        tensor(v, &shape)
    };
    let q = mk(heads * seq * hd, [1, heads, seq, hd]);
    let k = mk(kv * kv_len * hd, [1, kv, kv_len, hd]);
    let v = mk(kv * kv_len * hd, [1, kv, kv_len, hd]);

    // Copying the keys: one K and V per query head.
    let ke = repeat_kv(k.copied(), rep).unwrap();
    let ve = repeat_kv(v.copied(), rep).unwrap();
    let ket = transposed(heads, kv_len, hd, &flat(&ke));
    let s = matmul(heads, seq, hd, kv_len, &flat(&q), &ket);
    let copied = matmul(heads, seq, kv_len, hd, &s, &flat(&ve));

    // Grouping the queries: K and V as stored.
    let qg = q.reshape(vec![1, kv, rep * seq, hd]).unwrap();
    let kt = transposed(kv, kv_len, hd, &flat(&k));
    let scores = tensor(
        matmul(kv, rep * seq, hd, kv_len, &flat(&qg), &kt),
        &[1, kv, rep * seq, kv_len],
    );
    let scores = scores.reshape(vec![1, heads, seq, kv_len]).unwrap();
    let scores = scores.reshape(vec![1, kv, rep * seq, kv_len]).unwrap();
    let grouped = matmul(kv, rep * seq, kv_len, hd, &flat(&scores), &flat(&v));

    assert_eq!(copied.len(), grouped.len());
    for (i, (x, y)) in copied.iter().zip(grouped.iter()).enumerate() {
        assert!((x - y).abs() < 1e-3, "element {i}: {x} vs {y}");
    }
}

#[test]
fn the_three_ways_to_repeat_kv_heads_agree() {
    let (b, kv, seq, hd, rep) = (2usize, 3usize, 4usize, 5usize, 3usize);
    let v: Vec<f32> = (0..b * kv * seq * hd).map(|i| i as f32).collect();
    let xs = tensor(v, &[b, kv, seq, hd]);

    let broadcast = repeat_kv(xs.copied(), rep).unwrap();
    assert_eq!(broadcast.dims, vec![b, kv * rep, seq, hd]);

    // Concatenated along the positions, and reshaped.
    let mut concatenated = Vec::new();
    for head in flat(&xs).chunks(seq * hd) {
        for _ in 0..rep {
            concatenated.extend_from_slice(head);
        }
    }

    // Selected by index along the heads.
    let ids: Vec<usize> = (0..kv).flat_map(|h| std::iter::repeat(h).take(rep)).collect();
    let mut selected = Vec::new();
    for batch in 0..b {
        for &h in &ids {
            let from = (batch * kv + h) * seq * hd;
            selected.extend_from_slice(&flat(&xs)[from..from + seq * hd]);
        }
    }

    assert_eq!(flat(&broadcast), concatenated, "concatenated");
    assert_eq!(flat(&broadcast), selected, "selected");

    // And the grouping itself: query head h*rep+r has to see kv head h, which is the claim
    // the shapes above cannot make on their own.
    let got = flat(&broadcast);
    let want = flat(&xs);
    for h in 0..kv {
        for r in 0..rep {
            let out = (h * rep + r) * seq * hd;
            let src = h * seq * hd;
            assert_eq!(
                got[out..out + seq * hd],
                want[src..src + seq * hd],
                "kv head {h}, repeat {r}"
            );
        }
    }
}

#[test]
fn repeating_without_a_batch_is_repeating_with_one() {
    let v: Vec<f32> = (0..24).map(|i| i as f32).collect();
    let batched = repeat_kv(tensor(v.clone(), &[1, 2, 3, 4]), 3).unwrap();
    let bare = repeat_kv_unbatched(&tensor(v.clone(), &[2, 3, 4]), 3).unwrap();
    assert_eq!(bare.dims, vec![6, 3, 4]);
    assert_eq!(flat(&bare), flat(&batched));
    let once = repeat_kv_unbatched(&tensor(v.clone(), &[2, 3, 4]), 1).unwrap();
    assert_eq!(flat(&once), v);
    assert_eq!(
        repeat_kv(tensor(v.clone(), &[2, 3, 4]), 2).err(),
        Some(Error::Rank { want: 4, have: 3 })
    );
    assert_eq!(repeat_kv(tensor(v, &[1, 2, 3, 4]), 0).unwrap().dims, vec![1, 0, 3, 4]);
}

#[test]
fn fused_masked_softmax_bit_exact_vs_unfused() {
    // att [B=1, H=2, Pq=5, Pk=5], causal mask [Pq,Pk] with -inf above diagonal.
    let (h, p) = (2usize, 5usize);
    let att: Vec<f32> = (0..h * p * p)
        .map(|i| (i as f32 * 0.37).sin() * 3.0)
        .collect();
    let mut mask = vec![0f32; p * p];
    for i in 0..p {
        for j in 0..p {
            if j > i {
                mask[i * p + j] = f32::NEG_INFINITY;
            }
        }
    }
    let att_t = tensor(att, &[1, h, p, p]);
    let mask_t = tensor(mask, &[p, p]);
    let fused = flat(&softmax_last_dim_masked(&att_t, &mask_t).unwrap());
    let unfused = flat(&softmax_last_dim(&broadcast_add(&att_t, &mask_t).unwrap()).unwrap());
    assert_eq!(fused.len(), unfused.len());
    for (a, b) in fused.iter().zip(&unfused) {
        assert_eq!(a.to_bits(), b.to_bits(), "fused {a} != unfused {b}");
    }
}

#[test]
fn a_mask_of_another_shape_is_stretched() {
    let att = tensor((0..8).map(|i| i as f32).collect(), &[2, 2, 2]);
    let mask = tensor(vec![0.0, f32::NEG_INFINITY], &[2, 1, 1]);
    let got = flat(&softmax_last_dim_masked(&att, &mask).unwrap());
    let plain = flat(&softmax_last_dim(&att).unwrap());
    assert_eq!(got[..4], plain[..4]);
    assert!(got[4..].iter().all(|v| v.is_nan()));
    let bad = tensor(vec![0.0; 3], &[3]);
    assert_eq!(softmax_last_dim_masked(&att, &bad).err(), Some(Error::Shape));
}

#[test]
fn a_softmax_is_shares_of_a_whole() {
    let x = tensor(vec![0.0, 2f32.ln(), 0.0, 0.0], &[2, 2]);
    let rows = flat(&softmax_last_dim(&x).unwrap());
    let want = [1.0 / 3.0, 2.0 / 3.0, 0.5, 0.5];
    for (a, b) in rows.iter().zip(want) {
        assert!((a - b).abs() < 1e-6, "{a} vs {b}");
    }
    let columns = flat(&softmax(&x, 0).unwrap());
    assert_eq!(columns[0], 0.5);
    assert!((columns[1] - 2.0 / 3.0).abs() < 1e-6);
    let logs = flat(&log_softmax(&x, 1).unwrap());
    for (a, b) in logs.iter().zip(want) {
        assert!((a - (b as f32).ln()).abs() < 1e-6, "{a} vs {b}");
    }
    assert_eq!(softmax(&x, 2).err(), Some(Error::Axis { dim: 2, rank: 2 }));
    assert_eq!(
        softmax_last_dim(&tensor(vec![1.0], &[])).err(),
        Some(Error::Rank { want: 1, have: 0 })
    );
}

#[test]
fn scaling_and_masking_ride_along() {
    let att: Vec<f32> = (0..12).map(|i| (i as f32 * 0.5).sin()).collect();
    let mask = tensor(vec![0.0, f32::NEG_INFINITY, 0.0, 0.0, 0.0, 0.0], &[2, 3]);
    let h = Tensor::from_vec(halves(&att), vec![2, 2, 3]).unwrap();
    let got = flat(&softmax_scaled_masked(&h, F(0.25), &mask).unwrap());
    let scaled = tensor(
        halves(&att).iter().map(|&x| wide(x) * 0.25).collect(),
        &[2, 2, 3],
    );
    let want = flat(&softmax_last_dim_masked(&scaled, &mask).unwrap());
    assert_eq!(got, want);
    assert_eq!(got[1], 0.0);
}

#[test]
fn a_norm_divides_by_the_root_mean_square() {
    let x = tensor(vec![3.0, 4.0, 6.0, 8.0], &[2, 2]);
    let w = tensor(vec![1.0, 2.0], &[2]);
    let got = flat(&rms_norm(&x, &w, F(0.0)).unwrap());
    let d = 12.5f32.sqrt();
    assert!((got[0] - 3.0 / d).abs() < 1e-6);
    assert!((got[1] - 8.0 / d).abs() < 1e-6);
    assert!((got[0] - got[2]).abs() < 1e-6);
    // A weight of another shape is stretched over the levelled rows.
    let one = tensor(vec![2.0], &[1]);
    let level = flat(&rms_norm(&x, &one, F(0.0)).unwrap());
    assert!((level[0] - 6.0 / d).abs() < 1e-6);
    assert_eq!(
        rms_norm(&x, &tensor(vec![1.0; 3], &[3]), F(0.0)).err(),
        Some(Error::Shape)
    );
}

#[test]
fn residual_and_norm_fused_are_the_two_steps() {
    let a = tensor((0..12).map(|i| (i as f32 * 0.7).sin()).collect(), &[3, 4]);
    let b = tensor((0..12).map(|i| (i as f32 * 1.3).cos()).collect(), &[3, 4]);
    let w = tensor(vec![1.0, 0.5, 2.0, 1.5], &[4]);
    let (sum, norm) = fused_add_rmsnorm_f32(&a, &b, &w, F(1e-5)).unwrap().unwrap();
    let two = broadcast_add(&a, &b).unwrap();
    assert_eq!(sum.data, two.data);
    assert_eq!(norm.data, rms_norm(&two, &w, F(1e-5)).unwrap().data);
    assert!(fused_add_rmsnorm_f32(&a, &tensor(vec![0.0; 12], &[4, 3]), &w, F(1e-5))
        .unwrap()
        .is_none());
}

#[test]
fn a_row_norm_is_the_tensor_norm() {
    let x = wrap(&[1.0, -2.0, 3.0]);
    let w = wrap(&[0.5, 1.0, 2.0]);
    let row = RmsNorm { weight: w.clone(), eps: F(1e-6) }.norm(&x);
    let t = rms_norm(
        &Tensor::from_vec(x, vec![1, 3]).unwrap(),
        &Tensor::from_vec(w, vec![3]).unwrap(),
        F(1e-6),
    )
    .unwrap();
    assert_eq!(row, t.data);
}

#[test]
fn activations_at_known_points() {
    let x = tensor(vec![-1.0, 0.0, 1.0, 2.0], &[4]);
    let near = |act: Activation, want: [f32; 4]| {
        let got = flat(&act.apply(&x).unwrap());
        for (a, b) in got.iter().zip(want) {
            assert!((a - b).abs() < 2e-6, "{act:?}: {a} vs {b}");
        }
    };
    near(Activation::Relu, [0.0, 0.0, 1.0, 2.0]);
    near(Activation::Sigmoid, [0.26894143, 0.5, 0.7310586, 0.880797]);
    near(Activation::Silu, [-0.26894143, 0.0, 0.7310586, 1.761594]);
    near(Activation::Gelu, [-0.15865526, 0.0, 0.8413447, 1.9544997]);
    near(Activation::NewGelu, [-0.158808, 0.0, 0.841192, 1.954598]);
    near(Activation::GeluPytorchTanh, [-0.158808, 0.0, 0.841192, 1.954598]);
    near(Activation::QuickGelu, [-0.15420423, 0.0, 0.8457958, 1.9356586]);
    assert_eq!(Activation::default(), Activation::Gelu);
    assert_eq!(
        (&Activation::Silu).forward(&x).unwrap().data,
        silu(&x).unwrap().data
    );
    assert_eq!(
        Activation::Sigmoid.apply(&x).unwrap().data,
        sigmoid(&x).unwrap().data
    );
}

#[test]
fn a_packed_projection_is_gated() {
    let x = tensor(vec![1.0, -1.0, 3.0, 5.0, 0.0, 2.0, 7.0, 9.0], &[2, 4]);
    let got = split_silu_mul_f32(&x).unwrap().unwrap();
    assert_eq!(got.dims, vec![2, 2]);
    let s = |g: f32| g * (1.0 / (1.0 + (-g).exp()));
    assert_eq!(flat(&got), vec![s(1.0) * 3.0, s(-1.0) * 5.0, 0.0, s(2.0) * 9.0]);
    assert!(split_silu_mul_f32(&tensor(vec![1.0; 3], &[1, 3])).unwrap().is_none());
    assert_eq!(
        split_silu_mul_f32(&tensor(vec![1.0], &[])).err(),
        Some(Error::Rank { want: 1, have: 0 })
    );
    assert_eq!(SiluGate.gate(F(1.0), F(3.0)).0, s(1.0) * 3.0);

    let g = Tensor::from_vec(halves(&[1.0, -2.0]), vec![2]).unwrap();
    let u = Tensor::from_vec(halves(&[3.0, 0.5]), vec![2]).unwrap();
    let h = swiglu::<F>(&g, &u).unwrap();
    assert_eq!(h.data, halves(&[s(1.0) * 3.0, s(-2.0) * 0.5]));
    let other = Tensor::from_vec(halves(&[3.0, 0.5]), vec![1, 2]).unwrap();
    assert_eq!(swiglu::<F>(&g, &other).err(), Some(Error::Shape));
}

#[test]
fn the_clamped_activation_clamps() {
    let (alpha, limit) = (1.702f32, 7.0f32);
    let g = tensor(vec![1.0, 100.0, -3.0, 0.0], &[2, 2]);
    let u = tensor(vec![0.5, -100.0, 100.0, 2.0], &[2, 2]);
    let gb = tensor(vec![0.25, 0.0], &[2]);
    let got = flat(&swiglu_oai(&g, &u, Some(&gb), None, F(alpha), F(limit)).unwrap());
    let want = |g: f32, u: f32| {
        let x = g.min(limit);
        let y = u.clamp(-limit, limit);
        x / (1.0 + (-alpha * x).exp()) * (y + 1.0)
    };
    let pairs = [(1.25, 0.5), (100.0, -100.0), (-2.75, 100.0), (0.0, 2.0)];
    for (i, (a, b)) in pairs.iter().enumerate() {
        assert!((got[i] - want(*a, *b)).abs() < 1e-4, "{i}: {} vs {}", got[i], want(*a, *b));
    }
}

#[test]
fn a_rotation_turns_its_pairs() {
    let (c, s) = (0.6f32, 0.8f32);
    let x = tensor(vec![1.0, 2.0, 3.0, 4.0, 5.0, 6.0, 7.0, 8.0], &[1, 1, 2, 4]);
    let cos = tensor(vec![1.0, 1.0, c, 0.0], &[2, 2]);
    let sin = tensor(vec![0.0, 0.0, s, 1.0], &[2, 2]);
    let halves = flat(&rope(&x, &cos, &sin).unwrap());
    assert_eq!(halves[..4], [1.0, 2.0, 3.0, 4.0]);
    assert_eq!(halves[4], 5.0 * c - 7.0 * s);
    assert_eq!(halves[6], 7.0 * c + 5.0 * s);
    assert_eq!((halves[5], halves[7]), (-8.0, 6.0));
    let pairs = flat(&rope_i(&x, &cos, &sin).unwrap());
    assert_eq!(pairs[4], 5.0 * c - 6.0 * s);
    assert_eq!(pairs[5], 5.0 * s + 6.0 * c);
    assert_eq!((pairs[6], pairs[7]), (-8.0, 7.0));
    assert_eq!(
        rope(&tensor(vec![1.0; 4], &[4]), &cos, &sin).err(),
        Some(Error::Rank { want: 4, have: 1 })
    );
}

#[test]
fn heads_come_in_front_of_positions() {
    let (b, seq, heads, hd) = (2usize, 3usize, 2usize, 2usize);
    let v: Vec<f32> = (0..b * seq * heads * hd).map(|i| i as f32).collect();
    let got = heads_first(tensor(v.clone(), &[b, seq, heads * hd]), heads, hd).unwrap();
    assert_eq!(got.dims, vec![b, heads, seq, hd]);
    for bi in 0..b {
        for h in 0..heads {
            for s in 0..seq {
                for d in 0..hd {
                    assert_eq!(
                        got.data[((bi * heads + h) * seq + s) * hd + d].0,
                        v[((bi * seq + s) * heads + h) * hd + d]
                    );
                }
            }
        }
    }
    assert_eq!(
        heads_first(tensor(v.clone(), &[b, seq, heads * hd]), 3, hd).err(),
        Some(Error::Shape)
    );
    assert_eq!(
        heads_first(tensor(v, &[b * seq, heads * hd]), heads, hd).err(),
        Some(Error::Rank { want: 3, have: 2 })
    );
}

#[test]
fn masks_hide_what_comes_later() {
    let m = causal_mask(3, F(-7.0));
    assert_eq!(flat(&m), vec![0.0, -7.0, -7.0, 0.0, 0.0, -7.0, 0.0, 0.0, 0.0]);
    let band = causal_band_mask::<F>(2, 1, 1, 3);
    let inf = f32::NEG_INFINITY;
    assert_eq!(flat(&band), vec![0.0, inf, inf, 0.0, 0.0, inf]);
}

#[test]
fn a_half_precision_prefill_is_causal_attention() {
    let (b, h, groups, seq, past, hd) = (1usize, 2usize, 2usize, 3usize, 2usize, 4usize);
    let (rows, kv) = (groups * seq, past + seq);
    let mk = |n: usize, f: f32| halves(&(0..n).map(|i| (i as f32 * f).sin()).collect::<Vec<_>>());
    let q = Tensor::from_vec(mk(b * h * rows * hd, 0.7), vec![b, h, rows, hd]).unwrap();
    let k = Tensor::from_vec(mk(b * h * kv * hd, 0.3), vec![b, h, kv, hd]).unwrap();
    let v = Tensor::from_vec(mk(b * h * kv * hd, 0.9), vec![b, h, kv, hd]).unwrap();
    let got = flash_attn_prefill(&q, &k, &v, F(0.5), past, seq).unwrap().unwrap();
    assert_eq!(got.dims, vec![b, h, rows, hd]);
    for head in 0..h {
        for r in 0..rows {
            let last = past + r % seq;
            let score = |c: usize| {
                (0..hd)
                    .map(|i| {
                        wide(q.data[(head * rows + r) * hd + i])
                            * wide(k.data[(head * kv + c) * hd + i])
                    })
                    .sum::<f32>()
                    * 0.5
            };
            let top = (0..=last).map(score).fold(f32::NEG_INFINITY, f32::max);
            let sum: f32 = (0..=last).map(|c| (score(c) - top).exp()).sum();
            for i in 0..hd {
                let want: f32 = (0..=last)
                    .map(|c| (score(c) - top).exp() / sum * wide(v.data[(head * kv + c) * hd + i]))
                    .sum();
                let have = wide(got.data[(head * rows + r) * hd + i]);
                assert!((have - want).abs() < 2e-3, "{head} {r} {i}: {have} vs {want}");
            }
        }
    }
    // Off this path: a context that is not past and chunk, or rows that do not split.
    assert!(flash_attn_prefill(&q, &k, &v, F(0.5), past + 1, seq).unwrap().is_none());
    assert!(flash_attn_prefill(&q, &k, &v, F(0.5), 1, 4).unwrap().is_none());
}

#[test]
fn indexing_selects_and_narrows() {
    let t = tensor((0..24).map(|i| i as f32).collect(), &[2, 3, 4]);
    let one = t.i(1).unwrap();
    assert_eq!(one.dims, vec![3, 4]);
    assert_eq!(flat(&one), (12..24).map(|i| i as f32).collect::<Vec<_>>());
    let piece = t.i((TensorIndexer::all(), 1..3, 2)).unwrap();
    assert_eq!(piece.dims, vec![2, 2]);
    assert_eq!(flat(&piece), vec![6.0, 10.0, 18.0, 22.0]);
    let tail = t.i((0, TensorIndexer::starting(2), TensorIndexer::through(1, 2))).unwrap();
    assert_eq!(tail.dims, vec![1, 2]);
    assert_eq!(flat(&tail), vec![9.0, 10.0]);
    let head = t.i(TensorIndexer::ending(1)).unwrap();
    assert_eq!(head.dims, vec![1, 3, 4]);
    assert_eq!(
        t.i(2).err(),
        Some(Error::Index { dim: 0, start: 2, end: 2, size: 2 })
    );
    assert_eq!(
        t.i((TensorIndexer::all(), 2..5)).err(),
        Some(Error::Index { dim: 1, start: 2, end: 5, size: 3 })
    );
    assert_eq!(t.i((0, 0, 0, 0)).err(), Some(Error::Axis { dim: 0, rank: 0 }));
    assert_eq!(TensorIndexer::from(1..2), TensorIndexer::from(1..2));
    assert!(TensorId(1) < TensorId(2));
}

#[test]
fn shapes_stretch_as_one_expects() {
    let a = tensor(vec![1.0, 2.0, 3.0, 4.0], &[2, 2]);
    let row = tensor(vec![10.0, 20.0], &[2]);
    let column = tensor(vec![100.0, 200.0], &[2, 1]);
    assert_eq!(flat(&broadcast_add(&a, &row).unwrap()), vec![11.0, 22.0, 13.0, 24.0]);
    assert_eq!(flat(&broadcast_add(&a, &column).unwrap()), vec![101.0, 102.0, 203.0, 204.0]);
    let both = broadcast_add(&row, &column).unwrap();
    assert_eq!(both.dims, vec![2, 2]);
    assert_eq!(flat(&both), vec![110.0, 120.0, 210.0, 220.0]);
    assert_eq!(
        broadcast_add(&a, &tensor(vec![0.0; 3], &[3])).err(),
        Some(Error::Shape)
    );
    assert_eq!(
        Tensor::from_vec(wrap(&[1.0, 2.0]), vec![3]).err(),
        Some(Error::Shape)
    );
}

#[test]
fn a_tensor_reads_back_as_wide_values() {
    let h = Tensor::from_vec(halves(&[1.0, -0.5]), vec![2]).unwrap();
    assert_eq!(host_f32::<F, Half>(&h).unwrap(), wrap(&[1.0, -0.5]));
    let s = Tensor::from_vec(vec![Single { v: F(2.5) }], vec![1]).unwrap();
    assert_eq!(host_f32(&s).unwrap(), vec![F(2.5)]);
    let b = Tensor::from_vec(vec![Brain { bits: 0x3f80 }], vec![1]).unwrap();
    assert_eq!(host_f32::<F, Brain>(&b).unwrap(), vec![F(1.0)]);
}

#[test]
fn a_banded_attention_refuses_shapes_that_disagree() {
    let q = tensor(vec![0.0; 8], &[1, 1, 4, 2]);
    let k = tensor(vec![0.0; 8], &[1, 1, 4, 2]);
    assert_eq!(
        banded_causal_attention(&tensor(vec![0.0; 8], &[8]), &k, &k, 4, 0).err(),
        Some(Error::Rank { want: 4, have: 1 })
    );
    assert_eq!(
        banded_causal_attention(&q, &tensor(vec![0.0; 8], &[8]), &k, 4, 0).err(),
        Some(Error::Axis { dim: 2, rank: 1 })
    );
    assert_eq!(banded_causal_attention(&q, &k, &k, 3, 0).err(), Some(Error::Shape));
    assert!(banded_causal_attention(&q, &k, &k, 2, 2).is_ok());
}

fn half_tensor(v: &[f32], dims: &[usize]) -> Tensor<Half> {
    Tensor { dims: dims.to_vec(), data: halves(v) }
}

fn brain_tensor(v: &[f32], dims: &[usize]) -> Tensor<Brain> {
    let data = v.iter().map(|&x| Brain { bits: half::bf16::from_f32(x).to_bits() }).collect();
    Tensor { dims: dims.to_vec(), data }
}

/// What half precision keeps.
fn h(x: f32) -> f32 {
    half::f16::from_f32(x).to_f32()
}

#[test]
fn silu_is_the_value_times_its_sigmoid() {
    let v: Vec<f32> = (0..5000).map(|i| (i as f32 * 0.013).sin() * 9.0).collect();
    for n in [100usize, 5000] {
        let x = tensor(v[..n].to_vec(), &[n]);
        let (s, t) = (flat(&sigmoid(&x).unwrap()), flat(&silu(&x).unwrap()));
        for i in 0..n {
            assert_eq!(t[i], v[i] * s[i]);
        }
    }
}

#[test]
fn rotating_neighbours_is_rotating_halves_of_the_permuted_rows() {
    let (b, hd, s, d) = (2usize, 3usize, 4usize, 6usize);
    let v: Vec<f32> = (0..b * hd * s * d).map(|i| (i as f32 * 0.7).sin() * 3.0).collect();
    let mut p = v.clone();
    for row in p.chunks_mut(d) {
        let old = row.to_vec();
        for j in 0..d / 2 {
            row[j] = old[2 * j];
            row[j + d / 2] = old[2 * j + 1];
        }
    }
    let cos = tensor((0..s * d / 2).map(|i| (i as f32 * 0.3).cos()).collect(), &[s, d / 2]);
    let sin = tensor((0..s * d / 2).map(|i| (i as f32 * 0.3).sin()).collect(), &[s, d / 2]);
    let t = flat(&rope_i(&tensor(v, &[b, hd, s, d]), &cos, &sin).unwrap());
    let y = flat(&rope(&tensor(p, &[b, hd, s, d]), &cos, &sin).unwrap());
    for r in 0..b * hd * s {
        for j in 0..d / 2 {
            assert_eq!(t[r * d + 2 * j], y[r * d + j]);
            assert_eq!(t[r * d + 2 * j + 1], y[r * d + j + d / 2]);
        }
    }
}

#[test]
fn log_softmax_exponentiates_to_softmax() {
    let v: Vec<f32> = (0..24).map(|i| (i as f32 * 1.3).sin() * 4.0).collect();
    let x = tensor(v, &[2, 3, 4]);
    for dim in 0..3 {
        let (p, t) = (flat(&softmax(&x, dim).unwrap()), flat(&log_softmax(&x, dim).unwrap()));
        for i in 0..24 {
            assert!((t[i].exp() - p[i]).abs() < 1e-6);
            assert!(t[i] <= 0.0);
        }
    }
}

#[test]
fn a_half_softmax_reduces_wide_and_stores_once() {
    let v = [0.5f32, -1.25, 3.0, 2.0, 2.0, 2.0];
    let got = stored::softmax_last_dim::<F, Half>(&half_tensor(&v, &[2, 3])).unwrap();
    let full = flat(&softmax_last_dim(&tensor(v.to_vec(), &[2, 3])).unwrap());
    assert_eq!(got.dims, [2, 3]);
    for i in 0..6 {
        assert_eq!(wide(got.data[i]), h(full[i]));
    }
    assert!(stored::softmax_last_dim::<F, Half>(&half_tensor(&[1.0], &[])).is_err());
    // A mask is added, and the sum stored, before the softmax is taken.
    let mask = half_tensor(&[0.0, f32::NEG_INFINITY, 0.001], &[3]);
    let got =
        stored::softmax_last_dim_masked::<F, Half>(&half_tensor(&v, &[2, 3]), &mask).unwrap();
    let sum: Vec<f32> =
        (0..6).map(|i| h(v[i] + [0.0, f32::NEG_INFINITY, h(0.001)][i % 3])).collect();
    let full = flat(&softmax_last_dim(&tensor(sum, &[2, 3])).unwrap());
    for i in 0..6 {
        assert_eq!(wide(got.data[i]), h(full[i]));
    }
    let wrong = half_tensor(&[0.0; 2], &[2]);
    assert_eq!(
        stored::softmax_last_dim_masked::<F, Half>(&half_tensor(&v, &[2, 3]), &wrong).err(),
        Some(Error::Shape)
    );
}

#[test]
fn a_half_softmax_along_a_dimension_stores_its_steps() {
    let v = [0.5f32, -1.25, 3.0, 2.0];
    let x = half_tensor(&v, &[2, 2]);
    let got = stored::softmax::<F, Half>(&x, 0).unwrap();
    let logs = stored::log_softmax::<F, Half>(&x, 0).unwrap();
    for c in 0..2 {
        let (a, b) = (v[c], v[c + 2]);
        let m = a.max(b);
        let (da, db) = (h(a - m), h(b - m));
        let (ea, eb) = (h(da.exp()), h(db.exp()));
        let s = h(ea + eb);
        assert_eq!(wide(got.data[c]), h(ea / s));
        assert_eq!(wide(got.data[c + 2]), h(eb / s));
        assert_eq!(wide(logs.data[c]), h(da - h(s.ln())));
        assert_eq!(wide(logs.data[c + 2]), h(db - h(s.ln())));
    }
    assert_eq!(
        stored::softmax::<F, Half>(&x, 2).err(),
        Some(Error::Axis { dim: 2, rank: 2 })
    );
}

#[test]
fn a_half_norm_is_stored_before_its_weight() {
    let v = [1.0f32, 2.0, 2.0, 4.0];
    let w = [0.3f32, 1.7, -1.0, 0.9];
    let got = stored::rms_norm::<F, Half>(
        &half_tensor(&v, &[1, 4]),
        &half_tensor(&w, &[4]),
        F(1e-5),
    )
    .unwrap();
    let denom = (25.0f32 / 4.0 + 1e-5).sqrt();
    for i in 0..4 {
        assert_eq!(wide(got.data[i]), h(h(v[i] / denom) * h(w[i])));
    }
    // In single precision nothing is lost on the way.
    let single = |v: &[f32], d: &[usize]| Tensor {
        dims: d.to_vec(),
        data: v.iter().map(|&x| Single { v: F(x) }).collect(),
    };
    let wide_norm =
        stored::rms_norm::<F, Single<F>>(&single(&v, &[1, 4]), &single(&w, &[4]), F(1e-5)).unwrap();
    let plain =
        flat(&rms_norm(&tensor(v.to_vec(), &[1, 4]), &tensor(w.to_vec(), &[4]), F(1e-5)).unwrap());
    for i in 0..4 {
        assert_eq!(wide_norm.data[i].v.0, plain[i]);
    }
}

#[test]
fn half_activations_store_their_steps() {
    let v = [0.5f32, -3.0, 7.25];
    let x = half_tensor(&v, &[3]);
    let s = stored::sigmoid::<F, Half>(&x).unwrap();
    let t = stored::silu::<F, Half>(&x).unwrap();
    for i in 0..3 {
        let sig = h(1.0 / h(h((-v[i]).exp()) + 1.0));
        assert_eq!(wide(s.data[i]), sig);
        assert_eq!(wide(t.data[i]), h(v[i] * sig));
    }
}

#[test]
fn a_gated_pair_is_stored_at_the_width_asked_for() {
    let (g, u) = ([0.5f32, -3.0], [2.0f32, 1.5]);
    let want: Vec<f32> =
        (0..2).map(|i| (g[i] * (1.0 / (1.0 + (-g[i]).exp()))) * u[i]).collect();
    let (hg, hu) = (half_tensor(&g, &[2]), half_tensor(&u, &[2]));
    let single = stored::swiglu::<F, Half, Half, Single<F>>(&hg, &hu).unwrap();
    let half = stored::swiglu::<F, Half, Half, Half>(&hg, &hu).unwrap();
    let brain = stored::swiglu::<F, Brain, Half, Brain>(&brain_tensor(&g, &[2]), &hu).unwrap();
    let one = swiglu::<F>(&hg, &hu).unwrap();
    for i in 0..2 {
        assert_eq!(single.data[i].v.0, want[i]);
        assert_eq!(wide(half.data[i]), h(want[i]));
        assert_eq!(one.data[i], half.data[i]);
        assert_eq!(
            half::bf16::from_bits(brain.data[i].bits),
            half::bf16::from_f32(want[i])
        );
    }
    let short = half_tensor(&[1.0], &[1]);
    assert_eq!(
        stored::swiglu::<F, Half, Half, Half>(&hg, &short).err(),
        Some(Error::Shape)
    );
}

#[test]
fn a_half_rotation_stores_its_steps() {
    let v = [1.0f32, 2.0, 3.0, 4.0];
    let (c, s) = ([0.8f32, 0.1], [0.6f32, 0.99]);
    let x = half_tensor(&v, &[1, 1, 1, 4]);
    let (cos, sin) = (half_tensor(&c, &[1, 2]), half_tensor(&s, &[1, 2]));
    let y = stored::rope::<F, Half>(&x, &cos, &sin).unwrap();
    let z = stored::rope_i::<F, Half>(&x, &cos, &sin).unwrap();
    for j in 0..2 {
        let (cj, sj) = (h(c[j]), h(s[j]));
        assert_eq!(wide(y.data[j]), h(h(v[j] * cj) - h(v[j + 2] * sj)));
        assert_eq!(wide(y.data[j + 2]), h(h(v[j + 2] * cj) + h(v[j] * sj)));
        assert_eq!(wide(z.data[2 * j]), h(h(v[2 * j] * cj) - h(v[2 * j + 1] * sj)));
        assert_eq!(wide(z.data[2 * j + 1]), h(h(v[2 * j] * sj) + h(v[2 * j + 1] * cj)));
    }
    // A value without a partner is left out of halves, and refused among neighbours.
    let odd = half_tensor(&[1.0, 2.0, 3.0], &[1, 1, 1, 3]);
    let (cos, sin) = (half_tensor(&c[..1], &[1, 1]), half_tensor(&s[..1], &[1, 1]));
    assert_eq!(stored::rope::<F, Half>(&odd, &cos, &sin).unwrap().dims, [1, 1, 1, 2]);
    assert_eq!(stored::rope_i::<F, Half>(&odd, &cos, &sin).err(), Some(Error::Shape));
    assert_eq!(stored::rope::<F, Half>(&x, &cos, &sin).err(), Some(Error::Shape));
    assert_eq!(
        stored::rope::<F, Half>(&half_tensor(&v, &[4]), &cos, &sin).err(),
        Some(Error::Rank { want: 4, have: 1 })
    );
}

#[test]
fn a_banded_attention_of_halves_answers_near_the_wide_one() {
    let (heads, rows, seq, past, hd) = (2usize, 6usize, 3usize, 4usize, 4usize);
    let kv = past + seq;
    let mk = |n: usize, spread: f32| -> Vec<f32> {
        (0..n).map(|i| h((i as f32 * 0.7).sin() * spread)).collect()
    };
    let (q, k, v) = (mk(heads * rows * hd, 2.0), mk(heads * kv * hd, 2.0), mk(heads * kv * hd, 1.0));
    let (qd, kd) = ([1, heads, rows, hd], [1, heads, kv, hd]);
    let got = stored::banded_causal_attention::<F, Half>(
        &half_tensor(&q, &qd),
        &half_tensor(&k, &kd),
        &half_tensor(&v, &kd),
        seq,
        past,
    )
    .unwrap();
    let full =
        banded_causal_attention(&tensor(q, &qd), &tensor(k, &kd), &tensor(v, &kd), seq, past).unwrap();
    let mut moved = false;
    for (a, b) in flat(&got).iter().zip(flat(&full)) {
        assert!((a - b).abs() < 1e-2, "{a} {b}");
        moved = moved || *a != b;
    }
    // The scores were stored at half precision on the way.
    assert!(moved);
    let bad = half_tensor(&[0.0; 4], &[4]);
    assert_eq!(
        stored::banded_causal_attention::<F, Half>(&bad, &bad, &bad, seq, past).err(),
        Some(Error::Rank { want: 4, have: 1 })
    );
}
