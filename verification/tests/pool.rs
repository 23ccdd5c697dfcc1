//! The executor's decisions, and the paths weights are addressed by.
use loken::arith::{Brain, Half, Real};
use loken::blocks::{GgmlDType, Quantized};
use loken::dispatch::supports;
use loken::format::q8_0::BlockQ8_0;
use loken::gemv_pool::{
    for_each_plan, keep_larger, kquant_prefill_pool, pool, pool_for_each_mut, pool_par_chunks_mut,
    pool_par_chunks_mut_prefill, pool_par_chunks_mut_t, prefill_pool, qscratch_return,
    qscratch_take, quantize_pool, route, route_after_lock, set_small_model_prefill, wait_step,
    Pool, PoolKind, PrefillFlag, Retired, Route, Task, Worker, WorkerStep, SPIN_ITERS,
};
use loken::grid::{chunk_bounds, gemv_grid, share_bounds};
use loken::prefix::Prefix;

/// Single precision, as the carrier the kernels run over.
#[derive(Clone, Copy, Debug, PartialEq)]
struct F(f32);

/// The error function, by its series near zero and its continued fraction far from it.
fn erf64(x: f64) -> f64 {
    let a = x.abs();
    let v = if a < 3.0 {
        let (mut term, mut sum, mut n) = (a, a, 0.0f64);
        while term.abs() > 1e-17 * sum.abs() && n < 200.0 {
            n += 1.0;
            term *= -a * a / n;
            sum += term / (2.0 * n + 1.0);
        }
        sum * 2.0 / std::f64::consts::PI.sqrt()
    } else {
        let mut f = 0.0f64;
        for k in (1..60).rev() {
            f = k as f64 / 2.0 / (a + f);
        }
        1.0 - (-a * a).exp() / (std::f64::consts::PI.sqrt() * (a + f))
    };
    if x < 0.0 {
        -v
    } else {
        v
    }
}

impl Real for F {
    fn zero() -> Self {
        F(0.0)
    }
    fn inf() -> Self {
        F(f32::INFINITY)
    }
    fn from_i32(i: i32) -> Self {
        F(i as f32)
    }
    fn from_count(n: usize) -> Self {
        F(n as f32)
    }
    fn from_bits(b: u32) -> Self {
        F(f32::from_bits(b))
    }
    fn to_bits(a: Self) -> u32 {
        a.0.to_bits()
    }
    fn from_half(h: Half) -> Self {
        F(half::f16::from_bits(h.bits).to_f32())
    }
    fn to_half(a: Self) -> Half {
        Half { bits: half::f16::from_f32(a.0).to_bits() }
    }
    fn to_brain(a: Self) -> Brain {
        Brain { bits: half::bf16::from_f32(a.0).to_bits() }
    }
    fn plus(a: Self, b: Self) -> Self {
        F(a.0 + b.0)
    }
    fn minus(a: Self, b: Self) -> Self {
        F(a.0 - b.0)
    }
    fn times(a: Self, b: Self) -> Self {
        F(a.0 * b.0)
    }
    fn over(a: Self, b: Self) -> Self {
        F(a.0 / b.0)
    }
    fn fused(a: Self, b: Self, c: Self) -> Self {
        F(a.0.mul_add(b.0, c.0))
    }
    fn negate(a: Self) -> Self {
        F(-a.0)
    }
    fn magnitude(a: Self) -> Self {
        F(a.0.abs())
    }
    fn greater(a: Self, b: Self) -> Self {
        F(a.0.max(b.0))
    }
    fn lesser(a: Self, b: Self) -> Self {
        F(a.0.min(b.0))
    }
    fn below(a: Self, b: Self) -> bool {
        a.0 < b.0
    }
    fn at_most(a: Self, b: Self) -> bool {
        a.0 <= b.0
    }
    fn same(a: Self, b: Self) -> bool {
        a.0 == b.0
    }
    fn nearest(a: Self) -> i32 {
        a.0.round() as i32
    }
    fn log2_floor(a: Self) -> i32 {
        a.0.log2().floor() as i32
    }
    fn root(a: Self) -> Self {
        F(a.0.sqrt())
    }
    fn exponential(a: Self) -> Self {
        F(a.0.exp())
    }
    fn logarithm(a: Self) -> Self {
        F(a.0.ln())
    }
    fn tangent_h(a: Self) -> Self {
        F(a.0.tanh())
    }
    fn error_fn(a: Self) -> Self {
        F(erf64(a.0 as f64) as f32)
    }
}

fn wrap(v: &[f32]) -> Vec<F> {
    v.iter().map(|&x| F(x)).collect()
}

#[test]
fn a_pool_has_workers() {
    let (small, large) = (pool(), prefill_pool());
    assert!(small.threads >= 1);
    assert!(large.threads >= small.threads);
    assert_eq!(small.threads, num_cpus::get_physical().max(1));
    assert_eq!(large.threads, num_cpus::get().max(1).max(small.threads));
    assert_eq!(Pool::decode(0).threads, 1);
    assert_eq!(Pool::prefill(4, 8).threads, 8);
    assert_eq!(Pool::prefill(16, 8).threads, 16);
}

#[test]
fn a_small_model_quantises_on_the_large_pool() {
    let mut flag = PrefillFlag { small_model: false };
    assert_eq!(quantize_pool(flag, 64), PoolKind::Decode);
    set_small_model_prefill(&mut flag, true);
    assert_eq!(quantize_pool(flag, 64), PoolKind::Prefill);
    assert_eq!(quantize_pool(flag, 31), PoolKind::Decode);
}

#[test]
fn narrow_weights_stay_on_physical_cores() {
    assert_eq!(kquant_prefill_pool(64, 8, 256), PoolKind::Decode);
    assert_eq!(kquant_prefill_pool(32, 2000, 2000), PoolKind::Decode);
    assert_eq!(kquant_prefill_pool(32, 2000, 2001), PoolKind::Prefill);
    assert_eq!(kquant_prefill_pool(32, 4096, 4096), PoolKind::Prefill);
    assert_eq!(kquant_prefill_pool(31, 4096, 4096), PoolKind::Decode);
    assert_eq!(kquant_prefill_pool(64, usize::MAX, 2), PoolKind::Prefill);
}

#[test]
fn jobs_are_routed() {
    let p = Pool { threads: 4 };
    assert_eq!(route(1, p, false, false), Route::Inline);
    assert_eq!(route(8, p, true, false), Route::Inline);
    assert_eq!(route(8, Pool { threads: 1 }, false, false), Route::Inline);
    assert_eq!(route(8, p, false, true), Route::Steal);
    assert_eq!(route(8, p, false, false), Route::TryPublish);
    assert_eq!(route_after_lock(true), Route::Publish);
    assert_eq!(route_after_lock(false), Route::Steal);
}

#[test]
fn every_chunk_is_taken_once() {
    let mut t = Task::new(3);
    let mut seen = Vec::new();
    while let Some(c) = t.claim() {
        seen.push(c);
    }
    assert_eq!(seen, vec![0, 1, 2]);
    assert!(!t.finished());
    for _ in 0..3 {
        t.finish();
    }
    assert!(t.finished());
    assert_eq!(t.claim(), None);
}

#[test]
fn a_worker_spins_then_parks() {
    let mut w = Worker::new();
    assert_eq!(w.poll(1), WorkerStep::Execute);
    for _ in 0..SPIN_ITERS - 1 {
        assert_eq!(w.poll(1), WorkerStep::Spin);
    }
    assert_eq!(w.poll(1), WorkerStep::Park);
    assert!(w.should_sleep(1));
    assert!(!w.should_sleep(2));
    assert_eq!(w.poll(2), WorkerStep::Execute);
    assert_eq!(wait_step(0), (false, 1));
    assert_eq!(wait_step(SPIN_ITERS - 1), (true, 0));
}

#[test]
fn a_job_is_kept_for_two_more() {
    let mut r = Retired::new();
    assert_eq!(r.retire(1), None);
    assert_eq!(r.retire(2), None);
    assert_eq!(r.retire(3), Some(1));
}

#[test]
fn a_run_is_shared_and_done() {
    assert_eq!(for_each_plan(10, 4, 1), (3, 4));
    assert_eq!(for_each_plan(10, 4, 5), (5, 2));
    let mut v = vec![1usize, 2, 3, 4, 5];
    pool_for_each_mut(&mut v, 2, &|i, x| x * 10 + i);
    assert_eq!(v, vec![10, 21, 32, 43, 54]);
    let f = |c: usize, part: &[F]| part.iter().map(|x| F(x.0 + c as f32)).collect::<Vec<F>>();
    let mut a = wrap(&[0.0; 5]);
    pool_par_chunks_mut(&mut a, 2, &f);
    assert_eq!(a, wrap(&[0.0, 0.0, 1.0, 1.0, 2.0]));
    let mut b = wrap(&[0.0; 5]);
    pool_par_chunks_mut_prefill(&mut b, 3, &f);
    assert_eq!(b, wrap(&[0.0, 0.0, 0.0, 1.0, 1.0]));
    let mut c = wrap(&[0.0; 4]);
    pool_par_chunks_mut_t(&mut c, 1, &f);
    assert_eq!(c, wrap(&[0.0, 1.0, 2.0, 3.0]));
}

#[test]
fn scratch_is_used_again() {
    let mut held: Vec<BlockQ8_0> = Vec::new();
    let mut buf = qscratch_take::<F, BlockQ8_0>(&mut held, 3);
    assert!(buf.len() >= 3);
    <BlockQ8_0 as Quantized<F>>::quantize(&vec![F(1.0); 96], &mut buf[..3]);
    let room = buf.capacity();
    qscratch_return(&mut held, buf);
    assert_eq!(held.capacity(), room);
    let again = qscratch_take::<F, BlockQ8_0>(&mut held, 2);
    assert!(again.len() >= 2);
    assert_eq!(again.capacity(), room);
}

#[test]
fn scratch_comes_back_however_often_it_is_taken() {
    let mut held: Vec<BlockQ8_0> = Vec::new();
    for round in 0..4 {
        let mut buf = qscratch_take::<F, BlockQ8_0>(&mut held, 5);
        assert_eq!(held.capacity(), 0);
        assert_eq!(buf.len(), 5);
        // What the last round left is still there.
        assert_eq!(buf[0].qs[0], if round == 0 { 0 } else { 40 + round as i8 });
        buf[0].qs[0] = 41 + round as i8;
        qscratch_return(&mut held, buf);
        assert_eq!(held.len(), 5);
    }
    let longer = qscratch_take::<F, BlockQ8_0>(&mut held, 9);
    assert_eq!(longer.len(), 9);
    assert_eq!(longer[0].qs[0], 44);
    assert_eq!(longer[8].qs[0], 0);
}

#[test]
fn the_roomier_buffer_is_kept() {
    let mut held = vec![1u8, 2];
    keep_larger(&mut held, vec![3u8], 8, 7);
    assert_eq!(held, [1, 2]);
    keep_larger(&mut held, vec![4u8], 8, 8);
    assert_eq!(held, [4]);
    keep_larger(&mut held, vec![5u8, 6], 8, 9);
    assert_eq!(held, [5, 6]);
}

#[test]
fn a_grid_of_many_rows_counts_its_chunks() {
    // The chunks can be counted where the cells cannot.
    let m = usize::MAX / 16;
    let (cols, chunks) = gemv_grid(m, 256, 2);
    assert_eq!(cols, 16);
    assert_eq!(chunks, 16 * m);
    assert_eq!(gemv_grid(3, 0, 2), (1, 0));
    assert_eq!(gemv_grid(0, 100, 2), (16, 0));
}

#[test]
fn chunks_and_shares_cover() {
    let (cols, chunks) = gemv_grid(2, 1000, 4);
    assert_eq!((cols, chunks), (31, 66));
    assert_eq!(gemv_grid(1, 8, 4), (8, 1));
    let mut next = 0;
    for c in 0..33 {
        let (a, b) = chunk_bounds(31, 1000, c);
        assert_eq!(a, next);
        next = b;
    }
    assert_eq!(next, 1000);
    let mut next = 0;
    for t in 0..3 {
        let (a, b) = share_bounds(10, 3, t);
        assert_eq!(a, next);
        next = b;
    }
    assert_eq!(next, 10);
}

#[test]
fn paths_are_joined_by_dots() {
    let root = Prefix::root();
    assert_eq!(root.as_str(), "");
    assert_eq!(root.path("weight"), "weight");
    let layer = root.join("model").join("layers").join("3");
    assert_eq!(layer.as_str(), "model.layers.3");
    assert_eq!(layer.path("weight"), "model.layers.3.weight");
    assert_eq!(root.join("a.b").path("c"), root.join("a").join("b").path("c"));
}

#[test]
fn block_types_that_can_be_multiplied() {
    assert!(supports(GgmlDType::Q4K));
    assert!(supports(GgmlDType::MxFp4));
    assert!(!supports(GgmlDType::Q8_1));
}
