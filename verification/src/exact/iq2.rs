//! The grid format.
use vstd::prelude::*;
use crate::arith::{Real, radd, rhalf, rint, rmul};
use crate::blocks::BlockFormat;
use crate::coded::shared;
use crate::exact::numbers::{
    exact, lemma_fsum_val, lemma_rsum_eq, lemma_rsum_int, lemma_rsum_runs, lemma_rsum_scale, rsum,
};
use crate::format::iq2_xxs::{
    BlockIq2Xxs, grid_of, index_of, iq_plain_term, iq_sub_dot, iq_term, level_of, selector_of,
    sign_bit, sign_r, signed_point, sub_factor, sub_step,
};
use crate::format::q8_k::BlockQ8K;
use crate::sums::{fsum, isum, lemma_isum_bound};

verus! {

/// A grid value is a byte.
pub(crate) proof fn lemma_grid_small(n: int, k: int)
    ensures
        0 <= grid_of(n, k) < 256,
{
    reveal(grid_of);
}

/// The integer product of a sub-block is small.
proof fn lemma_sub_small(qs: Seq<u16>, y: Seq<i8>, s: int)
    requires
        y.len() == 256,
        0 <= s < 8,
    ensures
        -0x10_0000 <= iq_sub_dot(qs, y, s) <= 0x10_0000,
{
    let g = |i: int| signed_point(qs, 32 * s + i) * y[32 * s + i];
    assert forall|i: int| 0 <= i < 32 implies -0x8000 <= #[trigger] g(i) <= 0x8000 by {
        let e = 32 * s + i;
        lemma_grid_small(index_of(qs, e / 32, (e % 32) / 8), e % 8);
        let (a, b) = (signed_point(qs, e), y[e] as int);
        assert(-0x8000 <= a * b <= 0x8000) by (nonlinear_arith)
            requires
                -255 <= a <= 255,
                -128 <= b <= 127,
        ;
    }
    lemma_isum_bound(32, g, 0x8000);
}

/// A value is its sub-block's factor under the block scale, times its signed grid value.
pub(crate) proof fn lemma_value<R: Real>(val: spec_fn(R) -> real, x: BlockIq2Xxs, e: int)
    requires
        exact(val),
    ensures
        val(x.value_of::<R>(e)) == (val(rhalf::<R>(x.d)) * val(
            sub_factor::<R>(level_of(x.qs@, e / 32)),
        )) * (signed_point(x.qs@, e) as real),
{
    let (s, l, k) = (e / 32, (e % 32) / 8, e % 8);
    let g = grid_of(index_of(x.qs@, s, l), k);
    lemma_grid_small(index_of(x.qs@, s, l), k);
    let negative = sign_bit(selector_of(x.qs@, s, l) as u8, k) == 1;
    let d = val(rhalf::<R>(x.d));
    let level = level_of(x.qs@, s);
    let h = val(radd(crate::format::iq2_xxs::half_r::<R>(), rint(level as i32)));
    let q = val(crate::format::iq2_xxs::quarter_r::<R>());
    let (rg, sg) = (g as real, val(sign_r::<R>(negative)));
    assert(val(sub_step(rhalf::<R>(x.d), level)) == (d * h) * q);
    assert(val(sub_factor::<R>(level)) == h * q);
    assert((d * h) * q == d * (h * q)) by (nonlinear_arith);
    let k2 = d * (h * q);
    assert((k2 * rg) * sg == k2 * (rg * sg)) by (nonlinear_arith);
    if negative {
        let one = 1 as real;
        assert(rg * (-one) == -rg) by (nonlinear_arith)
            requires
                one == 1 as real,
        ;
        assert((-g) as real == -rg);
    } else {
        let one = 1 as real;
        assert(rg * one == rg) by (nonlinear_arith)
            requires
                one == 1 as real,
        ;
    }
}

/// One block by its integers is one block by its values.
proof fn lemma_terms<R: Real>(val: spec_fn(R) -> real, x: BlockIq2Xxs, y: BlockQ8K<R>)
    requires
        exact(val),
    ensures
        val(iq_term::<R>(x, y)) == val(iq_plain_term::<R>(x, y)),
{
    let (d, yd) = (val(rhalf::<R>(x.d)), val(y.d));
    let factor = |s: int| val(sub_factor::<R>(level_of(x.qs@, s)));
    let p = |e: int| signed_point(x.qs@, e) * y.qs@[e];
    // By integers.
    let f = |s: int|
        rmul(
            sub_factor::<R>(level_of(x.qs@, s)),
            rint(iq_sub_dot(x.qs@, y.qs@, s) as i32),
        );
    lemma_fsum_val(val, 8, f);
    let a = |s: int| val(f(s));
    let b = |s: int| factor(s) * (iq_sub_dot(x.qs@, y.qs@, s) as real);
    assert forall|s: int| 0 <= s < 8 implies #[trigger] a(s) == b(s) by {
        lemma_sub_small(x.qs@, y.qs@, s);
    }
    lemma_rsum_eq(8, a, b);
    // By values.
    let g = |e: int| rmul(x.value_of::<R>(e), rint(y.qs@[e] as i32));
    lemma_fsum_val(val, 256, g);
    let c = |e: int| val(g(e));
    lemma_rsum_runs(8, 32, c);
    let run = |s: int| rsum(32, |t: int| c(s * 32 + t));
    let scaled = |s: int| d * b(s);
    assert forall|s: int| 0 <= s < 8 implies #[trigger] run(s) == scaled(s) by {
        let k = d * factor(s);
        let q = |t: int| p(32 * s + t);
        let rq = |t: int| q(t) as real;
        lemma_rsum_int(32, q);
        lemma_rsum_scale(32, k, rq);
        let left = |t: int| c(s * 32 + t);
        let right = |t: int| k * rq(t);
        assert forall|t: int| 0 <= t < 32 implies #[trigger] left(t) == right(t) by {
            let e = s * 32 + t;
            assert(e / 32 == s);
            lemma_value::<R>(val, x, e);
            let (u, v) = (signed_point(x.qs@, e), y.qs@[e] as int);
            let (ru, rv) = (u as real, v as real);
            assert((u * v) as real == ru * rv) by (nonlinear_arith)
                requires
                    ru == u as real,
                    rv == v as real,
            ;
            assert((k * ru) * rv == k * (ru * rv)) by (nonlinear_arith);
        }
        lemma_rsum_eq(32, left, right);
        let t = iq_sub_dot(x.qs@, y.qs@, s) as real;
        let fs = factor(s);
        crate::sums::lemma_isum_eq(
            32,
            |i: int| signed_point(x.qs@, 32 * s + i) * y.qs@[32 * s + i],
            q,
        );
        assert((d * fs) * t == d * (fs * t)) by (nonlinear_arith);
        assert(rsum(32, rq) == isum(32, q) as real);
        assert(rsum(32, right) == k * rsum(32, rq));
        assert(run(s) == rsum(32, left));
    }
    lemma_rsum_eq(8, run, scaled);
    lemma_rsum_scale(8, d, b);
    let total = rsum(8, b);
    assert((d * yd) * total == yd * (d * total)) by (nonlinear_arith);
}

proof fn lemma_iq2<R: Real>(
    val: spec_fn(R) -> real,
    xs: Seq<BlockIq2Xxs>,
    ys: Seq<BlockQ8K<R>>,
    n: nat,
)
    requires
        exact(val),
    ensures
        val(fsum(n, |b: int| iq_term::<R>(xs[b], ys[b]))) == val(
            fsum(n, |b: int| iq_plain_term::<R>(xs[b], ys[b])),
        ),
    decreases n,
{
    if n > 0 {
        lemma_iq2::<R>(val, xs, ys, (n - 1) as nat);
        lemma_terms::<R>(val, xs[n - 1], ys[n - 1]);
    }
}

/// iq2_xxs: the kernel and its plain definition are one number.
pub proof fn iq2_kernel_is_plain<R: Real>(
    val: spec_fn(R) -> real,
    xs: Seq<BlockIq2Xxs>,
    ys: Seq<BlockQ8K<R>>,
)
    requires
        exact(val),
    ensures
        val(<BlockIq2Xxs as BlockFormat<R>>::dot_of(xs, ys)) == val(
            <BlockIq2Xxs as BlockFormat<R>>::dot_scalar_of(xs, ys),
        ),
{
    lemma_iq2::<R>(val, xs, ys, shared(xs.len(), ys.len()));
}

} // verus!
