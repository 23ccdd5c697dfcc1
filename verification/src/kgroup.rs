//! Kernels over eight interleaved columns, stated one column at a time.
//!
//! An interleaved block is eight super-blocks at once, and a kernel over it is eight dot products
//! that share one reading of the activations. What each of the eight computes depends only on what
//! the column holds, so the statements here are over any block with scales and minimums.
use vstd::prelude::*;
use crate::arith::{
    Real, lawful, radd, rfma, rint, rmul, rsub, rzero, fma, int_to, minus, plus, times, zero,
};
use crate::coded::{cell, tile};
use crate::format::q4_k::wide_sum;
use crate::format::q8_k::BlockQ8K;
use crate::koffset::Minned;
use crate::lanes::product;
use crate::sums::{isum, lemma_isum_eq};
use crate::superblock::{Codes256, scaled_dot, sub_dot, sub_dots};

verus! {

// -- blocks that read alike --

/// Two blocks with the same codes under the same sub-block scales.
pub open spec fn same_codes<A: Codes256, B: Codes256>(a: A, b: B) -> bool {
    &&& forall|e: int| 0 <= e < 256 ==> #[trigger] a.code_of(e) == b.code_of(e)
    &&& forall|s: int| 0 <= s < 16 ==> #[trigger] a.sub_scale_of(s) == b.sub_scale_of(s)
}

/// Two blocks that agree in everything a kernel reads.
pub open spec fn alike<R: Real, A: Minned<R>, B: Minned<R>>(a: A, b: B) -> bool {
    &&& same_codes(a, b)
    &&& a.d_of() == b.d_of()
    &&& a.dmin_of() == b.dmin_of()
    &&& forall|s: int| 0 <= s < 16 ==> #[trigger] a.sub_min_of(s) == b.sub_min_of(s)
}

/// Two runs of blocks that agree block by block.
pub open spec fn runs_alike<R: Real, A: Minned<R>, B: Minned<R>>(
    xs: Seq<A>,
    zs: Seq<B>,
    n: nat,
) -> bool {
    forall|l: int| 0 <= l < n ==> #[trigger] alike::<R, A, B>(xs[l], zs[l])
}

/// Equal codes give equal sub-block products.
pub proof fn lemma_same_sub_dot<A: Codes256, B: Codes256>(a: A, b: B, y: Seq<i8>, s: int)
    requires
        same_codes(a, b),
        0 <= s < 16,
    ensures
        sub_dot(a, y, s) == sub_dot(b, y, s),
{
    lemma_isum_eq(
        16,
        |t: int| a.code_of(16 * s + t) * y[16 * s + t],
        |t: int| b.code_of(16 * s + t) * y[16 * s + t],
    );
}

/// Equal codes under equal scales give equal products.
pub proof fn lemma_same_scaled_dot<A: Codes256, B: Codes256>(a: A, b: B, y: Seq<i8>)
    requires
        same_codes(a, b),
    ensures
        scaled_dot(a, y) == scaled_dot(b, y),
{
    assert forall|s: int| 0 <= s < 16 implies #[trigger] sub_dot(a, y, s) == sub_dot(b, y, s) by {
        lemma_same_sub_dot(a, b, y, s);
    }
    lemma_isum_eq(
        16,
        |s: int| a.sub_scale_of(s) * sub_dot(a, y, s),
        |s: int| b.sub_scale_of(s) * sub_dot(b, y, s),
    );
}

// -- the tiled product --

/// The minimum term of a block, one fused step per sub-block of thirty-two.
pub open spec fn mins_fused<R: Real, C: Minned<R>>(x: C, y: BlockQ8K<R>, t: nat) -> R
    decreases t,
{
    if t == 0 {
        rzero::<R>()
    } else {
        rfma(
            rint(x.sub_min_of(2 * (t - 1)) as i32),
            rint(wide_sum(y.bsums@, t - 1) as i32),
            mins_fused(x, y, (t - 1) as nat),
        )
    }
}

/// The codes' half of a column's product after `n` blocks.
pub open spec fn tiled_codes<R: Real, C: Minned<R>>(xs: Seq<C>, ys: Seq<BlockQ8K<R>>, n: nat) -> R
    decreases n,
{
    if n == 0 {
        rzero::<R>()
    } else {
        let x = xs[n - 1];
        let y = ys[n - 1];
        rfma(
            rmul(x.d_of(), y.d),
            rint(scaled_dot(x, y.qs@) as i32),
            tiled_codes(xs, ys, (n - 1) as nat),
        )
    }
}

/// The minimums' half of a column's product after `n` blocks.
pub open spec fn tiled_mins<R: Real, C: Minned<R>>(xs: Seq<C>, ys: Seq<BlockQ8K<R>>, n: nat) -> R
    decreases n,
{
    if n == 0 {
        rzero::<R>()
    } else {
        let x = xs[n - 1];
        let y = ys[n - 1];
        rfma(
            rmul(x.dmin_of(), y.d),
            mins_fused::<R, C>(x, y, 8),
            tiled_mins(xs, ys, (n - 1) as nat),
        )
    }
}

/// A column's product as the tiled kernels compute it.
pub open spec fn tiled_dot<R: Real, C: Minned<R>>(xs: Seq<C>, ys: Seq<BlockQ8K<R>>, n: nat) -> R {
    rsub(tiled_codes::<R, C>(xs, ys, n), tiled_mins::<R, C>(xs, ys, n))
}

// -- the single-row product --

/// The minimum term of a block as one exact integer.
pub open spec fn mins_exact<R: Real, C: Minned<R>>(x: C, y: BlockQ8K<R>) -> int {
    isum(8, |t: int| x.sub_min_of(2 * t) * wide_sum(y.bsums@, t))
}

/// The codes' half of a column's single-row product after `n` blocks.
pub open spec fn single_codes<R: Real, C: Minned<R>>(xs: Seq<C>, ys: Seq<BlockQ8K<R>>, n: nat) -> R
    decreases n,
{
    if n == 0 {
        rzero::<R>()
    } else {
        let x = xs[n - 1];
        let y = ys[n - 1];
        rfma(
            rint(scaled_dot(x, y.qs@) as i32),
            rmul(x.d_of(), y.d),
            single_codes(xs, ys, (n - 1) as nat),
        )
    }
}

/// The minimums' half of a column's single-row product after `n` blocks.
pub open spec fn single_mins<R: Real, C: Minned<R>>(xs: Seq<C>, ys: Seq<BlockQ8K<R>>, n: nat) -> R
    decreases n,
{
    if n == 0 {
        rzero::<R>()
    } else {
        let x = xs[n - 1];
        let y = ys[n - 1];
        rfma(
            rint(mins_exact::<R, C>(x, y) as i32),
            rmul(x.dmin_of(), y.d),
            single_mins(xs, ys, (n - 1) as nat),
        )
    }
}

/// A column's product as the single-row kernels compute it.
pub open spec fn single_dot<R: Real, C: Minned<R>>(xs: Seq<C>, ys: Seq<BlockQ8K<R>>, n: nat) -> R {
    rsub(single_codes::<R, C>(xs, ys, n), single_mins::<R, C>(xs, ys, n))
}

// -- the stepwise product --

/// Where the eight low-nibble values of step `k` start; the high-nibble ones start 32 later.
pub open spec fn step_at(k: int) -> int {
    (k / 4) * 64 + (k % 4) * 8
}

/// The scaled products of step `k`: eight bytes, two nibbles each.
pub open spec fn step_dot<C: Codes256>(x: C, y: Seq<i8>, k: int) -> int {
    isum(
        8,
        |i: int|
            x.code_of(step_at(k) + i) * y[step_at(k) + i] * x.sub_scale_of(4 * (k / 4))
                + x.code_of(step_at(k) + 32 + i) * y[step_at(k) + 32 + i] * x.sub_scale_of(
                4 * (k / 4) + 2,
            ),
    )
}

/// `acc` and the first `k` steps of a block.
pub open spec fn code_steps<R: Real, C: Minned<R>>(x: C, y: BlockQ8K<R>, acc: R, k: nat) -> R
    decreases k,
{
    if k == 0 {
        acc
    } else {
        radd(
            code_steps(x, y, acc, (k - 1) as nat),
            rmul(rmul(rint(step_dot(x, y.qs@, k - 1) as i32), x.d_of()), y.d),
        )
    }
}

/// `acc` and the first `t` minimums of a block.
pub open spec fn min_steps<R: Real, C: Minned<R>>(x: C, y: BlockQ8K<R>, acc: R, t: nat) -> R
    decreases t,
{
    if t == 0 {
        acc
    } else {
        radd(
            min_steps(x, y, acc, (t - 1) as nat),
            rmul(
                rmul(
                    rmul(
                        rint(x.sub_min_of(2 * (t - 1)) as i32),
                        rint(wide_sum(y.bsums@, t - 1) as i32),
                    ),
                    x.dmin_of(),
                ),
                y.d,
            ),
        )
    }
}

/// The codes' half of the stepwise product after `n` blocks.
pub open spec fn stepped_codes<R: Real, C: Minned<R>>(xs: Seq<C>, ys: Seq<BlockQ8K<R>>, n: nat) -> R
    decreases n,
{
    if n == 0 {
        rzero::<R>()
    } else {
        code_steps::<R, C>(xs[n - 1], ys[n - 1], stepped_codes(xs, ys, (n - 1) as nat), 16)
    }
}

/// The minimums' half of the stepwise product after `n` blocks.
pub open spec fn stepped_mins<R: Real, C: Minned<R>>(xs: Seq<C>, ys: Seq<BlockQ8K<R>>, n: nat) -> R
    decreases n,
{
    if n == 0 {
        rzero::<R>()
    } else {
        min_steps::<R, C>(xs[n - 1], ys[n - 1], stepped_mins(xs, ys, (n - 1) as nat), 8)
    }
}

/// A column's product, one rounding per step.
pub open spec fn stepped_dot<R: Real, C: Minned<R>>(xs: Seq<C>, ys: Seq<BlockQ8K<R>>, n: nat) -> R {
    rsub(stepped_codes::<R, C>(xs, ys, n), stepped_mins::<R, C>(xs, ys, n))
}

// -- the kernels --

/// All scaled products of a super-block.
pub fn scaled_products<C: Codes256>(x: &C, y: &[i8; 256]) -> (r: i32)
    ensures
        r == scaled_dot(*x, y@),
{
    let dots = sub_dots(x, y);
    let scales = x.sub_scales();
    let ghost f = |s: int| x.sub_scale_of(s) * sub_dot(*x, y@, s);
    let mut sum: i32 = 0;
    for s in 0..16usize
        invariant
            forall|k: int| 0 <= k < 16 ==> #[trigger] dots@[k] == sub_dot(*x, y@, k),
            forall|k: int| 0 <= k < 16 ==> -0x4_0000 <= #[trigger] dots@[k] <= 0x4_0000,
            forall|k: int| 0 <= k < 16 ==> #[trigger] scales@[k] == x.sub_scale_of(k),
            f == (|s: int| x.sub_scale_of(s) * sub_dot(*x, y@, s)),
            sum == isum(s as nat, f),
            -0x0200_0000 * s <= sum <= 0x0200_0000 * s,
    {
        let sc: i32 = scales[s] as i32;
        let q: i32 = dots[s];
        assert(-0x0200_0000 <= sc * q <= 0x0200_0000) by (nonlinear_arith)
            requires
                -128 <= sc <= 127,
                -0x4_0000 <= q <= 0x4_0000,
        ;
        assert(f(s as int) == sc * q);
        sum = sum + sc * q;
    }
    sum
}

/// The sum of a sub-block of thirty-two activations.
fn pair_sum(bsums: &[i16; 16], t: usize) -> (r: i32)
    requires
        t < 8,
    ensures
        r == wide_sum(bsums@, t as int),
        -65536 <= r <= 65534,
{
    bsums[2 * t] as i32 + bsums[2 * t + 1] as i32
}

/// One column against one activation row, as the tiled kernels compute it.
pub fn tiled_column<R: Real, C: Minned<R>>(xs: &[C], ys: &[BlockQ8K<R>], nb: usize) -> (r: R)
    requires
        lawful::<R>(),
        nb <= xs@.len(),
        nb <= ys@.len(),
    ensures
        r == tiled_dot::<R, C>(xs@, ys@, nb as nat),
{
    let mut codes = zero::<R>();
    let mut mins = zero::<R>();
    for l in 0..nb
        invariant
            lawful::<R>(),
            nb <= xs@.len(),
            nb <= ys@.len(),
            codes == tiled_codes::<R, C>(xs@, ys@, l as nat),
            mins == tiled_mins::<R, C>(xs@, ys@, l as nat),
    {
        let x = &xs[l];
        let y = &ys[l];
        let products = scaled_products(x, &y.qs);
        codes = fma(times(x.d(), y.d), int_to(products), codes);
        let m = x.sub_mins();
        let mut fused = zero::<R>();
        for t in 0..8usize
            invariant
                lawful::<R>(),
                forall|s: int| 0 <= s < 16 ==> #[trigger] m@[s] == x.sub_min_of(s),
                fused == mins_fused::<R, C>(*x, *y, t as nat),
        {
            assert(m@[2 * t] == x.sub_min_of(2 * t as int));
            fused = fma(int_to(m[2 * t] as i32), int_to(pair_sum(&y.bsums, t)), fused);
        }
        mins = fma(times(x.dmin(), y.d), fused, mins);
    }
    minus(codes, mins)
}

/// The minimum term of a block as one exact integer.
fn exact_mins<R: Real, C: Minned<R>>(x: &C, y: &BlockQ8K<R>) -> (r: i32)
    ensures
        r == mins_exact::<R, C>(*x, *y),
{
    let m = x.sub_mins();
    let ghost f = |t: int| x.sub_min_of(2 * t) * wide_sum(y.bsums@, t);
    let mut sum: i32 = 0;
    for t in 0..8usize
        invariant
            forall|s: int| 0 <= s < 16 ==> #[trigger] m@[s] == x.sub_min_of(s),
            f == (|t: int| x.sub_min_of(2 * t) * wide_sum(y.bsums@, t)),
            sum == isum(t as nat, f),
            -0x0080_0000 * t <= sum <= 0x0080_0000 * t,
    {
        let a: i32 = m[2 * t] as i32;
        let b: i32 = pair_sum(&y.bsums, t);
        assert(m@[2 * t] == x.sub_min_of(2 * t as int));
        assert(-0x0080_0000 <= a * b <= 0x0080_0000) by (nonlinear_arith)
            requires
                -128 <= a <= 127,
                -65536 <= b <= 65534,
        ;
        assert(f(t as int) == a * b);
        sum = sum + a * b;
    }
    sum
}

/// One column against one activation row, as the single-row kernels compute it.
pub fn single_column<R: Real, C: Minned<R>>(xs: &[C], ys: &[BlockQ8K<R>], nb: usize) -> (r: R)
    requires
        lawful::<R>(),
        nb <= xs@.len(),
        nb <= ys@.len(),
    ensures
        r == single_dot::<R, C>(xs@, ys@, nb as nat),
{
    let mut codes = zero::<R>();
    let mut mins = zero::<R>();
    for l in 0..nb
        invariant
            lawful::<R>(),
            nb <= xs@.len(),
            nb <= ys@.len(),
            codes == single_codes::<R, C>(xs@, ys@, l as nat),
            mins == single_mins::<R, C>(xs@, ys@, l as nat),
    {
        let x = &xs[l];
        let y = &ys[l];
        let products = scaled_products(x, &y.qs);
        codes = fma(int_to(products), times(x.d(), y.d), codes);
        let exact = exact_mins(x, y);
        mins = fma(int_to(exact), times(x.dmin(), y.d), mins);
    }
    minus(codes, mins)
}

/// The scaled products of step `k`.
fn step_products<C: Codes256>(
    Ghost(x): Ghost<C>,
    codes: &[i8; 256],
    scales: &[i8; 16],
    y: &[i8; 256],
    k: usize,
) -> (r: i32)
    requires
        k < 16,
        forall|e: int| 0 <= e < 256 ==> #[trigger] codes@[e] == x.code_of(e),
        forall|s: int| 0 <= s < 16 ==> #[trigger] scales@[s] == x.sub_scale_of(s),
    ensures
        r == step_dot(x, y@, k as int),
{
    let at: usize = (k / 4) * 64 + (k % 4) * 8;
    let lo: i32 = scales[4 * (k / 4)] as i32;
    let hi: i32 = scales[4 * (k / 4) + 2] as i32;
    let ghost f = |i: int|
        x.code_of(step_at(k as int) + i) * y@[step_at(k as int) + i] * x.sub_scale_of(
            4 * (k as int / 4),
        ) + x.code_of(step_at(k as int) + 32 + i) * y@[step_at(k as int) + 32 + i]
            * x.sub_scale_of(4 * (k as int / 4) + 2);
    let mut sum: i32 = 0;
    for i in 0..8usize
        invariant
            k < 16,
            at == step_at(k as int),
            0 <= at <= 216,
            forall|e: int| 0 <= e < 256 ==> #[trigger] codes@[e] == x.code_of(e),
            lo == x.sub_scale_of(4 * (k as int / 4)),
            hi == x.sub_scale_of(4 * (k as int / 4) + 2),
            -128 <= lo <= 127,
            -128 <= hi <= 127,
            f == (|i: int|
                x.code_of(step_at(k as int) + i) * y@[step_at(k as int) + i] * x.sub_scale_of(
                    4 * (k as int / 4),
                ) + x.code_of(step_at(k as int) + 32 + i) * y@[step_at(k as int) + 32 + i]
                    * x.sub_scale_of(4 * (k as int / 4) + 2)),
            sum == isum(i as nat, f),
            -0x0040_0000 * i <= sum <= 0x0040_0000 * i,
    {
        let p: i32 = product(codes[at + i], y[at + i]);
        let q: i32 = product(codes[at + 32 + i], y[at + 32 + i]);
        assert(-0x0020_0000 <= p * lo <= 0x0020_0000 && -0x0020_0000 <= q * hi <= 0x0020_0000)
            by (nonlinear_arith)
            requires
                -16384 <= p <= 16384,
                -16384 <= q <= 16384,
                -128 <= lo <= 127,
                -128 <= hi <= 127,
        ;
        assert(f(i as int) == p * lo + q * hi);
        sum = sum + (p * lo + q * hi);
    }
    sum
}

/// One column against one activation row, one rounding per step.
pub fn stepped_column<R: Real, C: Minned<R>>(xs: &[C], ys: &[BlockQ8K<R>], nb: usize) -> (r: R)
    requires
        lawful::<R>(),
        nb <= xs@.len(),
        nb <= ys@.len(),
    ensures
        r == stepped_dot::<R, C>(xs@, ys@, nb as nat),
{
    let mut acc = zero::<R>();
    let mut mins = zero::<R>();
    for l in 0..nb
        invariant
            lawful::<R>(),
            nb <= xs@.len(),
            nb <= ys@.len(),
            acc == stepped_codes::<R, C>(xs@, ys@, l as nat),
            mins == stepped_mins::<R, C>(xs@, ys@, l as nat),
    {
        let x = &xs[l];
        let y = &ys[l];
        let codes = x.codes();
        let scales = x.sub_scales();
        let d = x.d();
        let dmin = x.dmin();
        let m = x.sub_mins();
        let ghost before = acc;
        for k in 0..16usize
            invariant
                lawful::<R>(),
                forall|e: int| 0 <= e < 256 ==> #[trigger] codes@[e] == x.code_of(e),
                forall|s: int| 0 <= s < 16 ==> #[trigger] scales@[s] == x.sub_scale_of(s),
                d == x.d_of(),
                acc == code_steps::<R, C>(*x, *y, before, k as nat),
        {
            let step = step_products::<C>(Ghost(*x), &codes, &scales, &y.qs, k);
            acc = plus(acc, times(times(int_to(step), d), y.d));
        }
        let ghost below = mins;
        for t in 0..8usize
            invariant
                lawful::<R>(),
                forall|s: int| 0 <= s < 16 ==> #[trigger] m@[s] == x.sub_min_of(s),
                dmin == x.dmin_of(),
                mins == min_steps::<R, C>(*x, *y, below, t as nat),
        {
            assert(m@[2 * t] == x.sub_min_of(2 * t as int));
            let low = times(int_to(m[2 * t] as i32), int_to(pair_sum(&y.bsums, t)));
            mins = plus(mins, times(times(low, dmin), y.d));
        }
    }
    minus(acc, mins)
}

// -- what a kernel returns depends only on what the column holds --

proof fn lemma_alike_mins_fused<R: Real, A: Minned<R>, B: Minned<R>>(
    a: A,
    b: B,
    y: BlockQ8K<R>,
    t: nat,
)
    requires
        alike::<R, A, B>(a, b),
        t <= 8,
    ensures
        mins_fused::<R, A>(a, y, t) == mins_fused::<R, B>(b, y, t),
    decreases t,
{
    if t > 0 {
        lemma_alike_mins_fused::<R, A, B>(a, b, y, (t - 1) as nat);
        assert(a.sub_min_of(2 * (t - 1)) == b.sub_min_of(2 * (t - 1)));
    }
}

/// Columns that read alike have the same tiled product.
pub proof fn tiled_dot_reads_the_column<R: Real, A: Minned<R>, B: Minned<R>>(
    xs: Seq<A>,
    zs: Seq<B>,
    ys: Seq<BlockQ8K<R>>,
    n: nat,
)
    requires
        runs_alike::<R, A, B>(xs, zs, n),
    ensures
        tiled_codes::<R, A>(xs, ys, n) == tiled_codes::<R, B>(zs, ys, n),
        tiled_mins::<R, A>(xs, ys, n) == tiled_mins::<R, B>(zs, ys, n),
        tiled_dot::<R, A>(xs, ys, n) == tiled_dot::<R, B>(zs, ys, n),
    decreases n,
{
    if n > 0 {
        tiled_dot_reads_the_column::<R, A, B>(xs, zs, ys, (n - 1) as nat);
        assert(alike::<R, A, B>(xs[n - 1], zs[n - 1]));
        lemma_same_scaled_dot(xs[n - 1], zs[n - 1], ys[n - 1].qs@);
        lemma_alike_mins_fused::<R, A, B>(xs[n - 1], zs[n - 1], ys[n - 1], 8);
    }
}

/// Columns that read alike have the same single-row product.
pub proof fn single_dot_reads_the_column<R: Real, A: Minned<R>, B: Minned<R>>(
    xs: Seq<A>,
    zs: Seq<B>,
    ys: Seq<BlockQ8K<R>>,
    n: nat,
)
    requires
        runs_alike::<R, A, B>(xs, zs, n),
    ensures
        single_codes::<R, A>(xs, ys, n) == single_codes::<R, B>(zs, ys, n),
        single_mins::<R, A>(xs, ys, n) == single_mins::<R, B>(zs, ys, n),
        single_dot::<R, A>(xs, ys, n) == single_dot::<R, B>(zs, ys, n),
    decreases n,
{
    if n > 0 {
        single_dot_reads_the_column::<R, A, B>(xs, zs, ys, (n - 1) as nat);
        let a = xs[n - 1];
        let b = zs[n - 1];
        let y = ys[n - 1];
        assert(alike::<R, A, B>(a, b));
        lemma_same_scaled_dot(a, b, y.qs@);
        lemma_isum_eq(
            8,
            |t: int| a.sub_min_of(2 * t) * wide_sum(y.bsums@, t),
            |t: int| b.sub_min_of(2 * t) * wide_sum(y.bsums@, t),
        );
    }
}

proof fn lemma_alike_steps<R: Real, A: Minned<R>, B: Minned<R>>(
    a: A,
    b: B,
    y: BlockQ8K<R>,
    acc: R,
    k: nat,
)
    requires
        alike::<R, A, B>(a, b),
        k <= 16,
    ensures
        code_steps::<R, A>(a, y, acc, k) == code_steps::<R, B>(b, y, acc, k),
        k <= 8 ==> min_steps::<R, A>(a, y, acc, k) == min_steps::<R, B>(b, y, acc, k),
    decreases k,
{
    if k > 0 {
        let i = k - 1;
        lemma_alike_steps::<R, A, B>(a, b, y, acc, i as nat);
        let f = |t: int|
            a.code_of(step_at(i) + t) * y.qs@[step_at(i) + t] * a.sub_scale_of(4 * (i / 4))
                + a.code_of(step_at(i) + 32 + t) * y.qs@[step_at(i) + 32 + t] * a.sub_scale_of(
                4 * (i / 4) + 2,
            );
        let g = |t: int|
            b.code_of(step_at(i) + t) * y.qs@[step_at(i) + t] * b.sub_scale_of(4 * (i / 4))
                + b.code_of(step_at(i) + 32 + t) * y.qs@[step_at(i) + 32 + t] * b.sub_scale_of(
                4 * (i / 4) + 2,
            );
        assert forall|t: int| 0 <= t < 8 implies #[trigger] f(t) == g(t) by {
            assert(a.code_of(step_at(i) + t) == b.code_of(step_at(i) + t));
            assert(a.code_of(step_at(i) + 32 + t) == b.code_of(step_at(i) + 32 + t));
        }
        lemma_isum_eq(8, f, g);
        assert(step_dot(a, y.qs@, i) == step_dot(b, y.qs@, i));
        if k <= 8 {
            assert(a.sub_min_of(2 * i) == b.sub_min_of(2 * i));
        }
    }
}

/// Columns that read alike have the same stepwise product.
pub proof fn stepped_dot_reads_the_column<R: Real, A: Minned<R>, B: Minned<R>>(
    xs: Seq<A>,
    zs: Seq<B>,
    ys: Seq<BlockQ8K<R>>,
    n: nat,
)
    requires
        runs_alike::<R, A, B>(xs, zs, n),
    ensures
        stepped_codes::<R, A>(xs, ys, n) == stepped_codes::<R, B>(zs, ys, n),
        stepped_mins::<R, A>(xs, ys, n) == stepped_mins::<R, B>(zs, ys, n),
        stepped_dot::<R, A>(xs, ys, n) == stepped_dot::<R, B>(zs, ys, n),
    decreases n,
{
    if n > 0 {
        let m = (n - 1) as nat;
        stepped_dot_reads_the_column::<R, A, B>(xs, zs, ys, m);
        assert(alike::<R, A, B>(xs[n - 1], zs[n - 1]));
        lemma_alike_steps::<R, A, B>(
            xs[n - 1],
            zs[n - 1],
            ys[n - 1],
            stepped_codes::<R, A>(xs, ys, m),
            16,
        );
        lemma_alike_steps::<R, A, B>(
            xs[n - 1],
            zs[n - 1],
            ys[n - 1],
            stepped_mins::<R, A>(xs, ys, m),
            8,
        );
    }
}

/// The sixteen steps together are every scaled product: the stepwise and the fused kernels add the
/// same integers.
pub proof fn steps_hold_every_product<C: Codes256>(x: C, y: Seq<i8>)
    requires
        forall|t: int| 0 <= t < 8 ==> #[trigger] x.sub_scale_of(2 * t) == x.sub_scale_of(2 * t + 1),
    ensures
        isum(16, |k: int| step_dot(x, y, k)) == scaled_dot(x, y),
{
    lemma_quarter(x, y, 0);
    lemma_quarter(x, y, 1);
    lemma_quarter(x, y, 2);
    lemma_quarter(x, y, 3);
    let g = |k: int| step_dot(x, y, k);
    let h = |s: int| x.sub_scale_of(s) * sub_dot(x, y, s);
    assert(isum(16, g) == g(0) + g(1) + g(2) + g(3) + g(4) + g(5) + g(6) + g(7) + g(8) + g(9) + g(
        10,
    ) + g(11) + g(12) + g(13) + g(14) + g(15)) by {
        reveal_with_fuel(isum, 17);
    }
    assert(isum(16, h) == h(0) + h(1) + h(2) + h(3) + h(4) + h(5) + h(6) + h(7) + h(8) + h(9) + h(
        10,
    ) + h(11) + h(12) + h(13) + h(14) + h(15)) by {
        reveal_with_fuel(isum, 17);
    }
    lemma_pair(x, y, 0);
    lemma_pair(x, y, 1);
    lemma_pair(x, y, 2);
    lemma_pair(x, y, 3);
    lemma_pair(x, y, 4);
    lemma_pair(x, y, 5);
    lemma_pair(x, y, 6);
    lemma_pair(x, y, 7);
}

proof fn lemma_pair<C: Codes256>(x: C, y: Seq<i8>, t: int)
    requires
        x.sub_scale_of(2 * t) == x.sub_scale_of(2 * t + 1),
    ensures
        x.sub_scale_of(2 * t) * (sub_dot(x, y, 2 * t) + sub_dot(x, y, 2 * t + 1))
            == x.sub_scale_of(2 * t) * sub_dot(x, y, 2 * t) + x.sub_scale_of(2 * t + 1) * sub_dot(
            x,
            y,
            2 * t + 1,
        ),
{
    let (k, a, b) = (x.sub_scale_of(2 * t), sub_dot(x, y, 2 * t), sub_dot(x, y, 2 * t + 1));
    assert(k * (a + b) == k * a + k * b) by (nonlinear_arith);
}

/// Eight values' products from `at`.
spec fn eight<C: Codes256>(x: C, y: Seq<i8>, at: int) -> int {
    isum(8, |i: int| x.code_of(at + i) * y[at + i])
}

proof fn lemma_two_eights<C: Codes256>(x: C, y: Seq<i8>, s: int)
    ensures
        sub_dot(x, y, s) == eight(x, y, 16 * s) + eight(x, y, 16 * s + 8),
{
    let f = |t: int| x.code_of(16 * s + t) * y[16 * s + t];
    crate::sums::lemma_isum_split(8, 8, f);
    lemma_isum_eq(8, |i: int| f(8 + i), |i: int| x.code_of(16 * s + 8 + i) * y[16 * s + 8 + i]);
}

proof fn lemma_step<C: Codes256>(x: C, y: Seq<i8>, k: int)
    requires
        0 <= k < 16,
    ensures
        step_dot(x, y, k) == x.sub_scale_of(4 * (k / 4)) * eight(x, y, step_at(k))
            + x.sub_scale_of(4 * (k / 4) + 2) * eight(x, y, step_at(k) + 32),
{
    let at = step_at(k);
    let lo = x.sub_scale_of(4 * (k / 4));
    let hi = x.sub_scale_of(4 * (k / 4) + 2);
    let p = |i: int| x.code_of(at + i) * y[at + i];
    let q = |i: int| x.code_of(at + 32 + i) * y[at + 32 + i];
    let f = |i: int| p(i) * lo + q(i) * hi;
    let a = |i: int| lo * p(i);
    let b = |i: int| hi * q(i);
    assert forall|i: int| 0 <= i < 8 implies #[trigger] f(i) == a(i) + b(i) by {
        let (u, v) = (p(i), q(i));
        assert(u * lo + v * hi == lo * u + hi * v) by (nonlinear_arith);
    }
    lemma_isum_eq(
        8,
        |i: int|
            x.code_of(step_at(k) + i) * y[step_at(k) + i] * x.sub_scale_of(4 * (k / 4)) + x.code_of(
                step_at(k) + 32 + i,
            ) * y[step_at(k) + 32 + i] * x.sub_scale_of(4 * (k / 4) + 2),
        f,
    );
    lemma_isum_eq(8, f, |i: int| a(i) + b(i));
    crate::sums::lemma_isum_plus(8, a, b);
    crate::sums::lemma_isum_scale(8, lo, p);
    crate::sums::lemma_isum_scale(8, hi, q);
}

proof fn lemma_quarter<C: Codes256>(x: C, y: Seq<i8>, u: int)
    requires
        0 <= u < 4,
    ensures
        step_dot(x, y, 4 * u) + step_dot(x, y, 4 * u + 1) + step_dot(x, y, 4 * u + 2) + step_dot(
            x,
            y,
            4 * u + 3,
        ) == x.sub_scale_of(4 * u) * (sub_dot(x, y, 4 * u) + sub_dot(x, y, 4 * u + 1))
            + x.sub_scale_of(4 * u + 2) * (sub_dot(x, y, 4 * u + 2) + sub_dot(x, y, 4 * u + 3)),
{
    lemma_step(x, y, 4 * u);
    lemma_step(x, y, 4 * u + 1);
    lemma_step(x, y, 4 * u + 2);
    lemma_step(x, y, 4 * u + 3);
    lemma_two_eights(x, y, 4 * u);
    lemma_two_eights(x, y, 4 * u + 1);
    lemma_two_eights(x, y, 4 * u + 2);
    lemma_two_eights(x, y, 4 * u + 3);
    let lo = x.sub_scale_of(4 * u);
    let hi = x.sub_scale_of(4 * u + 2);
    let (a, b, c, d) = (
        eight(x, y, 64 * u),
        eight(x, y, 64 * u + 8),
        eight(x, y, 64 * u + 16),
        eight(x, y, 64 * u + 24),
    );
    let (e, f, g, h) = (
        eight(x, y, 64 * u + 32),
        eight(x, y, 64 * u + 40),
        eight(x, y, 64 * u + 48),
        eight(x, y, 64 * u + 56),
    );
    assert(step_dot(x, y, 4 * u) == lo * a + hi * e);
    assert(step_dot(x, y, 4 * u + 1) == lo * b + hi * f);
    assert(step_dot(x, y, 4 * u + 2) == lo * c + hi * g);
    assert(step_dot(x, y, 4 * u + 3) == lo * d + hi * h);
    assert(lo * (a + b + (c + d)) + hi * (e + f + (g + h)) == (lo * a + hi * e) + (lo * b + hi * f)
        + (lo * c + hi * g) + (lo * d + hi * h)) by (nonlinear_arith);
}

// -- interleaving eight rows --

/// How eight rows' blocks become one interleaved block.
pub trait Gather {
    type Row: Copy;

    type Out;

    /// Column `j` of `out` is `row`.
    spec fn holds(out: Self::Out, j: int, row: Self::Row) -> bool;

    /// The blocks at `base`, `base + stride`, up to `base + 7 * stride`, interleaved.
    fn gather(rhs: &[Self::Row], base: usize, stride: usize) -> (out: Self::Out)
        requires
            base + 7 * stride < rhs@.len(),
        ensures
            forall|j: int| 0 <= j < 8 ==> #[trigger] Self::holds(out, j, rhs@[base + j * stride]),
    ;
}

/// The strides before the last stay within the last.
pub proof fn lemma_stride(j: int, stride: int)
    requires
        0 <= j <= 7,
        0 <= stride,
    ensures
        0 <= j * stride <= 7 * stride,
{
    assert(0 <= j * stride <= 7 * stride) by (nonlinear_arith)
        requires
            0 <= j <= 7,
            0 <= stride,
    ;
}

/// Block `l` of group `g` holds block `l` of each of its eight rows.
pub open spec fn interleaved<G: Gather>(
    rhs: Seq<G::Row>,
    out: Seq<G::Out>,
    n: int,
    nb: int,
) -> bool {
    &&& out.len() == cell(nb, n / 8, 0)
    &&& forall|g: int, l: int, j: int|
        0 <= g < n / 8 && 0 <= l < nb && 0 <= j < 8 ==> #[trigger] G::holds(
            out[cell(nb, g, l)],
            j,
            rhs[cell(nb, tile(g, j), l)],
        )
}

/// Interleave `[n, nb]` row-major blocks, eight rows to a group.
pub fn interleave_rows<G: Gather>(rhs: &[G::Row], n: usize, nb: usize) -> (out: Vec<G::Out>)
    requires
        n % 8 == 0,
        rhs@.len() == n * nb,
    ensures
        interleaved::<G>(rhs@, out@, n as int, nb as int),
{
    let total: usize = rhs.len();
    let groups: usize = n / 8;
    let mut out: Vec<G::Out> = Vec::new();
    assert(cell(nb as int, 0, 0) == 0) by (nonlinear_arith);
    for g in 0..groups
        invariant
            groups == n / 8,
            n % 8 == 0,
            total == rhs@.len(),
            total == n * nb,
            out@.len() == cell(nb as int, g as int, 0),
            forall|h: int, l: int, j: int|
                0 <= h < g && 0 <= l < nb && 0 <= j < 8 ==> #[trigger] G::holds(
                    out@[cell(nb as int, h, l)],
                    j,
                    rhs@[cell(nb as int, tile(h, j), l)],
                ),
    {
        for l in 0..nb
            invariant
                g < groups,
                groups == n / 8,
                n % 8 == 0,
                total == rhs@.len(),
                total == n * nb,
                out@.len() == cell(nb as int, g as int, l as int),
                forall|h: int, m: int, j: int|
                    0 <= h < g && 0 <= m < nb && 0 <= j < 8 ==> #[trigger] G::holds(
                        out@[cell(nb as int, h, m)],
                        j,
                        rhs@[cell(nb as int, tile(h, j), m)],
                    ),
                forall|m: int, j: int|
                    0 <= m < l && 0 <= j < 8 ==> #[trigger] G::holds(
                        out@[cell(nb as int, g as int, m)],
                        j,
                        rhs@[cell(nb as int, tile(g as int, j), m)],
                    ),
        {
            assert(g * 8 * nb + l + 7 * nb < n * nb && 0 <= g * 8 * nb) by (nonlinear_arith)
                requires
                    g + 1 <= n / 8,
                    n % 8 == 0,
                    0 <= l < nb,
                    0 <= g,
            ;
            assert(g * 8 <= n);
            let base: usize = g * 8 * nb + l;
            let ghost before = out@;
            let block = G::gather(rhs, base, nb);
            out.push(block);
            assert forall|h: int, m: int, j: int|
                0 <= h < g && 0 <= m < nb && 0 <= j < 8 implies #[trigger] G::holds(
                out@[cell(nb as int, h, m)],
                j,
                rhs@[cell(nb as int, tile(h, j), m)],
            ) by {
                assert(0 <= h * nb + m < g * nb) by (nonlinear_arith)
                    requires
                        0 <= h,
                        h + 1 <= g,
                        0 <= m < nb,
                ;
                assert(before[cell(nb as int, h, m)] == out@[cell(nb as int, h, m)]);
            }
            assert forall|m: int, j: int| 0 <= m < l + 1 && 0 <= j < 8 implies #[trigger] G::holds(
                out@[cell(nb as int, g as int, m)],
                j,
                rhs@[cell(nb as int, tile(g as int, j), m)],
            ) by {
                if m < l {
                    assert(0 <= g * nb) by (nonlinear_arith)
                        requires
                            0 <= g,
                            0 <= nb,
                    ;
                    assert(before[cell(nb as int, g as int, m)] == out@[cell(
                        nb as int,
                        g as int,
                        m,
                    )]);
                } else {
                    assert(base + j * nb == (g * 8 + j) * nb + l) by (nonlinear_arith)
                        requires
                            base == g * 8 * nb + l,
                    ;
                    assert(cell(nb as int, tile(g as int, j), l as int) == base + j * nb);
                    assert(G::holds(block, j, rhs@[base + j * nb]));
                }
            }
        }
        assert(g * nb + nb == (g + 1) * nb) by (nonlinear_arith);
    }
    out
}

// -- tiles of activation rows --

/// One column against rows `first .. first + count` of a tile.
pub fn tile_column<R: Real, C: Minned<R>>(
    xs: &[C],
    acts: &[&[BlockQ8K<R>]],
    nb: usize,
    j: usize,
    first: usize,
    count: usize,
    out: &mut [R],
)
    requires
        lawful::<R>(),
        j < 8,
        nb <= xs@.len(),
        first + count <= acts@.len(),
        forall|r: int| 0 <= r < acts@.len() ==> nb <= #[trigger] acts@[r]@.len(),
        acts@.len() * 8 <= old(out)@.len(),
    ensures
        final(out)@.len() == old(out)@.len(),
        forall|r: int, k: int|
            first <= r < first + count && k == j ==> final(out)@[#[trigger] tile(r, k)]
                == tiled_dot::<R, C>(xs@, acts@[r]@, nb as nat),
        forall|i: int|
            0 <= i < final(out)@.len() && !(i % 8 == j && first <= i / 8 < first + count)
                ==> #[trigger] final(out)@[i] == old(out)@[i],
{
    let ghost start = out@;
    let room: usize = out.len();
    for i in 0..count
        invariant
            lawful::<R>(),
            j < 8,
            nb <= xs@.len(),
            first + count <= acts@.len(),
            forall|r: int| 0 <= r < acts@.len() ==> nb <= #[trigger] acts@[r]@.len(),
            acts@.len() * 8 <= room,
            room == out@.len(),
            room == start.len(),
            forall|r: int, k: int|
                first <= r < first + i && k == j ==> out@[#[trigger] tile(r, k)] == tiled_dot::<
                    R,
                    C,
                >(xs@, acts@[r]@, nb as nat),
            forall|m: int|
                0 <= m < room && !(m % 8 == j && first <= m / 8 < first + i) ==> #[trigger] out@[m]
                    == start[m],
    {
        let r: usize = first + i;
        let v = tiled_column(xs, acts[r], nb);
        out[r * 8 + j] = v;
    }
}

} // verus!
