//! The columns of the interleaved super-blocks: however a kernel groups its roundings, it adds the
//! same numbers.
use vstd::prelude::*;
use crate::arith::{Real, rhalf, rint, rmul};
use crate::blocks::BlockFormat;
use crate::coded::shared;
use crate::exact::minned::{
    lemma_min_small, lemma_minned_grows, lemma_q4k_paired, lemma_q5k_paired, lemma_wide_term,
    paired, q4k_kernel_is_plain, q5k_kernel_is_plain, wide_min_dot,
};
use crate::exact::numbers::exact;
use crate::exact::superblock::{
    bytes256, lemma_byte_product, lemma_product_val, lemma_q6k_bytes, lemma_scaled_sum, lemma_small,
};
use crate::format::q4_k::{BlockQ4K, wide_sum};
use crate::format::q5_k::BlockQ5K;
use crate::format::q6_k::{BlockQ6K, Centred, q6k_term};
use crate::format::q8_k::BlockQ8K;
use crate::kgroup::{
    code_steps, min_steps, mins_exact, mins_fused, single_dot, step_at, step_dot, stepped_codes,
    stepped_dot, stepped_mins, steps_hold_every_product, tiled_dot,
};
use crate::koffset::{Minned, minned_plain};
use crate::repack_q5k;
use crate::repack_q5k::mins_by_sixteen;
use crate::repack_q6k;
use crate::sums::{fsum, isum, lemma_fsum_eq, lemma_isum_bound, lemma_isum_eq};
use crate::superblock::{Codes256, lane_of, scaled_dot, sub_dot};

verus! {

/// The scaled products of a block, and its minimums, fit the integers that carry them.
proof fn lemma_block_fits<R: Real, C: Minned<R>>(x: C, y: BlockQ8K<R>)
    requires
        paired::<R, C>(x),
    ensures
        -0x2000_0000 <= scaled_dot(x, y.qs@) <= 0x2000_0000,
        mins_exact::<R, C>(x, y) == wide_min_dot::<R, C>(x, y),
        -0x400_0000 <= mins_exact::<R, C>(x, y) <= 0x400_0000,
{
    lemma_small(x, y.qs@);
    assert(-0x400_0000 <= lane_of(x, y.qs@, 0) <= 0x400_0000);
    assert(-0x400_0000 <= lane_of(x, y.qs@, 1) <= 0x400_0000);
    assert(-0x400_0000 <= lane_of(x, y.qs@, 2) <= 0x400_0000);
    assert(-0x400_0000 <= lane_of(x, y.qs@, 3) <= 0x400_0000);
    assert(-0x400_0000 <= lane_of(x, y.qs@, 4) <= 0x400_0000);
    assert(-0x400_0000 <= lane_of(x, y.qs@, 5) <= 0x400_0000);
    assert(-0x400_0000 <= lane_of(x, y.qs@, 6) <= 0x400_0000);
    assert(-0x400_0000 <= lane_of(x, y.qs@, 7) <= 0x400_0000);
    let f = |t: int| x.sub_min_of(2 * t) * wide_sum(y.bsums@, t);
    let g = |s: int| x.sub_min_of(2 * s) * (y.bsums@[2 * s] + y.bsums@[2 * s + 1]);
    assert forall|t: int| 0 <= t < 8 implies -0x80_0000 <= #[trigger] f(t) <= 0x80_0000 by {
        lemma_min_small(x.sub_min_of(2 * t), wide_sum(y.bsums@, t));
    }
    lemma_isum_eq(8, f, g);
    lemma_isum_bound(8, f, 0x80_0000);
}

/// The two terms of a block under their scales.
proof fn lemma_apart(dy: real, dx: real, dm: real, t: real, u: real)
    ensures
        (dx * dy) * t - (dm * dy) * u == dy * (dx * t - dm * u),
        t * (dx * dy) == (dx * dy) * t,
        u * (dm * dy) == (dm * dy) * u,
{
    let (p, q) = (dx * t, dm * u);
    assert(dy * (p - q) == dy * p - dy * q) by (nonlinear_arith);
    assert((dx * dy) * t == dy * (dx * t)) by (nonlinear_arith);
    assert((dm * dy) * u == dy * (dm * u)) by (nonlinear_arith);
    let (a, b) = (dx * dy, dm * dy);
    assert(t * a == a * t) by (nonlinear_arith);
    assert(u * b == b * u) by (nonlinear_arith);
}

/// The fused minimums are their integer.
proof fn lemma_fused<R: Real, C: Minned<R>>(
    val: spec_fn(R) -> real,
    x: C,
    y: BlockQ8K<R>,
    t: nat,
)
    requires
        exact(val),
        paired::<R, C>(x),
        t <= 8,
    ensures
        val(mins_fused::<R, C>(x, y, t)) == isum(
            t,
            |s: int| x.sub_min_of(2 * s) * wide_sum(y.bsums@, s),
        ) as real,
    decreases t,
{
    if t > 0 {
        lemma_fused::<R, C>(val, x, y, (t - 1) as nat);
        let (a, b) = (x.sub_min_of(2 * (t - 1)), wide_sum(y.bsums@, t - 1));
        lemma_product_val::<R>(val, a, b);
    }
}

proof fn lemma_tiled<R: Real, C: Minned<R>>(
    val: spec_fn(R) -> real,
    xs: Seq<C>,
    ys: Seq<BlockQ8K<R>>,
    n: nat,
)
    requires
        exact(val),
        forall|b: int| 0 <= b < n ==> paired::<R, C>(#[trigger] xs[b]),
    ensures
        val(tiled_dot::<R, C>(xs, ys, n)) == val(minned_plain::<R, C>(xs, ys, true, n)),
    decreases n,
{
    if n > 0 {
        let m = (n - 1) as nat;
        lemma_tiled::<R, C>(val, xs, ys, m);
        lemma_minned_grows::<R, C>(xs, ys, true, n);
        let (x, y) = (xs[n - 1], ys[n - 1]);
        lemma_block_fits::<R, C>(x, y);
        lemma_wide_term::<R, C>(val, x, y);
        lemma_fused::<R, C>(val, x, y, 8);
        lemma_apart(
            val(y.d),
            val(x.d_of()),
            val(x.dmin_of()),
            scaled_dot(x, y.qs@) as real,
            wide_min_dot::<R, C>(x, y) as real,
        );
    }
}

proof fn lemma_single<R: Real, C: Minned<R>>(
    val: spec_fn(R) -> real,
    xs: Seq<C>,
    ys: Seq<BlockQ8K<R>>,
    n: nat,
)
    requires
        exact(val),
        forall|b: int| 0 <= b < n ==> paired::<R, C>(#[trigger] xs[b]),
    ensures
        val(single_dot::<R, C>(xs, ys, n)) == val(minned_plain::<R, C>(xs, ys, true, n)),
    decreases n,
{
    if n > 0 {
        let m = (n - 1) as nat;
        lemma_single::<R, C>(val, xs, ys, m);
        lemma_minned_grows::<R, C>(xs, ys, true, n);
        let (x, y) = (xs[n - 1], ys[n - 1]);
        lemma_block_fits::<R, C>(x, y);
        lemma_wide_term::<R, C>(val, x, y);
        lemma_apart(
            val(y.d),
            val(x.d_of()),
            val(x.dmin_of()),
            scaled_dot(x, y.qs@) as real,
            wide_min_dot::<R, C>(x, y) as real,
        );
    }
}

/// A step's products fit the integer that carries them.
proof fn lemma_step_fits<C: Codes256>(x: C, y: Seq<i8>, k: int)
    requires
        bytes256(x),
        y.len() == 256,
        0 <= k < 16,
    ensures
        -0x200_0000 <= step_dot(x, y, k) <= 0x200_0000,
{
    let at = step_at(k);
    assert(0 <= at && at + 40 <= 256);
    let f = |i: int|
        x.code_of(step_at(k) + i) * y[step_at(k) + i] * x.sub_scale_of(4 * (k / 4)) + x.code_of(
            step_at(k) + 32 + i,
        ) * y[step_at(k) + 32 + i] * x.sub_scale_of(4 * (k / 4) + 2);
    assert forall|i: int| 0 <= i < 8 implies -0x40_0000 <= #[trigger] f(i) <= 0x40_0000 by {
        lemma_scaled_byte(x.code_of(at + i), y[at + i] as int, x.sub_scale_of(4 * (k / 4)));
        lemma_scaled_byte(
            x.code_of(at + 32 + i),
            y[at + 32 + i] as int,
            x.sub_scale_of(4 * (k / 4) + 2),
        );
    }
    lemma_isum_bound(8, f, 0x40_0000);
}

/// A product of three bytes.
proof fn lemma_scaled_byte(a: int, b: int, c: int)
    requires
        -128 <= a <= 127,
        -128 <= b <= 127,
        -128 <= c <= 127,
    ensures
        -0x20_0000 <= a * b * c <= 0x20_0000,
{
    lemma_byte_product(a, b);
    let p = a * b;
    assert(-0x20_0000 <= p * c <= 0x20_0000) by (nonlinear_arith)
        requires
            -16384 <= p <= 16384,
            -128 <= c <= 127,
    ;
}

/// One more integer under a factor.
proof fn lemma_one_more(d: real, e: real, s: int, t: int)
    ensures
        (d * e) * (s as real) + ((t as real) * d) * e == (d * e) * ((s + t) as real),
{
    let (a, b, f) = (s as real, t as real, d * e);
    assert((s + t) as real == a + b);
    assert(f * (a + b) == f * a + f * b) by (nonlinear_arith);
    assert((b * d) * e == (d * e) * b) by (nonlinear_arith);
}

/// The steps add up to their integer under the block's scales.
proof fn lemma_code_steps<R: Real, C: Minned<R>>(
    val: spec_fn(R) -> real,
    x: C,
    y: BlockQ8K<R>,
    acc: R,
    k: nat,
)
    requires
        exact(val),
        bytes256(x),
        k <= 16,
    ensures
        val(code_steps::<R, C>(x, y, acc, k)) == val(acc) + (val(x.d_of()) * val(y.d)) * (isum(
            k,
            |j: int| step_dot(x, y.qs@, j),
        ) as real),
    decreases k,
{
    let g = |j: int| step_dot(x, y.qs@, j);
    let (d, e) = (val(x.d_of()), val(y.d));
    if k > 0 {
        lemma_code_steps::<R, C>(val, x, y, acc, (k - 1) as nat);
        lemma_step_fits(x, y.qs@, k - 1);
        lemma_one_more(d, e, isum((k - 1) as nat, g), g(k - 1));
    } else {
        lemma_nothing(d * e);
    }
}

/// Nothing under a factor.
proof fn lemma_nothing(f: real)
    ensures
        f * (0int as real) == 0 as real,
{
    let z = 0int as real;
    assert(f * z == z) by (nonlinear_arith)
        requires
            z == 0 as real,
    ;
}

/// The minimum steps add up to their integer under the block's scales.
proof fn lemma_min_steps<R: Real, C: Minned<R>>(
    val: spec_fn(R) -> real,
    x: C,
    y: BlockQ8K<R>,
    acc: R,
    t: nat,
)
    requires
        exact(val),
        paired::<R, C>(x),
        t <= 8,
    ensures
        val(min_steps::<R, C>(x, y, acc, t)) == val(acc) + (val(x.dmin_of()) * val(y.d)) * (isum(
            t,
            |s: int| x.sub_min_of(2 * s) * wide_sum(y.bsums@, s),
        ) as real),
    decreases t,
{
    let g = |s: int| x.sub_min_of(2 * s) * wide_sum(y.bsums@, s);
    let (d, e) = (val(x.dmin_of()), val(y.d));
    if t > 0 {
        lemma_min_steps::<R, C>(val, x, y, acc, (t - 1) as nat);
        let (a, b) = (x.sub_min_of(2 * (t - 1)), wide_sum(y.bsums@, t - 1));
        lemma_product_val::<R>(val, a, b);
        lemma_one_more(d, e, isum((t - 1) as nat, g), g(t - 1));
    } else {
        lemma_nothing(d * e);
    }
}

proof fn lemma_stepped<R: Real, C: Minned<R>>(
    val: spec_fn(R) -> real,
    xs: Seq<C>,
    ys: Seq<BlockQ8K<R>>,
    n: nat,
)
    requires
        exact(val),
        forall|b: int| 0 <= b < n ==> paired::<R, C>(#[trigger] xs[b]),
    ensures
        val(stepped_dot::<R, C>(xs, ys, n)) == val(minned_plain::<R, C>(xs, ys, true, n)),
    decreases n,
{
    if n > 0 {
        let m = (n - 1) as nat;
        lemma_stepped::<R, C>(val, xs, ys, m);
        lemma_minned_grows::<R, C>(xs, ys, true, n);
        let (x, y) = (xs[n - 1], ys[n - 1]);
        lemma_block_fits::<R, C>(x, y);
        lemma_wide_term::<R, C>(val, x, y);
        lemma_code_steps::<R, C>(val, x, y, stepped_codes::<R, C>(xs, ys, m), 16);
        lemma_min_steps::<R, C>(val, x, y, stepped_mins::<R, C>(xs, ys, m), 8);
        assert forall|t: int| 0 <= t < 8 implies #[trigger] x.sub_scale_of(2 * t)
            == x.sub_scale_of(2 * t + 1) by {
            assert(x.sub_min_of(2 * t) == x.sub_min_of(2 * t + 1));
        }
        steps_hold_every_product(x, y.qs@);
        lemma_apart(
            val(y.d),
            val(x.d_of()),
            val(x.dmin_of()),
            scaled_dot(x, y.qs@) as real,
            wide_min_dot::<R, C>(x, y) as real,
        );
    }
}

/// A column's tiled, single-row and stepwise products are one number, its plain product, whatever
/// layout the column is read from.
pub proof fn columns_are_plain<R: Real, C: Minned<R>>(
    val: spec_fn(R) -> real,
    xs: Seq<C>,
    ys: Seq<BlockQ8K<R>>,
    n: nat,
)
    requires
        exact(val),
        forall|b: int| 0 <= b < n ==> paired::<R, C>(#[trigger] xs[b]),
    ensures
        val(tiled_dot::<R, C>(xs, ys, n)) == val(minned_plain::<R, C>(xs, ys, true, n)),
        val(single_dot::<R, C>(xs, ys, n)) == val(minned_plain::<R, C>(xs, ys, true, n)),
        val(stepped_dot::<R, C>(xs, ys, n)) == val(minned_plain::<R, C>(xs, ys, true, n)),
{
    lemma_tiled::<R, C>(val, xs, ys, n);
    lemma_single::<R, C>(val, xs, ys, n);
    lemma_stepped::<R, C>(val, xs, ys, n);
}

/// q4_K: the grouped kernels give the number that the row kernel gives.
pub proof fn q4k_columns_are_rows<R: Real>(
    val: spec_fn(R) -> real,
    xs: Seq<BlockQ4K>,
    ys: Seq<BlockQ8K<R>>,
)
    requires
        exact(val),
    ensures
        val(tiled_dot::<R, BlockQ4K>(xs, ys, shared(xs.len(), ys.len()))) == val(
            <BlockQ4K as BlockFormat<R>>::dot_of(xs, ys),
        ),
        val(single_dot::<R, BlockQ4K>(xs, ys, shared(xs.len(), ys.len()))) == val(
            <BlockQ4K as BlockFormat<R>>::dot_of(xs, ys),
        ),
        val(stepped_dot::<R, BlockQ4K>(xs, ys, shared(xs.len(), ys.len()))) == val(
            <BlockQ4K as BlockFormat<R>>::dot_of(xs, ys),
        ),
{
    let n = shared(xs.len(), ys.len());
    assert forall|b: int| 0 <= b < n implies paired::<R, BlockQ4K>(#[trigger] xs[b]) by {
        lemma_q4k_paired::<R>(xs[b]);
    }
    columns_are_plain::<R, BlockQ4K>(val, xs, ys, n);
    q4k_kernel_is_plain::<R>(val, xs, ys);
}

/// Neighbouring sixteens share their minimum, so sixteen sums and eight sums of two agree.
proof fn lemma_by_sixteen<R: Real>(x: BlockQ5K, y: BlockQ8K<R>)
    ensures
        mins_by_sixteen::<R>(x, y) == wide_min_dot::<R, BlockQ5K>(x, y),
{
    lemma_q5k_paired::<R>(x);
    let f = |s: int| <BlockQ5K as Minned<R>>::sub_min_of(x, s) * y.bsums@[s];
    let g = |s: int|
        <BlockQ5K as Minned<R>>::sub_min_of(x, 2 * s) * (y.bsums@[2 * s] + y.bsums@[2 * s + 1]);
    assert forall|s: int| 0 <= s < 8 implies #[trigger] g(s) == f(2 * s) + f(2 * s + 1) by {
        let k = <BlockQ5K as Minned<R>>::sub_min_of(x, 2 * s);
        assert(k == <BlockQ5K as Minned<R>>::sub_min_of(x, 2 * s + 1));
        let (a, b) = (y.bsums@[2 * s] as int, y.bsums@[2 * s + 1] as int);
        assert(k * (a + b) == k * a + k * b) by (nonlinear_arith);
    }
    assert(isum(8, g) == g(0) + g(1) + g(2) + g(3) + g(4) + g(5) + g(6) + g(7)) by {
        reveal_with_fuel(isum, 9);
    }
    assert(isum(16, f) == f(0) + f(1) + f(2) + f(3) + f(4) + f(5) + f(6) + f(7) + f(8) + f(9) + f(
        10,
    ) + f(11) + f(12) + f(13) + f(14) + f(15)) by {
        reveal_with_fuel(isum, 17);
    }
}

proof fn lemma_q5k_column<R: Real>(
    val: spec_fn(R) -> real,
    xs: Seq<BlockQ5K>,
    ys: Seq<BlockQ8K<R>>,
    n: nat,
)
    requires
        exact(val),
    ensures
        val(repack_q5k::plain_column::<R>(xs, ys, n)) == val(
            minned_plain::<R, BlockQ5K>(xs, ys, true, n),
        ),
    decreases n,
{
    if n > 0 {
        lemma_q5k_column::<R>(val, xs, ys, (n - 1) as nat);
        lemma_minned_grows::<R, BlockQ5K>(xs, ys, true, n);
        let (x, y) = (xs[n - 1], ys[n - 1]);
        lemma_q5k_paired::<R>(x);
        lemma_block_fits::<R, BlockQ5K>(x, y);
        lemma_wide_term::<R, BlockQ5K>(val, x, y);
        lemma_by_sixteen::<R>(x, y);
        lemma_apart(
            val(y.d),
            val(<BlockQ5K as Minned<R>>::d_of(x)),
            val(<BlockQ5K as Minned<R>>::dmin_of(x)),
            scaled_dot(x, y.qs@) as real,
            wide_min_dot::<R, BlockQ5K>(x, y) as real,
        );
    }
}

/// q5_K: the grouped kernel gives the number that the row kernel gives.
pub proof fn q5k_columns_are_rows<R: Real>(
    val: spec_fn(R) -> real,
    xs: Seq<BlockQ5K>,
    ys: Seq<BlockQ8K<R>>,
)
    requires
        exact(val),
    ensures
        val(repack_q5k::plain_column::<R>(xs, ys, shared(xs.len(), ys.len()))) == val(
            <BlockQ5K as BlockFormat<R>>::dot_of(xs, ys),
        ),
{
    lemma_q5k_column::<R>(val, xs, ys, shared(xs.len(), ys.len()));
    q5k_kernel_is_plain::<R>(val, xs, ys);
}

/// The scaled products of a block with its zero point taken off, as a number.
proof fn lemma_q6k_term<R: Real>(val: spec_fn(R) -> real, x: BlockQ6K, y: BlockQ8K<R>)
    requires
        exact(val),
    ensures
        -0x2000_0000 <= scaled_dot(Centred { b: x }, y.qs@) <= 0x2000_0000,
        val(q6k_term::<R>(x, y)) == (val(rhalf::<R>(x.d)) * val(y.d)) * (scaled_dot(
            Centred { b: x },
            y.qs@,
        ) as real),
{
    let c = Centred { b: x };
    lemma_q6k_bytes(x);
    lemma_small(c, y.qs@);
    assert(-0x400_0000 <= lane_of(c, y.qs@, 0) <= 0x400_0000);
    assert(-0x400_0000 <= lane_of(c, y.qs@, 1) <= 0x400_0000);
    assert(-0x400_0000 <= lane_of(c, y.qs@, 2) <= 0x400_0000);
    assert(-0x400_0000 <= lane_of(c, y.qs@, 3) <= 0x400_0000);
    assert(-0x400_0000 <= lane_of(c, y.qs@, 4) <= 0x400_0000);
    assert(-0x400_0000 <= lane_of(c, y.qs@, 5) <= 0x400_0000);
    assert(-0x400_0000 <= lane_of(c, y.qs@, 6) <= 0x400_0000);
    assert(-0x400_0000 <= lane_of(c, y.qs@, 7) <= 0x400_0000);
    lemma_scaled_sum::<R, Centred>(val, c, y.qs@);
    let f = |s: int| rmul(rint::<R>(sub_dot(c, y.qs@, s) as i32), rint(x.scales@[s] as i32));
    let g = |s: int|
        rmul(rint::<R>(sub_dot(c, y.qs@, s) as i32), rint(c.sub_scale_of(s) as i32));
    lemma_fsum_eq(16, f, g);
    let (dx, dy, t) = (val(rhalf::<R>(x.d)), val(y.d), scaled_dot(c, y.qs@) as real);
    assert((t * dx) * dy == (dx * dy) * t) by (nonlinear_arith);
}

proof fn lemma_q6k_column<R: Real>(
    val: spec_fn(R) -> real,
    xs: Seq<BlockQ6K>,
    ys: Seq<BlockQ8K<R>>,
    n: nat,
)
    requires
        exact(val),
    ensures
        val(repack_q6k::plain_column::<R>(xs, ys, n)) == val(
            fsum(n, |b: int| q6k_term::<R>(xs[b], ys[b])),
        ),
    decreases n,
{
    if n > 0 {
        lemma_q6k_column::<R>(val, xs, ys, (n - 1) as nat);
        lemma_q6k_term::<R>(val, xs[n - 1], ys[n - 1]);
    }
}

/// q6_K: the grouped kernel gives the number that the plain row product gives.
pub proof fn q6k_columns_are_rows<R: Real>(
    val: spec_fn(R) -> real,
    xs: Seq<BlockQ6K>,
    ys: Seq<BlockQ8K<R>>,
)
    requires
        exact(val),
    ensures
        val(repack_q6k::plain_column::<R>(xs, ys, shared(xs.len(), ys.len()))) == val(
            <BlockQ6K as BlockFormat<R>>::dot_scalar_of(xs, ys),
        ),
{
    lemma_q6k_column::<R>(val, xs, ys, shared(xs.len(), ys.len()));
}

} // verus!
