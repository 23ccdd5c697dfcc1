//! The products of the kernels, in the values that the blocks reconstruct to.
use vstd::prelude::*;
use crate::arith::{Real, rhalf, rint, rmul};
use crate::blocks::{BlockFormat, Quantized};
use crate::coded::{Codes32, Scaled, block_dot, scaled_value, shared};
use crate::exact::block32::{
    all_bytes32, bytes32, mxfp4_kernel_is_plain, q4_0_kernel_is_plain, q4_1_kernel_is_plain,
    q5_0_kernel_is_plain, q5_1_kernel_is_plain, q8_0_kernel_is_plain, q8_1_kernel_is_plain,
    values_dot,
};
use crate::exact::iq2::iq2_kernel_is_plain;
use crate::exact::minned::{
    lemma_minned_grows, lemma_narrow_term, lemma_q2k_bytes, lemma_q4k_paired, lemma_q5k_paired, lemma_wide_term, min_dot, mins_are_bytes,
    q2k_kernel_is_plain, q4k_kernel_is_plain, q5k_kernel_is_plain, twins, wide_min_dot,
};
use crate::exact::numbers::{
    exact, lemma_fsum_val, lemma_rsum_eq, lemma_rsum_int, lemma_rsum_plus, lemma_rsum_scale, rsum,
};
use crate::exact::superblock::{
    bytes256, lemma_q3k_bytes, lemma_q6k_bytes, lemma_scaled_sum, q3k_kernel_is_plain,
    q6k_kernel_is_plain, q8k_kernel_is_plain,
};
use crate::exact::terms::{lemma_apart, lemma_cast, lemma_offset_place, lemma_place};
use crate::format::iq2_xxs::{BlockIq2Xxs, iq_plain_term};
use crate::format::mxfp4::BlockMxFp4;
use crate::format::q2_k::BlockQ2K;
use crate::format::q3_k::{BlockQ3K, q3k_term};
use crate::format::q4_0::BlockQ4_0;
use crate::format::q4_1::BlockQ4_1;
use crate::format::q4_k::BlockQ4K;
use crate::format::q5_0::BlockQ5_0;
use crate::format::q5_1::BlockQ5_1;
use crate::format::q5_k::BlockQ5K;
use crate::format::q6_k::{BlockQ6K, Centred, q6k_term};
use crate::format::q8_0::BlockQ8_0;
use crate::format::q8_1::{BlockQ8_1, Offset, offset_plain_dot, offset_value};
use crate::format::q8_k::{BlockQ8K, bsums_hold, q8k_plain};
use crate::koffset::{Minned, minned_plain, minned_value, narrow_term, wide_term};
use crate::sums::{dot_codes, isum, lemma_isum_eq, lemma_isum_runs, lemma_isum_scale};
use crate::superblock::{Codes256, scaled_dot, sub_dot};

verus! {

/// The products of the `w` values that two blocks reconstruct to, place by place.
pub open spec fn block_values<R: Real, X: Quantized<R>, Y: Quantized<R>>(
    val: spec_fn(R) -> real,
    x: X,
    y: Y,
    w: nat,
) -> real {
    rsum(w, |e: int| val(x.value(e)) * val(y.value(e)))
}

/// The dot product of what two runs of blocks reconstruct to, over the blocks that both have.
pub open spec fn values_product<R: Real, X: Quantized<R>, Y: Quantized<R>>(
    val: spec_fn(R) -> real,
    xs: Seq<X>,
    ys: Seq<Y>,
    w: nat,
) -> real {
    rsum(
        if xs.len() <= ys.len() {
            xs.len()
        } else {
            ys.len()
        },
        |b: int| block_values::<R, X, Y>(val, xs[b], ys[b], w),
    )
}

/// The stored sums of a block of activations are the sums of its codes, sixteen at a time.
pub open spec fn sums_kept<R: Real>(y: BlockQ8K<R>) -> bool {
    forall|s: int|
        0 <= s < 16 ==> #[trigger] y.bsums@[s] == isum(16, |t: int| y.qs@[16 * s + t] as int)
}

/// The stored sum of a block of activations is the sum of its codes under its scale.
pub open spec fn sum_kept<R: Real>(val: spec_fn(R) -> real, y: BlockQ8_1) -> bool {
    val(rhalf::<R>(y.s)) == val(rhalf::<R>(y.d)) * (isum(32, |e: int| y.qs@[e] as int) as real)
}

// -- thirty-two values under one scale --

proof fn lemma_scaled_values<R: Real, X: Scaled<R> + Quantized<R>, Y: Scaled<R> + Quantized<R>>(
    val: spec_fn(R) -> real,
    xs: Seq<X>,
    ys: Seq<Y>,
)
    requires
        forall|x: X, e: int| #[trigger] x.value(e) == scaled_value::<R, X>(x, e),
        forall|y: Y, e: int| #[trigger] y.value(e) == scaled_value::<R, Y>(y, e),
    ensures
        rsum(
            shared(xs.len(), ys.len()),
            |b: int| values_dot::<R, X, Y>(val, xs[b], ys[b]),
        ) == values_product::<R, X, Y>(val, xs, ys, 32),
{
    let f = |b: int| values_dot::<R, X, Y>(val, xs[b], ys[b]);
    let g = |b: int| block_values::<R, X, Y>(val, xs[b], ys[b], 32);
    assert forall|b: int| 0 <= b < shared(xs.len(), ys.len()) implies #[trigger] f(b) == g(b) by {
        let (x, y) = (xs[b], ys[b]);
        lemma_rsum_eq(
            32,
            |e: int| val(scaled_value(x, e)) * val(scaled_value(y, e)),
            |e: int| val(x.value(e)) * val(y.value(e)),
        );
    }
    lemma_rsum_eq(shared(xs.len(), ys.len()), f, g);
}

/// q4_0: the product is that of the values the blocks decode to.
pub proof fn q4_0_dot_is_of_values<R: Real>(
    val: spec_fn(R) -> real,
    xs: Seq<BlockQ4_0>,
    ys: Seq<BlockQ8_0>,
)
    requires
        exact(val),
    ensures
        val(<BlockQ4_0 as BlockFormat<R>>::dot_of(xs, ys)) == values_product::<R, BlockQ4_0, BlockQ8_0>(
            val,
            xs,
            ys,
            32,
        ),
{
    q4_0_kernel_is_plain::<R>(val, xs, ys);
    lemma_scaled_values::<R, BlockQ4_0, BlockQ8_0>(val, xs, ys);
}

/// q5_0: the product is that of the values the blocks decode to.
pub proof fn q5_0_dot_is_of_values<R: Real>(
    val: spec_fn(R) -> real,
    xs: Seq<BlockQ5_0>,
    ys: Seq<BlockQ8_0>,
)
    requires
        exact(val),
    ensures
        val(<BlockQ5_0 as BlockFormat<R>>::dot_of(xs, ys)) == values_product::<R, BlockQ5_0, BlockQ8_0>(
            val,
            xs,
            ys,
            32,
        ),
{
    q5_0_kernel_is_plain::<R>(val, xs, ys);
    lemma_scaled_values::<R, BlockQ5_0, BlockQ8_0>(val, xs, ys);
}

/// q8_0: the product is that of the values the blocks decode to.
pub proof fn q8_0_dot_is_of_values<R: Real>(
    val: spec_fn(R) -> real,
    xs: Seq<BlockQ8_0>,
    ys: Seq<BlockQ8_0>,
)
    requires
        exact(val),
    ensures
        val(<BlockQ8_0 as BlockFormat<R>>::dot_of(xs, ys)) == values_product::<R, BlockQ8_0, BlockQ8_0>(
            val,
            xs,
            ys,
            32,
        ),
{
    q8_0_kernel_is_plain::<R>(val, xs, ys);
    lemma_scaled_values::<R, BlockQ8_0, BlockQ8_0>(val, xs, ys);
}

/// q8_1: the product is that of the values the blocks decode to.
pub proof fn q8_1_dot_is_of_values<R: Real>(
    val: spec_fn(R) -> real,
    xs: Seq<BlockQ8_1>,
    ys: Seq<BlockQ8_1>,
)
    requires
        exact(val),
    ensures
        val(<BlockQ8_1 as BlockFormat<R>>::dot_of(xs, ys)) == values_product::<R, BlockQ8_1, BlockQ8_1>(
            val,
            xs,
            ys,
            32,
        ),
{
    q8_1_kernel_is_plain::<R>(val, xs, ys);
    lemma_scaled_values::<R, BlockQ8_1, BlockQ8_1>(val, xs, ys);
}

/// mxfp4: the product is that of the values the blocks decode to.
pub proof fn mxfp4_dot_is_of_values<R: Real>(
    val: spec_fn(R) -> real,
    xs: Seq<BlockMxFp4>,
    ys: Seq<BlockQ8_0>,
)
    requires
        exact(val),
    ensures
        val(<BlockMxFp4 as BlockFormat<R>>::dot_of(xs, ys)) == values_product::<R, BlockMxFp4, BlockQ8_0>(
            val,
            xs,
            ys,
            32,
        ),
{
    mxfp4_kernel_is_plain::<R>(val, xs, ys);
    lemma_scaled_values::<R, BlockMxFp4, BlockQ8_0>(val, xs, ys);
}

// -- thirty-two values with an offset --

proof fn lemma_offset_block<R: Real, X: Offset<R> + Quantized<R>>(
    val: spec_fn(R) -> real,
    x: X,
    y: BlockQ8_1,
)
    requires
        exact(val),
        bytes32(x),
        bytes32(y),
        sum_kept::<R>(val, y),
        forall|e: int| #[trigger] x.value(e) == offset_value::<R, X>(x, e),
    ensures
        block_values::<R, X, BlockQ8_1>(val, x, y, 32) == (block_dot(x, y) as real) * val(
            x.scale_of(),
        ) * val(rhalf::<R>(y.d)) + val(x.offset_of()) * val(rhalf::<R>(y.s)),
{
    let (dx, dy, m) = (val(x.scale_of()), val(rhalf::<R>(y.d)), val(x.offset_of()));
    let u = |e: int| x.code_of(e) * y.code_of(e);
    let v = |e: int| y.qs@[e] as int;
    let (ru, rv) = (|e: int| u(e) as real, |e: int| v(e) as real);
    lemma_rsum_int(32, u);
    lemma_rsum_int(32, v);
    let (ku, kv) = (dx * dy, m * dy);
    lemma_rsum_scale(32, ku, ru);
    lemma_rsum_scale(32, kv, rv);
    let (tu, tv) = (|e: int| ku * ru(e), |e: int| kv * rv(e));
    lemma_rsum_plus(32, tu, tv);
    let left = |e: int| val(x.value(e)) * val(<BlockQ8_1 as Quantized<R>>::value(y, e));
    let right = |e: int| tu(e) + tv(e);
    assert forall|e: int| 0 <= e < 32 implies #[trigger] left(e) == right(e) by {
        let (c, q) = (x.code_of(e), y.code_of(e));
        assert(x.value(e) == offset_value::<R, X>(x, e));
        assert(-128 <= c <= 127 && -128 <= q <= 127);
        lemma_cast(c, q);
        let (rc, rq) = (c as real, q as real);
        lemma_offset_place(dx, dy, m, rc, rq);
    }
    lemma_rsum_eq(32, left, right);
    let (su, sv) = (isum(32, u) as real, isum(32, v) as real);
    assert((dx * dy) * su == su * dx * dy) by (nonlinear_arith);
    assert((m * dy) * sv == m * (dy * sv)) by (nonlinear_arith);
}

proof fn lemma_offset_values<R: Real, X: Offset<R> + Quantized<R>>(
    val: spec_fn(R) -> real,
    xs: Seq<X>,
    ys: Seq<BlockQ8_1>,
    n: nat,
)
    requires
        exact(val),
        n <= xs.len(),
        n <= ys.len(),
        all_bytes32(xs),
        all_bytes32(ys),
        forall|b: int| 0 <= b < ys.len() ==> sum_kept::<R>(val, #[trigger] ys[b]),
        forall|x: X, e: int| #[trigger] x.value(e) == offset_value::<R, X>(x, e),
    ensures
        val(offset_plain_dot::<R, X>(xs, ys, n)) == rsum(
            n,
            |b: int| block_values::<R, X, BlockQ8_1>(val, xs[b], ys[b], 32),
        ),
    decreases n,
{
    if n > 0 {
        lemma_offset_values::<R, X>(val, xs, ys, (n - 1) as nat);
        let (x, y) = (xs[n - 1], ys[n - 1]);
        assert(bytes32(x) && bytes32(y));
        lemma_offset_block::<R, X>(val, x, y);
        lemma_dot_small(x, y);
    }
}

proof fn lemma_dot_small<X: Codes32>(x: X, y: BlockQ8_1)
    requires
        bytes32(x),
        bytes32(y),
    ensures
        i32::MIN <= block_dot(x, y) <= i32::MAX,
{
    let f = |e: int| x.code_of(e) * y.code_of(e);
    assert forall|e: int| 0 <= e < 32 implies -16384 <= #[trigger] f(e) <= 16384 by {
        crate::exact::superblock::lemma_byte_product(x.code_of(e), y.code_of(e));
    }
    crate::sums::lemma_isum_bound(32, f, 16384);
}

/// q4_1: the product is that of the values the blocks decode to, where the activations' stored sums
/// are theirs.
pub proof fn q4_1_dot_is_of_values<R: Real>(
    val: spec_fn(R) -> real,
    xs: Seq<BlockQ4_1>,
    ys: Seq<BlockQ8_1>,
)
    requires
        exact(val),
        forall|b: int| 0 <= b < ys.len() ==> sum_kept::<R>(val, #[trigger] ys[b]),
    ensures
        val(<BlockQ4_1 as BlockFormat<R>>::dot_of(xs, ys)) == values_product::<R, BlockQ4_1, BlockQ8_1>(
            val,
            xs,
            ys,
            32,
        ),
{
    q4_1_kernel_is_plain::<R>(val, xs, ys);
    lemma_offset_values::<R, BlockQ4_1>(val, xs, ys, shared(xs.len(), ys.len()));
}

/// q5_1: the product is that of the values the blocks decode to, where the activations' stored sums
/// are theirs.
pub proof fn q5_1_dot_is_of_values<R: Real>(
    val: spec_fn(R) -> real,
    xs: Seq<BlockQ5_1>,
    ys: Seq<BlockQ8_1>,
)
    requires
        exact(val),
        forall|b: int| 0 <= b < ys.len() ==> sum_kept::<R>(val, #[trigger] ys[b]),
    ensures
        val(<BlockQ5_1 as BlockFormat<R>>::dot_of(xs, ys)) == values_product::<R, BlockQ5_1, BlockQ8_1>(
            val,
            xs,
            ys,
            32,
        ),
{
    q5_1_kernel_is_plain::<R>(val, xs, ys);
    lemma_offset_values::<R, BlockQ5_1>(val, xs, ys, shared(xs.len(), ys.len()));
}

// -- 256 values, sixteen to a scale --

/// Runs of sixteen, each under a factor, are one run under the factors of its places.
proof fn lemma_runs(a: spec_fn(int) -> int, g: spec_fn(int) -> int)
    ensures
        isum(16, |s: int| a(s) * isum(16, |t: int| g(16 * s + t))) == isum(
            256,
            |e: int| a(e / 16) * g(e),
        ),
{
    let h = |e: int| a(e / 16) * g(e);
    lemma_isum_runs(16, 16, h);
    let left = |s: int| a(s) * isum(16, |t: int| g(16 * s + t));
    let right = |c: int| isum(16, |t: int| h(c * 16 + t));
    assert forall|s: int| 0 <= s < 16 implies #[trigger] left(s) == right(s) by {
        let run = |t: int| g(16 * s + t);
        lemma_isum_scale(16, a(s), run);
        let (p, q) = (|t: int| a(s) * run(t), |t: int| h(s * 16 + t));
        assert forall|t: int| 0 <= t < 16 implies #[trigger] p(t) == q(t) by {
            assert((s * 16 + t) / 16 == s);
        }
        lemma_isum_eq(16, p, q);
    }
    lemma_isum_eq(16, left, right);
}

/// A block's values times an activation block's, in the sums the kernels take.
proof fn lemma_minned_sum(
    d: real,
    dm: real,
    dy: real,
    sc: spec_fn(int) -> int,
    code: spec_fn(int) -> int,
    mn: spec_fn(int) -> int,
    q: spec_fn(int) -> int,
)
    ensures
        rsum(
            256,
            |e: int|
                ((d * (sc(e / 16) as real)) * (code(e) as real) - dm * (mn(e / 16) as real)) * ((q(
                    e,
                ) as real) * dy),
        ) == dy * (d * (isum(
            16,
            |s: int| sc(s) * isum(16, |t: int| code(16 * s + t) * q(16 * s + t)),
        ) as real) - dm * (isum(16, |s: int| mn(s) * isum(16, |t: int| q(16 * s + t))) as real)),
{
    let cq = |e: int| code(e) * q(e);
    lemma_runs(sc, cq);
    lemma_runs(mn, q);
    let (l1, r1) = (
        |s: int| sc(s) * isum(16, |t: int| code(16 * s + t) * q(16 * s + t)),
        |s: int| sc(s) * isum(16, |t: int| cq(16 * s + t)),
    );
    assert forall|s: int| 0 <= s < 16 implies #[trigger] l1(s) == r1(s) by {
        lemma_isum_eq(
            16,
            |t: int| code(16 * s + t) * q(16 * s + t),
            |t: int| cq(16 * s + t),
        );
    }
    lemma_isum_eq(16, l1, r1);
    let (u, v) = (|e: int| sc(e / 16) * cq(e), |e: int| mn(e / 16) * q(e));
    let (ru, rv) = (|e: int| u(e) as real, |e: int| v(e) as real);
    lemma_rsum_int(256, u);
    lemma_rsum_int(256, v);
    let (ku, kv) = (dy * d, -(dy * dm));
    lemma_rsum_scale(256, ku, ru);
    lemma_rsum_scale(256, kv, rv);
    let (tu, tv) = (|e: int| ku * ru(e), |e: int| kv * rv(e));
    lemma_rsum_plus(256, tu, tv);
    let left = |e: int|
        ((d * (sc(e / 16) as real)) * (code(e) as real) - dm * (mn(e / 16) as real)) * ((q(
            e,
        ) as real) * dy);
    let right = |e: int| tu(e) + tv(e);
    assert forall|e: int| 0 <= e < 256 implies #[trigger] left(e) == right(e) by {
        let (a, c, m, y) = (sc(e / 16), code(e), mn(e / 16), q(e));
        lemma_cast(c, y);
        lemma_cast(a, c * y);
        lemma_cast(m, y);
        lemma_place(d, dm, dy, a as real, c as real, m as real, y as real);
    }
    lemma_rsum_eq(256, left, right);
    let (su, sv) = (isum(256, u) as real, isum(256, v) as real);
    lemma_apart(dy, d, dm, su, sv);
}

/// Neighbouring sixteens under one minimum are thirty-twos under it.
proof fn lemma_wide_is_narrow<R: Real, B: Minned<R>>(x: B, y: BlockQ8K<R>)
    requires
        twins::<R, B>(x),
    ensures
        wide_min_dot::<R, B>(x, y) == min_dot::<R, B>(x, y),
{
    let h = |s: int| x.sub_min_of(s) * y.bsums@[s];
    lemma_isum_runs(8, 2, h);
    let left = |s: int| x.sub_min_of(2 * s) * (y.bsums@[2 * s] + y.bsums@[2 * s + 1]);
    let right = |c: int| isum(2, |t: int| h(c * 2 + t));
    assert forall|s: int| 0 <= s < 8 implies #[trigger] left(s) == right(s) by {
        reveal_with_fuel(isum, 3);
        let (m, a, b) = (x.sub_min_of(2 * s), y.bsums@[2 * s] as int, y.bsums@[2 * s + 1] as int);
        assert(x.sub_min_of(2 * s + 1) == m);
        assert(s * 2 == 2 * s);
        assert(right(s) == h(2 * s) + h(2 * s + 1));
        assert(m * (a + b) == m * a + m * b) by (nonlinear_arith);
    }
    lemma_isum_eq(8, left, right);
}

proof fn lemma_minned_block<R: Real, B: Minned<R> + Quantized<R>>(
    val: spec_fn(R) -> real,
    x: B,
    y: BlockQ8K<R>,
)
    requires
        exact(val),
        bytes256(x),
        mins_are_bytes::<R, B>(x),
        sums_kept(y),
        forall|e: int| #[trigger] x.value(e) == minned_value::<R, B>(x, e),
    ensures
        block_values::<R, B, BlockQ8K<R>>(val, x, y, 256) == val(y.d) * (val(x.d_of()) * (scaled_dot(
            x,
            y.qs@,
        ) as real) - val(x.dmin_of()) * (min_dot::<R, B>(x, y) as real)),
{
    let (d, dm, dy) = (val(x.d_of()), val(x.dmin_of()), val(y.d));
    let sc = |s: int| x.sub_scale_of(s);
    let code = |e: int| x.code_of(e);
    let mn = |s: int| x.sub_min_of(s);
    let q = |e: int| y.qs@[e] as int;
    lemma_minned_sum(d, dm, dy, sc, code, mn, q);
    let (a, b) = (
        |s: int| sc(s) * isum(16, |t: int| code(16 * s + t) * q(16 * s + t)),
        |s: int| x.sub_scale_of(s) * sub_dot(x, y.qs@, s),
    );
    assert forall|s: int| 0 <= s < 16 implies #[trigger] a(s) == b(s) by {
        lemma_isum_eq(
            16,
            |t: int| code(16 * s + t) * q(16 * s + t),
            |t: int| x.code_of(16 * s + t) * y.qs@[16 * s + t],
        );
    }
    lemma_isum_eq(16, a, b);
    let (f, g) = (
        |s: int| mn(s) * isum(16, |t: int| q(16 * s + t)),
        |s: int| x.sub_min_of(s) * y.bsums@[s],
    );
    assert forall|s: int| 0 <= s < 16 implies #[trigger] f(s) == g(s) by {
        lemma_isum_eq(16, |t: int| q(16 * s + t), |t: int| y.qs@[16 * s + t] as int);
        assert(y.bsums@[s] == isum(16, |t: int| y.qs@[16 * s + t] as int));
    }
    lemma_isum_eq(16, f, g);
    let left = |e: int| val(x.value(e)) * val(<BlockQ8K<R> as Quantized<R>>::value(y, e));
    let right = |e: int|
        ((d * (sc(e / 16) as real)) * (code(e) as real) - dm * (mn(e / 16) as real)) * ((q(
            e,
        ) as real) * dy);
    assert forall|e: int| 0 <= e < 256 implies #[trigger] left(e) == right(e) by {
        assert(x.value(e) == minned_value::<R, B>(x, e));
        assert(0 <= e / 16 < 16);
        assert(-128 <= x.code_of(e) <= 127);
        assert(-128 <= x.sub_scale_of(e / 16) <= 127);
        assert(-128 <= x.sub_min_of(e / 16) <= 127);
    }
    lemma_rsum_eq(256, left, right);
}

proof fn lemma_minned_total<R: Real, B: Minned<R> + Quantized<R>>(
    val: spec_fn(R) -> real,
    xs: Seq<B>,
    ys: Seq<BlockQ8K<R>>,
    wide: bool,
    n: nat,
)
    requires
        exact(val),
        forall|b: int|
            0 <= b < n ==> #[trigger] block_values::<R, B, BlockQ8K<R>>(val, xs[b], ys[b], 256)
                == val(
                if wide {
                    wide_term::<R, B>(xs[b], ys[b])
                } else {
                    narrow_term::<R, B>(xs[b], ys[b])
                },
            ),
    ensures
        val(minned_plain::<R, B>(xs, ys, wide, n)) == rsum(
            n,
            |b: int| block_values::<R, B, BlockQ8K<R>>(val, xs[b], ys[b], 256),
        ),
    decreases n,
{
    if n > 0 {
        lemma_minned_total::<R, B>(val, xs, ys, wide, (n - 1) as nat);
        lemma_minned_grows::<R, B>(xs, ys, wide, n);
        let b = n - 1;
        assert(block_values::<R, B, BlockQ8K<R>>(val, xs[b], ys[b], 256) == val(
            if wide {
                wide_term::<R, B>(xs[b], ys[b])
            } else {
                narrow_term::<R, B>(xs[b], ys[b])
            },
        ));
    }
}

proof fn lemma_q2k_block<R: Real>(val: spec_fn(R) -> real, x: BlockQ2K, y: BlockQ8K<R>)
    requires
        exact(val),
        sums_kept(y),
    ensures
        block_values::<R, BlockQ2K, BlockQ8K<R>>(val, x, y, 256) == val(narrow_term::<R, BlockQ2K>(x, y)),
{
    lemma_q2k_bytes::<R>(x);
    lemma_narrow_term::<R, BlockQ2K>(val, x, y);
    lemma_minned_block::<R, BlockQ2K>(val, x, y);
}

/// q2_K: the product is that of the values the blocks decode to, where the activations' stored sums
/// are theirs.
pub proof fn q2k_dot_is_of_values<R: Real>(
    val: spec_fn(R) -> real,
    xs: Seq<BlockQ2K>,
    ys: Seq<BlockQ8K<R>>,
)
    requires
        exact(val),
        forall|b: int| 0 <= b < ys.len() ==> sums_kept(#[trigger] ys[b]),
    ensures
        val(<BlockQ2K as BlockFormat<R>>::dot_of(xs, ys)) == values_product::<R, BlockQ2K, BlockQ8K<R>>(
            val,
            xs,
            ys,
            256,
        ),
{
    q2k_kernel_is_plain::<R>(val, xs, ys);
    let n = shared(xs.len(), ys.len());
    assert forall|b: int| 0 <= b < n implies #[trigger] block_values::<R, BlockQ2K, BlockQ8K<R>>(
        val,
        xs[b],
        ys[b],
        256,
    ) == val(narrow_term::<R, BlockQ2K>(xs[b], ys[b])) by {
        assert(sums_kept(ys[b]));
        lemma_q2k_block::<R>(val, xs[b], ys[b]);
    }
    lemma_minned_total::<R, BlockQ2K>(val, xs, ys, false, n);
}

proof fn lemma_q4k_block<R: Real>(val: spec_fn(R) -> real, x: BlockQ4K, y: BlockQ8K<R>)
    requires
        exact(val),
        sums_kept(y),
    ensures
        block_values::<R, BlockQ4K, BlockQ8K<R>>(val, x, y, 256) == val(wide_term::<R, BlockQ4K>(x, y)),
{
    lemma_q4k_paired::<R>(x);
    lemma_wide_term::<R, BlockQ4K>(val, x, y);
    lemma_wide_is_narrow::<R, BlockQ4K>(x, y);
    lemma_minned_block::<R, BlockQ4K>(val, x, y);
}

/// q4_K: the product is that of the values the blocks decode to, where the activations' stored sums
/// are theirs.
pub proof fn q4k_dot_is_of_values<R: Real>(
    val: spec_fn(R) -> real,
    xs: Seq<BlockQ4K>,
    ys: Seq<BlockQ8K<R>>,
)
    requires
        exact(val),
        forall|b: int| 0 <= b < ys.len() ==> sums_kept(#[trigger] ys[b]),
    ensures
        val(<BlockQ4K as BlockFormat<R>>::dot_of(xs, ys)) == values_product::<R, BlockQ4K, BlockQ8K<R>>(
            val,
            xs,
            ys,
            256,
        ),
{
    q4k_kernel_is_plain::<R>(val, xs, ys);
    let n = shared(xs.len(), ys.len());
    assert forall|b: int| 0 <= b < n implies #[trigger] block_values::<R, BlockQ4K, BlockQ8K<R>>(
        val,
        xs[b],
        ys[b],
        256,
    ) == val(wide_term::<R, BlockQ4K>(xs[b], ys[b])) by {
        assert(sums_kept(ys[b]));
        lemma_q4k_block::<R>(val, xs[b], ys[b]);
    }
    lemma_minned_total::<R, BlockQ4K>(val, xs, ys, true, n);
}

proof fn lemma_q5k_block<R: Real>(val: spec_fn(R) -> real, x: BlockQ5K, y: BlockQ8K<R>)
    requires
        exact(val),
        sums_kept(y),
    ensures
        block_values::<R, BlockQ5K, BlockQ8K<R>>(val, x, y, 256) == val(wide_term::<R, BlockQ5K>(x, y)),
{
    lemma_q5k_paired::<R>(x);
    lemma_wide_term::<R, BlockQ5K>(val, x, y);
    lemma_wide_is_narrow::<R, BlockQ5K>(x, y);
    lemma_minned_block::<R, BlockQ5K>(val, x, y);
}

/// q5_K: the product is that of the values the blocks decode to, where the activations' stored sums
/// are theirs.
pub proof fn q5k_dot_is_of_values<R: Real>(
    val: spec_fn(R) -> real,
    xs: Seq<BlockQ5K>,
    ys: Seq<BlockQ8K<R>>,
)
    requires
        exact(val),
        forall|b: int| 0 <= b < ys.len() ==> sums_kept(#[trigger] ys[b]),
    ensures
        val(<BlockQ5K as BlockFormat<R>>::dot_of(xs, ys)) == values_product::<R, BlockQ5K, BlockQ8K<R>>(
            val,
            xs,
            ys,
            256,
        ),
{
    q5k_kernel_is_plain::<R>(val, xs, ys);
    let n = shared(xs.len(), ys.len());
    assert forall|b: int| 0 <= b < n implies #[trigger] block_values::<R, BlockQ5K, BlockQ8K<R>>(
        val,
        xs[b],
        ys[b],
        256,
    ) == val(wide_term::<R, BlockQ5K>(xs[b], ys[b])) by {
        assert(sums_kept(ys[b]));
        lemma_q5k_block::<R>(val, xs[b], ys[b]);
    }
    lemma_minned_total::<R, BlockQ5K>(val, xs, ys, true, n);
}

// -- 256 values under signed scales --

proof fn lemma_signed_block<R: Real, X: Codes256, B: Quantized<R>>(
    val: spec_fn(R) -> real,
    x: X,
    b: B,
    d: R,
    y: BlockQ8K<R>,
)
    requires
        exact(val),
        bytes256(x),
        forall|e: int|
            0 <= e < 256 ==> #[trigger] b.value(e) == rmul(
                rmul(d, rint::<R>(x.sub_scale_of(e / 16) as i32)),
                rint::<R>(x.code_of(e) as i32),
            ),
    ensures
        block_values::<R, B, BlockQ8K<R>>(val, b, y, 256) == (scaled_dot(x, y.qs@) as real) * val(d)
            * val(y.d),
{
    let (rd, dm, dy) = (val(d), 0 as real, val(y.d));
    let sc = |s: int| x.sub_scale_of(s);
    let code = |e: int| x.code_of(e);
    let mn = |s: int| 0int;
    let q = |e: int| y.qs@[e] as int;
    lemma_minned_sum(rd, dm, dy, sc, code, mn, q);
    let (a, c) = (
        |s: int| sc(s) * isum(16, |t: int| code(16 * s + t) * q(16 * s + t)),
        |s: int| x.sub_scale_of(s) * sub_dot(x, y.qs@, s),
    );
    assert forall|s: int| 0 <= s < 16 implies #[trigger] a(s) == c(s) by {
        lemma_isum_eq(
            16,
            |t: int| code(16 * s + t) * q(16 * s + t),
            |t: int| x.code_of(16 * s + t) * y.qs@[16 * s + t],
        );
    }
    lemma_isum_eq(16, a, c);
    let left = |e: int| val(b.value(e)) * val(<BlockQ8K<R> as Quantized<R>>::value(y, e));
    let right = |e: int|
        ((rd * (sc(e / 16) as real)) * (code(e) as real) - dm * (mn(e / 16) as real)) * ((q(
            e,
        ) as real) * dy);
    assert forall|e: int| 0 <= e < 256 implies #[trigger] left(e) == right(e) by {
        assert(0 <= e / 16 < 16);
        assert(-128 <= x.code_of(e) <= 127);
        assert(-128 <= x.sub_scale_of(e / 16) <= 127);
        let k = mn(e / 16) as real;
        assert(dm * k == 0 as real) by (nonlinear_arith)
            requires
                dm == 0 as real,
        ;
    }
    lemma_rsum_eq(256, left, right);
    let t = scaled_dot(x, y.qs@) as real;
    let z = isum(16, |s: int| mn(s) * isum(16, |t: int| q(16 * s + t))) as real;
    assert(dm * z == 0 as real) by (nonlinear_arith)
        requires
            dm == 0 as real,
    ;
    assert(dy * (rd * t) == t * rd * dy) by (nonlinear_arith);
}

/// q3_K: the product is that of the values the blocks decode to.
pub proof fn q3k_dot_is_of_values<R: Real>(
    val: spec_fn(R) -> real,
    xs: Seq<BlockQ3K>,
    ys: Seq<BlockQ8K<R>>,
)
    requires
        exact(val),
    ensures
        val(<BlockQ3K as BlockFormat<R>>::dot_of(xs, ys)) == values_product::<R, BlockQ3K, BlockQ8K<R>>(
            val,
            xs,
            ys,
            256,
        ),
{
    q3k_kernel_is_plain::<R>(val, xs, ys);
    let n = shared(xs.len(), ys.len());
    let term = |b: int| q3k_term::<R>(xs[b], ys[b]);
    lemma_fsum_val(val, n, term);
    let f = |b: int| val(term(b));
    let g = |b: int| block_values::<R, BlockQ3K, BlockQ8K<R>>(val, xs[b], ys[b], 256);
    assert forall|b: int| 0 <= b < n implies #[trigger] f(b) == g(b) by {
        let (x, y) = (xs[b], ys[b]);
        let c = x;
        lemma_q3k_bytes(x);
        lemma_scaled_sum::<R, BlockQ3K>(val, c, y.qs@);
        lemma_signed_block::<R, BlockQ3K, BlockQ3K>(val, c, x, rhalf::<R>(x.d), y);
    }
    lemma_rsum_eq(n, f, g);
}

/// q6_K: the product is that of the values the blocks decode to, where the activations' stored sums
/// are theirs.
pub proof fn q6k_dot_is_of_values<R: Real>(
    val: spec_fn(R) -> real,
    xs: Seq<BlockQ6K>,
    ys: Seq<BlockQ8K<R>>,
)
    requires
        exact(val),
        forall|b: int| 0 <= b < ys.len() ==> sums_kept(#[trigger] ys[b]),
    ensures
        val(<BlockQ6K as BlockFormat<R>>::dot_of(xs, ys)) == values_product::<R, BlockQ6K, BlockQ8K<R>>(
            val,
            xs,
            ys,
            256,
        ),
{
    assert forall|b: int| 0 <= b < ys.len() implies bsums_hold((#[trigger] ys[b]).qs@, ys[b].bsums@) by {
        assert(sums_kept(ys[b]));
        lemma_bsums::<R>(ys[b]);
    }
    q6k_kernel_is_plain::<R>(val, xs, ys);
    let n = shared(xs.len(), ys.len());
    let term = |b: int| q6k_term::<R>(xs[b], ys[b]);
    lemma_fsum_val(val, n, term);
    let f = |b: int| val(term(b));
    let g = |b: int| block_values::<R, BlockQ6K, BlockQ8K<R>>(val, xs[b], ys[b], 256);
    assert forall|b: int| 0 <= b < n implies #[trigger] f(b) == g(b) by {
        let (x, y) = (xs[b], ys[b]);
        let c = Centred { b: x };
        lemma_q6k_bytes(x);
        lemma_scaled_sum::<R, Centred>(val, c, y.qs@);
        let fs = |s: int| rmul(rint::<R>(sub_dot(c, y.qs@, s) as i32), rint(x.scales@[s] as i32));
        let gs = |s: int| rmul(
            rint::<R>(sub_dot(c, y.qs@, s) as i32),
            rint(c.sub_scale_of(s) as i32),
        );
        crate::sums::lemma_fsum_eq(16, fs, gs);
        lemma_signed_block::<R, Centred, BlockQ6K>(val, c, x, rhalf::<R>(x.d), y);
    }
    lemma_rsum_eq(n, f, g);
}

proof fn lemma_bsums<R: Real>(y: BlockQ8K<R>)
    ensures
        sums_kept(y) <==> bsums_hold(y.qs@, y.bsums@),
{
    assert forall|s: int| 0 <= s < 16 implies isum(16, |t: int| y.qs@[16 * s + t] as int)
        == #[trigger] crate::format::q8_k::bsum_of(y.qs@, s) by {
        assert(y.bsums@[s] == y.bsums@[s]);
    }
    if sums_kept(y) {
        assert forall|s: int| 0 <= s < 16 implies #[trigger] y.bsums@[s]
            == crate::format::q8_k::bsum_of(y.qs@, s) by {
            assert(y.bsums@[s] == isum(16, |t: int| y.qs@[16 * s + t] as int));
        }
    }
    if bsums_hold(y.qs@, y.bsums@) {
        assert forall|s: int| 0 <= s < 16 implies #[trigger] y.bsums@[s] == isum(
            16,
            |t: int| y.qs@[16 * s + t] as int,
        ) by {
            assert(y.bsums@[s] == crate::format::q8_k::bsum_of(y.qs@, s));
        }
    }
}

/// The sums that an encoder stores are the sums of its codes.
pub proof fn encoded_sums_are_kept<R: Real>(x: Seq<R>, y: BlockQ8K<R>)
    requires
        <BlockQ8K<R> as Quantized<R>>::encodes(x, y),
    ensures
        sums_kept(y),
{
    lemma_bsums::<R>(y);
    if <BlockQ8K<R> as Quantized<R>>::is_zero(y) {
        assert forall|s: int| 0 <= s < 16 implies #[trigger] y.bsums@[s] == isum(
            16,
            |t: int| y.qs@[16 * s + t] as int,
        ) by {
            let f = |t: int| y.qs@[16 * s + t] as int;
            assert forall|t: int| 0 <= t < 16 implies -0 <= #[trigger] f(t) <= 0 by {
                assert(y.qs@[16 * s + t] == 0);
            }
            crate::sums::lemma_isum_bound(16, f, 0);
        }
    }
}

proof fn lemma_q8k_values<R: Real>(
    val: spec_fn(R) -> real,
    xs: Seq<BlockQ8K<R>>,
    ys: Seq<BlockQ8K<R>>,
    n: nat,
)
    requires
        exact(val),
    ensures
        val(q8k_plain(xs, ys, n)) == rsum(
            n,
            |b: int| block_values::<R, BlockQ8K<R>, BlockQ8K<R>>(val, xs[b], ys[b], 256),
        ),
    decreases n,
{
    if n > 0 {
        lemma_q8k_values::<R>(val, xs, ys, (n - 1) as nat);
        let (x, y) = (xs[n - 1], ys[n - 1]);
        let p = |e: int| x.qs@[e] * y.qs@[e];
        assert forall|e: int| 0 <= e < 256 implies -16384 <= #[trigger] p(e) <= 16384 by {
            crate::exact::superblock::lemma_byte_product(x.qs@[e] as int, y.qs@[e] as int);
        }
        crate::sums::lemma_isum_bound(256, p, 16384);
        assert(dot_codes(256, x.qs@, y.qs@) == isum(256, p)) by {
            lemma_isum_eq(256, |i: int| x.qs@[i] * y.qs@[i], p);
        }
        let (dx, dy) = (val(x.d), val(y.d));
        let k = dx * dy;
        let rp = |e: int| p(e) as real;
        lemma_rsum_int(256, p);
        lemma_rsum_scale(256, k, rp);
        let left = |e: int|
            val(<BlockQ8K<R> as Quantized<R>>::value(x, e)) * val(
                <BlockQ8K<R> as Quantized<R>>::value(y, e),
            );
        let right = |e: int| k * rp(e);
        assert forall|e: int| 0 <= e < 256 implies #[trigger] left(e) == right(e) by {
            let (a, b) = (x.qs@[e] as int, y.qs@[e] as int);
            lemma_cast(a, b);
            let (ra, rb) = (a as real, b as real);
            assert((ra * dx) * (rb * dy) == (dx * dy) * (ra * rb)) by (nonlinear_arith);
        }
        lemma_rsum_eq(256, left, right);
        let t = isum(256, p) as real;
        assert(k * t == t * dx * dy) by (nonlinear_arith)
            requires
                k == dx * dy,
        ;
    }
}

/// q8_K: the product is that of the values the blocks decode to.
pub proof fn q8k_dot_is_of_values<R: Real>(
    val: spec_fn(R) -> real,
    xs: Seq<BlockQ8K<R>>,
    ys: Seq<BlockQ8K<R>>,
)
    requires
        exact(val),
    ensures
        val(<BlockQ8K<R> as BlockFormat<R>>::dot_of(xs, ys)) == values_product::<
            R,
            BlockQ8K<R>,
            BlockQ8K<R>,
        >(val, xs, ys, 256),
{
    q8k_kernel_is_plain::<R>(val, xs, ys);
    lemma_q8k_values::<R>(val, xs, ys, shared(xs.len(), ys.len()));
}

/// iq2_xxs: the product is that of the values the blocks decode to.
pub proof fn iq2_dot_is_of_values<R: Real>(
    val: spec_fn(R) -> real,
    xs: Seq<BlockIq2Xxs>,
    ys: Seq<BlockQ8K<R>>,
)
    requires
        exact(val),
    ensures
        val(<BlockIq2Xxs as BlockFormat<R>>::dot_of(xs, ys)) == values_product::<
            R,
            BlockIq2Xxs,
            BlockQ8K<R>,
        >(val, xs, ys, 256),
{
    iq2_kernel_is_plain::<R>(val, xs, ys);
    let n = shared(xs.len(), ys.len());
    let term = |b: int| iq_plain_term::<R>(xs[b], ys[b]);
    lemma_fsum_val(val, n, term);
    let f = |b: int| val(term(b));
    let g = |b: int| block_values::<R, BlockIq2Xxs, BlockQ8K<R>>(val, xs[b], ys[b], 256);
    assert forall|b: int| 0 <= b < n implies #[trigger] f(b) == g(b) by {
        let (x, y) = (xs[b], ys[b]);
        let h = |e: int| rmul(x.value_of::<R>(e), rint(y.qs@[e] as i32));
        lemma_fsum_val(val, 256, h);
        let dy = val(y.d);
        let vh = |e: int| val(h(e));
        lemma_rsum_scale(256, dy, vh);
        let left = |e: int|
            val(<BlockIq2Xxs as Quantized<R>>::value(x, e)) * val(
                <BlockQ8K<R> as Quantized<R>>::value(y, e),
            );
        let right = |e: int| dy * vh(e);
        assert forall|e: int| 0 <= e < 256 implies #[trigger] left(e) == right(e) by {
            let (v, q) = (val(x.value_of::<R>(e)), y.qs@[e] as real);
            assert(v * (q * dy) == dy * (v * q)) by (nonlinear_arith);
        }
        lemma_rsum_eq(256, left, right);
    }
    lemma_rsum_eq(n, f, g);
}

} // verus!
