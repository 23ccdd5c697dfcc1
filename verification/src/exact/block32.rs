//! The formats of thirty-two codes under one scale.
use vstd::prelude::*;
use crate::arith::{Real, rhalf, rint};
use crate::blocks::{BlockFormat, Quantized};
use crate::coded::{
    Codes32, Scaled, block_dot, chain, lane4, lane_dot, plain_dot, scaled_value, shared,
};
use crate::exact::numbers::{
    exact, lemma_eight, lemma_lanes_fold, lemma_rsum_eq, lemma_rsum_int, lemma_rsum_scale, rsum,
};
use crate::format::mxfp4::{BlockMxFp4, mx_plain_dot};
use crate::format::q4_0::BlockQ4_0;
use crate::format::q4_1::BlockQ4_1;
use crate::format::q5_0::BlockQ5_0;
use crate::format::q5_1::BlockQ5_1;
use crate::format::q8_0::BlockQ8_0;
use crate::format::q8_1::{BlockQ8_1, Offset, offset_lane_dot, offset_plain_dot};
use crate::sums::{isum, lemma_isum_bound};

verus! {

/// The codes of a block are bytes.
pub open spec fn bytes32<X: Codes32>(x: X) -> bool {
    forall|e: int| 0 <= e < 32 ==> -128 <= #[trigger] x.code_of(e) <= 127
}

/// Every block of a run has codes that are bytes.
pub open spec fn all_bytes32<X: Codes32>(xs: Seq<X>) -> bool {
    forall|b: int| 0 <= b < xs.len() ==> bytes32(#[trigger] xs[b])
}

/// The lanes of a block are its products, and they are small.
proof fn lemma_lane4<X: Codes32, Y: Codes32>(x: X, y: Y)
    requires
        bytes32(x),
        bytes32(y),
    ensures
        forall|l: int| 0 <= l < 8 ==> -65536 <= #[trigger] lane4(x, y, l) <= 65536,
        -524288 <= block_dot(x, y) <= 524288,
        block_dot(x, y) == lane4(x, y, 0) + lane4(x, y, 1) + lane4(x, y, 2) + lane4(x, y, 3)
            + lane4(x, y, 4) + lane4(x, y, 5) + lane4(x, y, 6) + lane4(x, y, 7),
{
    let f = |e: int| x.code_of(e) * y.code_of(e);
    assert forall|e: int| 0 <= e < 32 implies -16384 <= #[trigger] f(e) <= 16384 by {
        let (a, b) = (x.code_of(e), y.code_of(e));
        assert(-16384 <= a * b <= 16384) by (nonlinear_arith)
            requires
                -128 <= a <= 127,
                -128 <= b <= 127,
        ;
    }
    lemma_isum_bound(32, f, 16384);
    assert forall|l: int| 0 <= l < 8 implies -65536 <= #[trigger] lane4(x, y, l) <= 65536 by {
        let g = |t: int| x.code_of(4 * l + t) * y.code_of(4 * l + t);
        assert forall|t: int| 0 <= t < 4 implies -16384 <= #[trigger] g(t) <= 16384 by {
            assert(f(4 * l + t) == g(t));
        }
        lemma_isum_bound(4, g, 16384);
    }
    reveal_with_fuel(isum, 33);
}

/// One block more in every lane.
proof fn lemma_block_added<R: Real, X: Scaled<R>, Y: Scaled<R>>(
    val: spec_fn(R) -> real,
    xs: Seq<X>,
    ys: Seq<Y>,
    n: nat,
)
    requires
        exact(val),
        0 < n <= xs.len(),
        n <= ys.len(),
        all_bytes32(xs),
        all_bytes32(ys),
    ensures
        val(lane_dot::<R, X, Y>(xs, ys, n)) == val(lane_dot::<R, X, Y>(xs, ys, (n - 1) as nat)) + (
        val(xs[n - 1].scale_of()) * val(ys[n - 1].scale_of())) * (block_dot(
            xs[n - 1],
            ys[n - 1],
        ) as real),
        -524288 <= block_dot(xs[n - 1], ys[n - 1]) <= 524288,
{
    let m = (n - 1) as nat;
    let now = |l: int| chain::<R, X, Y>(xs, ys, n, l);
    lemma_lanes_fold(val, Seq::new(8, |l: int| chain::<R, X, Y>(xs, ys, n, l)));
    lemma_lanes_fold(val, Seq::new(8, |l: int| chain::<R, X, Y>(xs, ys, m, l)));
    let (x, y) = (xs[n - 1], ys[n - 1]);
    lemma_lane4(x, y);
    let d = val(x.scale_of()) * val(y.scale_of());
    let i = |l: int| lane4(x, y, l);
    assert(forall|l: int| 0 <= l < 8 ==> val(#[trigger] now(l)) == d * (i(l) as real) + val(
        chain::<R, X, Y>(xs, ys, m, l),
    ));
    lemma_eight(d, i, block_dot(x, y));
}

/// The lane product and the plain one are one number.
pub proof fn lanes_are_plain<R: Real, X: Scaled<R>, Y: Scaled<R>>(
    val: spec_fn(R) -> real,
    xs: Seq<X>,
    ys: Seq<Y>,
    n: nat,
)
    requires
        exact(val),
        n <= xs.len(),
        n <= ys.len(),
        all_bytes32(xs),
        all_bytes32(ys),
    ensures
        val(lane_dot::<R, X, Y>(xs, ys, n)) == val(plain_dot::<R, X, Y>(xs, ys, n)),
    decreases n,
{
    if n == 0 {
        lemma_lanes_fold(val, Seq::new(8, |l: int| chain::<R, X, Y>(xs, ys, n, l)));
    } else {
        lanes_are_plain::<R, X, Y>(val, xs, ys, (n - 1) as nat);
        lemma_block_added::<R, X, Y>(val, xs, ys, n);
        let (dx, dy, t) = (
            val(xs[n - 1].scale_of()),
            val(ys[n - 1].scale_of()),
            block_dot(xs[n - 1], ys[n - 1]) as real,
        );
        assert((dx * dy) * t == t * dx * dy) by (nonlinear_arith);
    }
}

/// The products of the values of one pair of blocks.
pub open spec fn values_dot<R: Real, X: Scaled<R>, Y: Scaled<R>>(
    val: spec_fn(R) -> real,
    x: X,
    y: Y,
) -> real {
    rsum(32, |e: int| val(scaled_value(x, e)) * val(scaled_value(y, e)))
}

/// The lane product is the dot product of the values the two runs reconstruct to.
pub proof fn lanes_are_the_values<R: Real, X: Scaled<R>, Y: Scaled<R>>(
    val: spec_fn(R) -> real,
    xs: Seq<X>,
    ys: Seq<Y>,
    n: nat,
)
    requires
        exact(val),
        n <= xs.len(),
        n <= ys.len(),
        all_bytes32(xs),
        all_bytes32(ys),
    ensures
        val(lane_dot::<R, X, Y>(xs, ys, n)) == rsum(
            n,
            |b: int| values_dot::<R, X, Y>(val, xs[b], ys[b]),
        ),
    decreases n,
{
    if n == 0 {
        lemma_lanes_fold(val, Seq::new(8, |l: int| chain::<R, X, Y>(xs, ys, n, l)));
    } else {
        lanes_are_the_values::<R, X, Y>(val, xs, ys, (n - 1) as nat);
        lemma_block_added::<R, X, Y>(val, xs, ys, n);
        let (x, y) = (xs[n - 1], ys[n - 1]);
        let (dx, dy) = (val(x.scale_of()), val(y.scale_of()));
        let d = dx * dy;
        let g = |e: int| x.code_of(e) * y.code_of(e);
        let p = |e: int| g(e) as real;
        lemma_rsum_int(32, g);
        lemma_rsum_scale(32, d, p);
        let left = |e: int| d * p(e);
        let right = |e: int| val(scaled_value(x, e)) * val(scaled_value(y, e));
        assert forall|e: int| 0 <= e < 32 implies #[trigger] left(e) == right(e) by {
            let (a, b) = (x.code_of(e), y.code_of(e));
            assert(bytes32(x) && bytes32(y));
            let (ra, rb) = (a as real, b as real);
            assert((a * b) as real == ra * rb) by (nonlinear_arith)
                requires
                    ra == a as real,
                    rb == b as real,
            ;
            assert(d * (ra * rb) == (ra * dx) * (rb * dy)) by (nonlinear_arith)
                requires
                    d == dx * dy,
            ;
        }
        lemma_rsum_eq(32, left, right);
    }
}

/// With offsets: the lane product and the plain one are one number.
pub proof fn offset_lanes_are_plain<R: Real, X: Offset<R>>(
    val: spec_fn(R) -> real,
    xs: Seq<X>,
    ys: Seq<BlockQ8_1>,
    n: nat,
)
    requires
        exact(val),
        n <= xs.len(),
        n <= ys.len(),
        all_bytes32(xs),
        all_bytes32(ys),
    ensures
        val(offset_lane_dot::<R, X>(xs, ys, n)) == val(offset_plain_dot::<R, X>(xs, ys, n)),
    decreases n,
{
    if n == 0 {
        lemma_lanes_fold(val, Seq::new(8, |l: int| chain::<R, X, BlockQ8_1>(xs, ys, n, l)));
    } else {
        offset_lanes_are_plain::<R, X>(val, xs, ys, (n - 1) as nat);
        lemma_block_added::<R, X, BlockQ8_1>(val, xs, ys, n);
        let (x, y) = (xs[n - 1], ys[n - 1]);
        let (dx, dy, t) = (val(x.scale_of()), val(rhalf::<R>(y.d)), block_dot(x, y) as real);
        assert((dx * dy) * t == t * dx * dy) by (nonlinear_arith);
    }
}

/// q4_0: the kernel and its plain definition are one number, and it is the dot product of the
/// values.
pub proof fn q4_0_kernel_is_plain<R: Real>(
    val: spec_fn(R) -> real,
    xs: Seq<BlockQ4_0>,
    ys: Seq<BlockQ8_0>,
)
    requires
        exact(val),
    ensures
        val(<BlockQ4_0 as BlockFormat<R>>::dot_of(xs, ys)) == val(
            <BlockQ4_0 as BlockFormat<R>>::dot_scalar_of(xs, ys),
        ),
        val(<BlockQ4_0 as BlockFormat<R>>::dot_of(xs, ys)) == rsum(
            shared(xs.len(), ys.len()),
            |b: int| values_dot::<R, BlockQ4_0, BlockQ8_0>(val, xs[b], ys[b]),
        ),
{
    lanes_are_plain::<R, BlockQ4_0, BlockQ8_0>(val, xs, ys, shared(xs.len(), ys.len()));
    lanes_are_the_values::<R, BlockQ4_0, BlockQ8_0>(val, xs, ys, shared(xs.len(), ys.len()));
}

/// q5_0: likewise.
pub proof fn q5_0_kernel_is_plain<R: Real>(
    val: spec_fn(R) -> real,
    xs: Seq<BlockQ5_0>,
    ys: Seq<BlockQ8_0>,
)
    requires
        exact(val),
    ensures
        val(<BlockQ5_0 as BlockFormat<R>>::dot_of(xs, ys)) == val(
            <BlockQ5_0 as BlockFormat<R>>::dot_scalar_of(xs, ys),
        ),
        val(<BlockQ5_0 as BlockFormat<R>>::dot_of(xs, ys)) == rsum(
            shared(xs.len(), ys.len()),
            |b: int| values_dot::<R, BlockQ5_0, BlockQ8_0>(val, xs[b], ys[b]),
        ),
{
    lanes_are_plain::<R, BlockQ5_0, BlockQ8_0>(val, xs, ys, shared(xs.len(), ys.len()));
    lanes_are_the_values::<R, BlockQ5_0, BlockQ8_0>(val, xs, ys, shared(xs.len(), ys.len()));
}

/// q8_0: likewise.
pub proof fn q8_0_kernel_is_plain<R: Real>(
    val: spec_fn(R) -> real,
    xs: Seq<BlockQ8_0>,
    ys: Seq<BlockQ8_0>,
)
    requires
        exact(val),
    ensures
        val(<BlockQ8_0 as BlockFormat<R>>::dot_of(xs, ys)) == val(
            <BlockQ8_0 as BlockFormat<R>>::dot_scalar_of(xs, ys),
        ),
        val(<BlockQ8_0 as BlockFormat<R>>::dot_of(xs, ys)) == rsum(
            shared(xs.len(), ys.len()),
            |b: int| values_dot::<R, BlockQ8_0, BlockQ8_0>(val, xs[b], ys[b]),
        ),
{
    lanes_are_plain::<R, BlockQ8_0, BlockQ8_0>(val, xs, ys, shared(xs.len(), ys.len()));
    lanes_are_the_values::<R, BlockQ8_0, BlockQ8_0>(val, xs, ys, shared(xs.len(), ys.len()));
}

/// q8_1: likewise.
pub proof fn q8_1_kernel_is_plain<R: Real>(
    val: spec_fn(R) -> real,
    xs: Seq<BlockQ8_1>,
    ys: Seq<BlockQ8_1>,
)
    requires
        exact(val),
    ensures
        val(<BlockQ8_1 as BlockFormat<R>>::dot_of(xs, ys)) == val(
            <BlockQ8_1 as BlockFormat<R>>::dot_scalar_of(xs, ys),
        ),
        val(<BlockQ8_1 as BlockFormat<R>>::dot_of(xs, ys)) == rsum(
            shared(xs.len(), ys.len()),
            |b: int| values_dot::<R, BlockQ8_1, BlockQ8_1>(val, xs[b], ys[b]),
        ),
{
    lanes_are_plain::<R, BlockQ8_1, BlockQ8_1>(val, xs, ys, shared(xs.len(), ys.len()));
    lanes_are_the_values::<R, BlockQ8_1, BlockQ8_1>(val, xs, ys, shared(xs.len(), ys.len()));
}

/// mxfp4: likewise.
pub proof fn mxfp4_kernel_is_plain<R: Real>(
    val: spec_fn(R) -> real,
    xs: Seq<BlockMxFp4>,
    ys: Seq<BlockQ8_0>,
)
    requires
        exact(val),
    ensures
        val(<BlockMxFp4 as BlockFormat<R>>::dot_of(xs, ys)) == val(
            <BlockMxFp4 as BlockFormat<R>>::dot_scalar_of(xs, ys),
        ),
        val(<BlockMxFp4 as BlockFormat<R>>::dot_of(xs, ys)) == rsum(
            shared(xs.len(), ys.len()),
            |b: int| values_dot::<R, BlockMxFp4, BlockQ8_0>(val, xs[b], ys[b]),
        ),
{
    let n = shared(xs.len(), ys.len());
    lanes_are_the_values::<R, BlockMxFp4, BlockQ8_0>(val, xs, ys, n);
    lanes_are_plain::<R, BlockMxFp4, BlockQ8_0>(val, xs, ys, n);
    lemma_mx_plain::<R>(val, xs, ys, n);
}

/// The two plain products differ in how the scales are multiplied.
proof fn lemma_mx_plain<R: Real>(
    val: spec_fn(R) -> real,
    xs: Seq<BlockMxFp4>,
    ys: Seq<BlockQ8_0>,
    n: nat,
)
    requires
        exact(val),
        n <= xs.len(),
        n <= ys.len(),
    ensures
        val(mx_plain_dot::<R>(xs, ys, n)) == val(
            plain_dot::<R, BlockMxFp4, BlockQ8_0>(xs, ys, n),
        ),
    decreases n,
{
    if n > 0 {
        lemma_mx_plain::<R>(val, xs, ys, (n - 1) as nat);
        let (x, y) = (xs[n - 1], ys[n - 1]);
        let sx = <BlockMxFp4 as Scaled<R>>::scale_of(x);
        let sy = <BlockQ8_0 as Scaled<R>>::scale_of(y);
        let t = rint::<R>(block_dot(x, y) as i32);
        let (a, b, c) = (val(t), val(sx), val(sy));
        assert(a * (b * c) == a * b * c) by (nonlinear_arith);
    }
}

/// q4_1: the kernel and its plain definition are one number.
pub proof fn q4_1_kernel_is_plain<R: Real>(
    val: spec_fn(R) -> real,
    xs: Seq<BlockQ4_1>,
    ys: Seq<BlockQ8_1>,
)
    requires
        exact(val),
    ensures
        val(<BlockQ4_1 as BlockFormat<R>>::dot_of(xs, ys)) == val(
            <BlockQ4_1 as BlockFormat<R>>::dot_scalar_of(xs, ys),
        ),
{
    offset_lanes_are_plain::<R, BlockQ4_1>(val, xs, ys, shared(xs.len(), ys.len()));
}

/// q5_1: likewise.
pub proof fn q5_1_kernel_is_plain<R: Real>(
    val: spec_fn(R) -> real,
    xs: Seq<BlockQ5_1>,
    ys: Seq<BlockQ8_1>,
)
    requires
        exact(val),
    ensures
        val(<BlockQ5_1 as BlockFormat<R>>::dot_of(xs, ys)) == val(
            <BlockQ5_1 as BlockFormat<R>>::dot_scalar_of(xs, ys),
        ),
{
    offset_lanes_are_plain::<R, BlockQ5_1>(val, xs, ys, shared(xs.len(), ys.len()));
}

} // verus!
