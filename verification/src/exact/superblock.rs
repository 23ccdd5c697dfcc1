//! The formats of 256 codes with a scale for each sixteen of them.
use vstd::prelude::*;
use crate::arith::{Real, rhalf, rint, rmul};
use crate::blocks::BlockFormat;
use crate::coded::shared;
use crate::exact::numbers::{
    exact, lemma_eight, lemma_fsum_val, lemma_lanes_fold, lemma_rsum_eq, lemma_rsum_int,
};
use crate::format::q3_k::{BlockQ3K, q3k_chain, q3k_term};
use crate::format::q6_k::{BlockQ6K, Centred, folded_lane, q6k_chain, q6k_term, zero_point_folds};
use crate::format::q8_k::{BlockQ8K, bsums_hold, pair_lane, q8k_chain, q8k_plain};
use crate::lanes::lanes_total;
use crate::sums::{dot_codes, fsum, isum, lemma_isum_bound, lemma_isum_eq};
use crate::superblock::{Codes256, lane_of, lanes_hold_every_product, run_quad, scaled_dot, sub_dot};

verus! {

/// The codes and the scales of a super-block are bytes.
pub open spec fn bytes256<X: Codes256>(x: X) -> bool {
    &&& forall|e: int| 0 <= e < 256 ==> -128 <= #[trigger] x.code_of(e) <= 127
    &&& forall|s: int| 0 <= s < 16 ==> -128 <= #[trigger] x.sub_scale_of(s) <= 127
}

/// A product of bytes.
pub proof fn lemma_byte_product(a: int, b: int)
    requires
        -128 <= a <= 127,
        -128 <= b <= 127,
    ensures
        -16384 <= a * b <= 16384,
{
    assert(-16384 <= a * b <= 16384) by (nonlinear_arith)
        requires
            -128 <= a <= 127,
            -128 <= b <= 127,
    ;
}

/// The products of a sub-block, of a lane, of a block: none of them is large.
pub proof fn lemma_small<X: Codes256>(x: X, y: Seq<i8>)
    requires
        bytes256(x),
        y.len() == 256,
    ensures
        forall|s: int| 0 <= s < 16 ==> -0x4_0000 <= #[trigger] sub_dot(x, y, s) <= 0x4_0000,
        forall|l: int| 0 <= l < 8 ==> -0x400_0000 <= #[trigger] lane_of(x, y, l) <= 0x400_0000,
        scaled_dot(x, y) == lane_of(x, y, 0) + lane_of(x, y, 1) + lane_of(x, y, 2) + lane_of(x, y, 3)
            + lane_of(x, y, 4) + lane_of(x, y, 5) + lane_of(x, y, 6) + lane_of(x, y, 7),
{
    assert forall|s: int| 0 <= s < 16 implies -0x4_0000 <= #[trigger] sub_dot(x, y, s) <= 0x4_0000 by {
        let g = |t: int| x.code_of(16 * s + t) * y[16 * s + t];
        assert forall|t: int| 0 <= t < 16 implies -16384 <= #[trigger] g(t) <= 16384 by {
            lemma_byte_product(x.code_of(16 * s + t), y[16 * s + t] as int);
        }
        lemma_isum_bound(16, g, 16384);
    }
    assert forall|l: int| 0 <= l < 8 implies -0x400_0000 <= #[trigger] lane_of(x, y, l)
        <= 0x400_0000 by {
        let h = |c: int| x.sub_scale_of(2 * c + l / 4) * run_quad(x, y, c, l);
        assert forall|c: int| 0 <= c < 8 implies -0x80_0000 <= #[trigger] h(c) <= 0x80_0000 by {
            let g = |t: int| x.code_of(32 * c + 4 * l + t) * y[32 * c + 4 * l + t];
            assert forall|t: int| 0 <= t < 4 implies -16384 <= #[trigger] g(t) <= 16384 by {
                lemma_byte_product(x.code_of(32 * c + 4 * l + t), y[32 * c + 4 * l + t] as int);
            }
            lemma_isum_bound(4, g, 16384);
            let (k, q) = (x.sub_scale_of(2 * c + l / 4), run_quad(x, y, c, l));
            assert(-0x80_0000 <= k * q <= 0x80_0000) by (nonlinear_arith)
                requires
                    -128 <= k <= 127,
                    -65536 <= q <= 65536,
            ;
        }
        lemma_isum_bound(8, h, 0x80_0000);
    }
    lanes_hold_every_product(x, y);
    reveal_with_fuel(isum, 9);
}

/// A product of integers, read as a number.
pub proof fn lemma_product_val<R: Real>(val: spec_fn(R) -> real, a: int, b: int)
    requires
        exact(val),
        i32::MIN <= a <= i32::MAX,
        i32::MIN <= b <= i32::MAX,
    ensures
        val(rmul(rint::<R>(a as i32), rint::<R>(b as i32))) == (a * b) as real,
{
    let (ra, rb) = (a as real, b as real);
    assert((a * b) as real == ra * rb) by (nonlinear_arith)
        requires
            ra == a as real,
            rb == b as real,
    ;
}

/// The sub-block sums under their scales are the scaled product.
pub proof fn lemma_scaled_sum<R: Real, X: Codes256>(val: spec_fn(R) -> real, x: X, y: Seq<i8>)
    requires
        exact(val),
        bytes256(x),
        y.len() == 256,
    ensures
        val(
            fsum(
                16,
                |s: int| rmul(rint::<R>(x.sub_scale_of(s) as i32), rint(sub_dot(x, y, s) as i32)),
            ),
        ) == scaled_dot(x, y) as real,
        val(
            fsum(
                16,
                |s: int| rmul(rint::<R>(sub_dot(x, y, s) as i32), rint(x.sub_scale_of(s) as i32)),
            ),
        ) == scaled_dot(x, y) as real,
{
    lemma_small(x, y);
    let g = |s: int| x.sub_scale_of(s) * sub_dot(x, y, s);
    let f = |s: int| rmul(rint::<R>(x.sub_scale_of(s) as i32), rint(sub_dot(x, y, s) as i32));
    let h = |s: int| rmul(rint::<R>(sub_dot(x, y, s) as i32), rint(x.sub_scale_of(s) as i32));
    lemma_fsum_val(val, 16, f);
    lemma_fsum_val(val, 16, h);
    lemma_rsum_int(16, g);
    let (a, b, c) = (|s: int| val(f(s)), |s: int| val(h(s)), |s: int| g(s) as real);
    assert forall|s: int| 0 <= s < 16 implies #[trigger] a(s) == c(s) by {
        lemma_product_val::<R>(val, x.sub_scale_of(s), sub_dot(x, y, s));
    }
    assert forall|s: int| 0 <= s < 16 implies #[trigger] b(s) == c(s) by {
        let (k, d) = (x.sub_scale_of(s), sub_dot(x, y, s));
        lemma_product_val::<R>(val, d, k);
        assert(k * d == d * k) by (nonlinear_arith);
    }
    lemma_rsum_eq(16, a, c);
    lemma_rsum_eq(16, b, c);
}

/// Eight lanes, each with one block more under the factor `d`.
pub proof fn lemma_lanes_step<R: Real>(
    val: spec_fn(R) -> real,
    now: spec_fn(int) -> R,
    was: spec_fn(int) -> R,
    d: real,
    i: spec_fn(int) -> int,
    total: int,
)
    requires
        exact(val),
        total == i(0) + i(1) + i(2) + i(3) + i(4) + i(5) + i(6) + i(7),
        forall|l: int| 0 <= l < 8 ==> val(#[trigger] now(l)) == d * (i(l) as real) + val(was(l)),
    ensures
        val(lanes_total(Seq::new(8, now))) == val(lanes_total(Seq::new(8, was))) + d * (
        total as real),
{
    lemma_lanes_fold(val, Seq::new(8, now));
    lemma_lanes_fold(val, Seq::new(8, was));
    lemma_eight(d, i, total);
    assert(val(now(0)) == d * (i(0) as real) + val(was(0)));
    assert(val(now(1)) == d * (i(1) as real) + val(was(1)));
    assert(val(now(2)) == d * (i(2) as real) + val(was(2)));
    assert(val(now(3)) == d * (i(3) as real) + val(was(3)));
    assert(val(now(4)) == d * (i(4) as real) + val(was(4)));
    assert(val(now(5)) == d * (i(5) as real) + val(was(5)));
    assert(val(now(6)) == d * (i(6) as real) + val(was(6)));
    assert(val(now(7)) == d * (i(7) as real) + val(was(7)));
}

// -- q3_K --

/// The codes and scales of a q3_K block are bytes.
pub(crate) proof fn lemma_q3k_bytes(x: BlockQ3K)
    ensures
        bytes256(x),
{
}

proof fn lemma_q3k<R: Real>(
    val: spec_fn(R) -> real,
    xs: Seq<BlockQ3K>,
    ys: Seq<BlockQ8K<R>>,
    n: nat,
)
    requires
        exact(val),
    ensures
        val(lanes_total(Seq::new(8, |l: int| q3k_chain::<R>(xs, ys, n, l)))) == val(
            fsum(n, |b: int| q3k_term::<R>(xs[b], ys[b])),
        ),
    decreases n,
{
    let now = |l: int| q3k_chain::<R>(xs, ys, n, l);
    if n == 0 {
        lemma_lanes_fold(val, Seq::new(8, now));
    } else {
        let m = (n - 1) as nat;
        lemma_q3k::<R>(val, xs, ys, m);
        let (x, y) = (xs[n - 1], ys[n - 1]);
        lemma_q3k_bytes(x);
        lemma_small(x, y.qs@);
        lemma_scaled_sum::<R, BlockQ3K>(val, x, y.qs@);
        let (dy, dx, t) = (val(y.d), val(rhalf::<R>(x.d)), scaled_dot(x, y.qs@) as real);
        let d = dy * dx;
        let i = |l: int| lane_of(x, y.qs@, l);
        lemma_lanes_step(
            val,
            now,
            |l: int| q3k_chain::<R>(xs, ys, m, l),
            d,
            i,
            scaled_dot(x, y.qs@),
        );
        assert(d * t == t * dx * dy) by (nonlinear_arith)
            requires
                d == dy * dx,
        ;
    }
}

/// q3_K: the kernel and its plain definition are one number.
pub proof fn q3k_kernel_is_plain<R: Real>(
    val: spec_fn(R) -> real,
    xs: Seq<BlockQ3K>,
    ys: Seq<BlockQ8K<R>>,
)
    requires
        exact(val),
    ensures
        val(<BlockQ3K as BlockFormat<R>>::dot_of(xs, ys)) == val(
            <BlockQ3K as BlockFormat<R>>::dot_scalar_of(xs, ys),
        ),
{
    lemma_q3k::<R>(val, xs, ys, shared(xs.len(), ys.len()));
}

// -- q6_K --

/// The codes and scales of a q6_K block are bytes, with the zero point and without.
pub(crate) proof fn lemma_q6k_bytes(x: BlockQ6K)
    ensures
        bytes256(x),
        bytes256(Centred { b: x }),
{
    assert forall|e: int| 0 <= e < 256 implies 0 <= #[trigger] x.code_of(e) < 64 by {}
    let c = Centred { b: x };
    assert forall|e: int| 0 <= e < 256 implies -128 <= #[trigger] c.code_of(e) <= 127 by {
        assert(0 <= x.code_of(e) < 64);
    }
    assert forall|s: int| 0 <= s < 16 implies -128 <= #[trigger] c.sub_scale_of(s) <= 127 by {
        assert(c.sub_scale_of(s) == x.sub_scale_of(s));
    }
}

/// A folded lane is small.
proof fn lemma_folded_small<R: Real>(x: BlockQ6K, y: BlockQ8K<R>, l: int)
    requires
        0 <= l < 8,
    ensures
        -0x4000_0000 <= folded_lane::<R>(x, y, l) <= 0x4000_0000,
{
    lemma_q6k_bytes(x);
    lemma_small(x, y.qs@);
    let (a, b) = (x.scales@[2 * l] as int, y.bsums@[2 * l] as int);
    let (c, d) = (x.scales@[2 * l + 1] as int, y.bsums@[2 * l + 1] as int);
    assert(-0x40_0000 <= a * b <= 0x40_0000 && -0x40_0000 <= c * d <= 0x40_0000)
        by (nonlinear_arith)
        requires
            -128 <= a <= 127,
            -128 <= c <= 127,
            -32768 <= b <= 32767,
            -32768 <= d <= 32767,
    ;
    assert(-0x400_0000 <= lane_of(x, y.qs@, l) <= 0x400_0000);
}

proof fn lemma_q6k<R: Real>(
    val: spec_fn(R) -> real,
    xs: Seq<BlockQ6K>,
    ys: Seq<BlockQ8K<R>>,
    n: nat,
)
    requires
        exact(val),
        forall|b: int| 0 <= b < n ==> bsums_hold((#[trigger] ys[b]).qs@, ys[b].bsums@),
    ensures
        val(lanes_total(Seq::new(8, |l: int| q6k_chain::<R>(xs, ys, n, l)))) == val(
            fsum(n, |b: int| q6k_term::<R>(xs[b], ys[b])),
        ),
    decreases n,
{
    let now = |l: int| q6k_chain::<R>(xs, ys, n, l);
    if n == 0 {
        lemma_lanes_fold(val, Seq::new(8, now));
    } else {
        let m = (n - 1) as nat;
        lemma_q6k::<R>(val, xs, ys, m);
        let (x, y) = (xs[n - 1], ys[n - 1]);
        let c = Centred { b: x };
        lemma_q6k_bytes(x);
        lemma_scaled_sum::<R, Centred>(val, c, y.qs@);
        zero_point_folds::<R>(x, y);
        let i = |l: int| folded_lane::<R>(x, y, l);
        let total = scaled_dot(c, y.qs@);
        assert(isum(8, i) == i(0) + i(1) + i(2) + i(3) + i(4) + i(5) + i(6) + i(7)) by {
            reveal_with_fuel(isum, 9);
        }
        let (dy, dx, t) = (val(y.d), val(rhalf::<R>(x.d)), total as real);
        let d = dy * dx;
        assert forall|l: int| 0 <= l < 8 implies val(#[trigger] now(l)) == d * (i(l) as real) + val(
            q6k_chain::<R>(xs, ys, m, l),
        ) by {
            lemma_folded_small::<R>(x, y, l);
        }
        lemma_lanes_step(val, now, |l: int| q6k_chain::<R>(xs, ys, m, l), d, i, total);
        let f = |s: int| rmul(rint::<R>(sub_dot(c, y.qs@, s) as i32), rint(x.scales@[s] as i32));
        let g = |s: int| rmul(
            rint::<R>(sub_dot(c, y.qs@, s) as i32),
            rint(c.sub_scale_of(s) as i32),
        );
        crate::sums::lemma_fsum_eq(16, f, g);
        assert(d * t == t * dx * dy) by (nonlinear_arith)
            requires
                d == dy * dx,
        ;
    }
}

/// q6_K: the kernel and its plain definition are one number, where the activations' stored sums
/// are the sums of their codes.
pub proof fn q6k_kernel_is_plain<R: Real>(
    val: spec_fn(R) -> real,
    xs: Seq<BlockQ6K>,
    ys: Seq<BlockQ8K<R>>,
)
    requires
        exact(val),
        forall|b: int| 0 <= b < ys.len() ==> bsums_hold((#[trigger] ys[b]).qs@, ys[b].bsums@),
    ensures
        val(<BlockQ6K as BlockFormat<R>>::dot_of(xs, ys)) == val(
            <BlockQ6K as BlockFormat<R>>::dot_scalar_of(xs, ys),
        ),
{
    lemma_q6k::<R>(val, xs, ys, shared(xs.len(), ys.len()));
}

// -- q8_K --

/// The lanes of a q8_K product are its products.
proof fn lemma_pair_lanes(x: Seq<i8>, y: Seq<i8>)
    requires
        x.len() == 256,
        y.len() == 256,
    ensures
        dot_codes(256, x, y) == pair_lane(x, y, 0) + pair_lane(x, y, 1) + pair_lane(x, y, 2)
            + pair_lane(x, y, 3) + pair_lane(x, y, 4) + pair_lane(x, y, 5) + pair_lane(x, y, 6)
            + pair_lane(x, y, 7),
        -0x40_0000 <= dot_codes(256, x, y) <= 0x40_0000,
        forall|l: int| 0 <= l < 8 ==> -0x8_0000 <= #[trigger] pair_lane(x, y, l) <= 0x8_0000,
{
    let f = |i: int| x[i] * y[i];
    assert forall|i: int| 0 <= i < 256 implies -16384 <= #[trigger] f(i) <= 16384 by {
        lemma_byte_product(x[i] as int, y[i] as int);
    }
    lemma_isum_bound(256, f, 16384);
    assert forall|l: int| 0 <= l < 8 implies -0x8_0000 <= #[trigger] pair_lane(x, y, l)
        <= 0x8_0000 by {
        let h = |c: int| x[16 * c + 2 * l] * y[16 * c + 2 * l] + x[16 * c + 2 * l + 1] * y[16 * c
            + 2 * l + 1];
        assert forall|c: int| 0 <= c < 16 implies -32768 <= #[trigger] h(c) <= 32768 by {
            assert(h(c) == f(16 * c + 2 * l) + f(16 * c + 2 * l + 1));
        }
        lemma_isum_bound(16, h, 32768);
    }
    crate::sums::lemma_isum_runs(16, 16, f);
    let runs = |c: int| isum(16, |t: int| f(c * 16 + t));
    let h = |l: int, c: int| f(16 * c + 2 * l) + f(16 * c + 2 * l + 1);
    let all = |c: int| h(0, c) + h(1, c) + h(2, c) + h(3, c) + h(4, c) + h(5, c) + h(6, c) + h(7, c);
    assert forall|c: int| 0 <= c < 16 implies #[trigger] runs(c) == all(c) by {
        let g = |t: int| f(c * 16 + t);
        assert(isum(16, g) == g(0) + g(1) + g(2) + g(3) + g(4) + g(5) + g(6) + g(7) + g(8) + g(9)
            + g(10) + g(11) + g(12) + g(13) + g(14) + g(15)) by {
            reveal_with_fuel(isum, 17);
        }
    }
    lemma_isum_eq(16, runs, all);
    assert forall|l: int| 0 <= l < 8 implies #[trigger] pair_lane(x, y, l) == isum(
        16,
        |c: int| h(l, c),
    ) by {
        lemma_isum_eq(
            16,
            |c: int|
                x[16 * c + 2 * l] * y[16 * c + 2 * l] + x[16 * c + 2 * l + 1] * y[16 * c + 2 * l
                    + 1],
            |c: int| h(l, c),
        );
    }
    lemma_eight_sums(16, h);
}

/// Eight sums side by side.
proof fn lemma_eight_sums(n: nat, h: spec_fn(int, int) -> int)
    ensures
        isum(
            n,
            |c: int|
                h(0, c) + h(1, c) + h(2, c) + h(3, c) + h(4, c) + h(5, c) + h(6, c) + h(7, c),
        ) == isum(n, |c: int| h(0, c)) + isum(n, |c: int| h(1, c)) + isum(n, |c: int| h(2, c))
            + isum(n, |c: int| h(3, c)) + isum(n, |c: int| h(4, c)) + isum(n, |c: int| h(5, c))
            + isum(n, |c: int| h(6, c)) + isum(n, |c: int| h(7, c)),
    decreases n,
{
    if n > 0 {
        lemma_eight_sums((n - 1) as nat, h);
    }
}

proof fn lemma_q8k<R: Real>(
    val: spec_fn(R) -> real,
    xs: Seq<BlockQ8K<R>>,
    ys: Seq<BlockQ8K<R>>,
    n: nat,
)
    requires
        exact(val),
    ensures
        val(lanes_total(Seq::new(8, |l: int| q8k_chain(xs, ys, n, l)))) == val(
            q8k_plain(xs, ys, n),
        ),
    decreases n,
{
    let now = |l: int| q8k_chain(xs, ys, n, l);
    if n == 0 {
        lemma_lanes_fold(val, Seq::new(8, now));
    } else {
        let m = (n - 1) as nat;
        lemma_q8k::<R>(val, xs, ys, m);
        let (x, y) = (xs[n - 1], ys[n - 1]);
        lemma_pair_lanes(x.qs@, y.qs@);
        let total = dot_codes(256, x.qs@, y.qs@);
        let (dx, dy, t) = (val(x.d), val(y.d), total as real);
        let d = dx * dy;
        let i = |l: int| pair_lane(x.qs@, y.qs@, l);
        lemma_lanes_step(val, now, |l: int| q8k_chain(xs, ys, m, l), d, i, total);
        assert(d * t == t * dx * dy) by (nonlinear_arith)
            requires
                d == dx * dy,
        ;
    }
}

/// q8_K: the kernel and its plain definition are one number.
pub proof fn q8k_kernel_is_plain<R: Real>(
    val: spec_fn(R) -> real,
    xs: Seq<BlockQ8K<R>>,
    ys: Seq<BlockQ8K<R>>,
)
    requires
        exact(val),
    ensures
        val(<BlockQ8K<R> as BlockFormat<R>>::dot_of(xs, ys)) == val(
            <BlockQ8K<R> as BlockFormat<R>>::dot_scalar_of(xs, ys),
        ),
{
    lemma_q8k::<R>(val, xs, ys, shared(xs.len(), ys.len()));
}

} // verus!
