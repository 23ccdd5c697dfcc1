//! The formats of 256 codes with a minimum beside each scale.
use vstd::prelude::*;
use crate::arith::{Real, radd, rfma, rint, rmul};
use crate::blocks::BlockFormat;
use crate::coded::shared;
use crate::exact::numbers::{
    exact, lemma_fsum_val, lemma_lanes_fold, lemma_rsum_eq, lemma_rsum_int,
};
use crate::exact::superblock::{
    bytes256, lemma_lanes_step, lemma_product_val, lemma_scaled_sum, lemma_small,
};
use crate::format::q2_k::{BlockQ2K, narrow_min_lane, q2k_chain};
use crate::format::q4_k::{
    BlockQ4K, code_chain, code_total, min_chain, min_lane, pair_min_scale, q4k_dot, wide_sum,
};
use crate::format::q5_k::{BlockQ5K, q5k_dot};
use crate::format::q8_k::BlockQ8K;
use crate::koffset::{Minned, minned_plain, narrow_term, wide_dot, wide_term};
use crate::lanes::lanes_total;
use crate::sums::isum;
use crate::superblock::{Codes256, lane_of, scaled_dot, sub_dot};

verus! {

/// The minimums of a super-block are bytes.
pub open spec fn mins_are_bytes<R: Real, B: Minned<R>>(x: B) -> bool {
    forall|s: int| 0 <= s < 16 ==> -128 <= #[trigger] x.sub_min_of(s) <= 127
}

/// The sixteen minimums against the sixteen stored sums.
pub open spec fn min_dot<R: Real, B: Minned<R>>(x: B, y: BlockQ8K<R>) -> int {
    isum(16, |s: int| x.sub_min_of(s) * y.bsums@[s])
}

/// A minimum against one or two stored sums.
pub(crate) proof fn lemma_min_small(m: int, b: int)
    requires
        -128 <= m <= 127,
        -65536 <= b <= 65534,
    ensures
        -0x80_0000 <= m * b <= 0x80_0000,
{
    assert(-0x80_0000 <= m * b <= 0x80_0000) by (nonlinear_arith)
        requires
            -128 <= m <= 127,
            -65536 <= b <= 65534,
    ;
}

/// A block of the plain product, as a number: the scaled products less the minimums.
pub(crate) proof fn lemma_narrow_term<R: Real, B: Minned<R>>(val: spec_fn(R) -> real, x: B, y: BlockQ8K<R>)
    requires
        exact(val),
        bytes256(x),
        mins_are_bytes::<R, B>(x),
    ensures
        val(narrow_term::<R, B>(x, y)) == val(y.d) * (val(x.d_of()) * (scaled_dot(
            x,
            y.qs@,
        ) as real) - val(x.dmin_of()) * (min_dot::<R, B>(x, y) as real)),
{
    lemma_scaled_sum::<R, B>(val, x, y.qs@);
    let g = |s: int| x.sub_min_of(s) * y.bsums@[s];
    let f = |s: int| rmul(rint::<R>(x.sub_min_of(s) as i32), rint(y.bsums@[s] as i32));
    lemma_fsum_val(val, 16, f);
    lemma_rsum_int(16, g);
    let (a, c) = (|s: int| val(f(s)), |s: int| g(s) as real);
    assert forall|s: int| 0 <= s < 16 implies #[trigger] a(s) == c(s) by {
        lemma_product_val::<R>(val, x.sub_min_of(s), y.bsums@[s] as int);
    }
    lemma_rsum_eq(16, a, c);
}

// -- q2_K --

/// The codes, scales and minimums of a q2_K block are bytes.
pub(crate) proof fn lemma_q2k_bytes<R: Real>(x: BlockQ2K)
    ensures
        bytes256(x),
        mins_are_bytes::<R, BlockQ2K>(x),
{
}

/// The lanes of the minimum term are its products, and they are small.
proof fn lemma_narrow_mins<R: Real>(x: BlockQ2K, y: BlockQ8K<R>)
    ensures
        forall|l: int|
            0 <= l < 8 ==> -0x100_0000 <= #[trigger] narrow_min_lane::<R>(x, y, l) <= 0x100_0000,
        min_dot::<R, BlockQ2K>(x, y) == narrow_min_lane::<R>(x, y, 0) + narrow_min_lane::<R>(
            x,
            y,
            1,
        ) + narrow_min_lane::<R>(x, y, 2) + narrow_min_lane::<R>(x, y, 3) + narrow_min_lane::<R>(
            x,
            y,
            4,
        ) + narrow_min_lane::<R>(x, y, 5) + narrow_min_lane::<R>(x, y, 6) + narrow_min_lane::<R>(
            x,
            y,
            7,
        ),
{
    lemma_q2k_bytes::<R>(x);
    let g = |s: int| <BlockQ2K as Minned<R>>::sub_min_of(x, s) * y.bsums@[s];
    assert forall|l: int| 0 <= l < 8 implies -0x100_0000 <= #[trigger] narrow_min_lane::<R>(x, y, l)
        <= 0x100_0000 by {
        assert(narrow_min_lane::<R>(x, y, l) == g(2 * l) + g(2 * l + 1));
        lemma_min_small(<BlockQ2K as Minned<R>>::sub_min_of(x, 2 * l), y.bsums@[2 * l] as int);
        lemma_min_small(
            <BlockQ2K as Minned<R>>::sub_min_of(x, 2 * l + 1),
            y.bsums@[2 * l + 1] as int,
        );
    }
    assert(isum(16, g) == g(0) + g(1) + g(2) + g(3) + g(4) + g(5) + g(6) + g(7) + g(8) + g(9) + g(
        10,
    ) + g(11) + g(12) + g(13) + g(14) + g(15)) by {
        reveal_with_fuel(isum, 17);
    }
}

proof fn lemma_q2k<R: Real>(
    val: spec_fn(R) -> real,
    xs: Seq<BlockQ2K>,
    ys: Seq<BlockQ8K<R>>,
    n: nat,
)
    requires
        exact(val),
    ensures
        val(lanes_total(Seq::new(8, |l: int| q2k_chain::<R>(xs, ys, n, l)))) == val(
            minned_plain::<R, BlockQ2K>(xs, ys, false, n),
        ),
    decreases n,
{
    let now = |l: int| q2k_chain::<R>(xs, ys, n, l);
    if n == 0 {
        lemma_lanes_fold(val, Seq::new(8, now));
    } else {
        let m = (n - 1) as nat;
        lemma_q2k::<R>(val, xs, ys, m);
        lemma_minned_grows::<R, BlockQ2K>(xs, ys, false, n);
        let (x, y) = (xs[n - 1], ys[n - 1]);
        lemma_q2k_bytes::<R>(x);
        lemma_small(x, y.qs@);
        lemma_narrow_mins::<R>(x, y);
        lemma_narrow_term::<R, BlockQ2K>(val, x, y);
        let was = |l: int| q2k_chain::<R>(xs, ys, m, l);
        let mid = |l: int|
            rfma(
                pair_min_scale::<R, BlockQ2K>(x, y),
                rint(narrow_min_lane::<R>(x, y, l) as i32),
                was(l),
            );
        let (dy, dx, dm) = (
            val(y.d),
            val(<BlockQ2K as Minned<R>>::d_of(x)),
            val(<BlockQ2K as Minned<R>>::dmin_of(x)),
        );
        let (d, e) = (dy * dx, (-dy) * dm);
        let (i, j) = (
            |l: int| lane_of(x, y.qs@, l),
            |l: int| narrow_min_lane::<R>(x, y, l),
        );
        let (t, u) = (scaled_dot(x, y.qs@), min_dot::<R, BlockQ2K>(x, y));
        lemma_lanes_step(val, mid, was, e, j, u);
        lemma_lanes_step(val, now, mid, d, i, t);
        lemma_less(dy, dx, dm, t as real, u as real);
    }
}

/// The two terms of a block, together or one after the other.
proof fn lemma_less(dy: real, dx: real, dm: real, t: real, u: real)
    ensures
        ((-dy) * dm) * u + (dy * dx) * t == dy * (dx * t - dm * u),
{
    let (p, q) = (dx * t, dm * u);
    assert(dy * (p - q) == dy * p - dy * q) by (nonlinear_arith);
    assert((dy * dx) * t == dy * (dx * t)) by (nonlinear_arith);
    assert(((-dy) * dm) * u == -(dy * (dm * u))) by (nonlinear_arith);
}

/// The plain product of one block more.
pub(crate) proof fn lemma_minned_grows<R: Real, B: Minned<R>>(
    xs: Seq<B>,
    ys: Seq<BlockQ8K<R>>,
    wide: bool,
    n: nat,
)
    requires
        n > 0,
    ensures
        minned_plain::<R, B>(xs, ys, wide, n) == radd(
            minned_plain::<R, B>(xs, ys, wide, (n - 1) as nat),
            if wide {
                wide_term::<R, B>(xs[n - 1], ys[n - 1])
            } else {
                narrow_term::<R, B>(xs[n - 1], ys[n - 1])
            },
        ),
{
}

/// q2_K: the kernel and its plain definition are one number.
pub proof fn q2k_kernel_is_plain<R: Real>(
    val: spec_fn(R) -> real,
    xs: Seq<BlockQ2K>,
    ys: Seq<BlockQ8K<R>>,
)
    requires
        exact(val),
    ensures
        val(<BlockQ2K as BlockFormat<R>>::dot_of(xs, ys)) == val(
            <BlockQ2K as BlockFormat<R>>::dot_scalar_of(xs, ys),
        ),
{
    lemma_q2k::<R>(val, xs, ys, shared(xs.len(), ys.len()));
}

// -- q4_K and q5_K --

/// Neighbouring sixteens share a scale and a minimum.
pub open spec fn twins<R: Real, B: Minned<R>>(x: B) -> bool {
    forall|s: int|
        0 <= s < 8 ==> x.sub_scale_of(2 * s) == x.sub_scale_of(2 * s + 1) && #[trigger] x.sub_min_of(
            2 * s,
        ) == x.sub_min_of(2 * s + 1)
}

/// What the laws of these two formats ask of a block.
pub open spec fn paired<R: Real, B: Minned<R>>(x: B) -> bool {
    bytes256(x) && mins_are_bytes::<R, B>(x) && twins::<R, B>(x)
}

/// The eight minimums against the sums of thirty-two.
pub open spec fn wide_min_dot<R: Real, B: Minned<R>>(x: B, y: BlockQ8K<R>) -> int {
    isum(8, |s: int| x.sub_min_of(2 * s) * (y.bsums@[2 * s] + y.bsums@[2 * s + 1]))
}

/// A block of the plain product, as a number.
pub(crate) proof fn lemma_wide_term<R: Real, B: Minned<R>>(val: spec_fn(R) -> real, x: B, y: BlockQ8K<R>)
    requires
        exact(val),
        paired::<R, B>(x),
    ensures
        val(wide_term::<R, B>(x, y)) == val(y.d) * (val(x.d_of()) * (scaled_dot(
            x,
            y.qs@,
        ) as real) - val(x.dmin_of()) * (wide_min_dot::<R, B>(x, y) as real)),
{
    lemma_small(x, y.qs@);
    let p = |s: int| x.sub_scale_of(2 * s) * wide_dot(x, y.qs@, s);
    let f = |s: int|
        rmul(rint::<R>(x.sub_scale_of(2 * s) as i32), rint(wide_dot(x, y.qs@, s) as i32));
    lemma_fsum_val(val, 8, f);
    lemma_rsum_int(8, p);
    let (a, c) = (|s: int| val(f(s)), |s: int| p(s) as real);
    assert forall|s: int| 0 <= s < 8 implies #[trigger] a(s) == c(s) by {
        assert(-0x4_0000 <= sub_dot(x, y.qs@, 2 * s) <= 0x4_0000);
        assert(-0x4_0000 <= sub_dot(x, y.qs@, 2 * s + 1) <= 0x4_0000);
        lemma_product_val::<R>(val, x.sub_scale_of(2 * s), wide_dot(x, y.qs@, s));
    }
    lemma_rsum_eq(8, a, c);
    let q = |s: int| x.sub_scale_of(s) * sub_dot(x, y.qs@, s);
    assert forall|s: int| 0 <= s < 8 implies #[trigger] p(s) == q(2 * s) + q(2 * s + 1) by {
        assert(x.sub_min_of(2 * s) == x.sub_min_of(2 * s + 1));
        let (k, u, v) = (
            x.sub_scale_of(2 * s),
            sub_dot(x, y.qs@, 2 * s),
            sub_dot(x, y.qs@, 2 * s + 1),
        );
        assert(k * (u + v) == k * u + k * v) by (nonlinear_arith);
    }
    assert(isum(8, p) == isum(16, q)) by {
        assert(isum(8, p) == p(0) + p(1) + p(2) + p(3) + p(4) + p(5) + p(6) + p(7)) by {
            reveal_with_fuel(isum, 9);
        }
        assert(isum(16, q) == q(0) + q(1) + q(2) + q(3) + q(4) + q(5) + q(6) + q(7) + q(8) + q(9)
            + q(10) + q(11) + q(12) + q(13) + q(14) + q(15)) by {
            reveal_with_fuel(isum, 17);
        }
    }
    let g = |s: int| x.sub_min_of(2 * s) * (y.bsums@[2 * s] + y.bsums@[2 * s + 1]);
    let h = |s: int|
        rmul(
            rint::<R>(x.sub_min_of(2 * s) as i32),
            rint((y.bsums@[2 * s] + y.bsums@[2 * s + 1]) as i32),
        );
    lemma_fsum_val(val, 8, h);
    lemma_rsum_int(8, g);
    let (b, k) = (|s: int| val(h(s)), |s: int| g(s) as real);
    assert forall|s: int| 0 <= s < 8 implies #[trigger] b(s) == k(s) by {
        lemma_product_val::<R>(
            val,
            x.sub_min_of(2 * s),
            y.bsums@[2 * s] + y.bsums@[2 * s + 1],
        );
    }
    lemma_rsum_eq(8, b, k);
}

/// The four lanes of the minimum term are its products, and they are small.
proof fn lemma_wide_mins<R: Real, B: Minned<R>>(x: B, y: BlockQ8K<R>)
    requires
        paired::<R, B>(x),
    ensures
        forall|l: int|
            0 <= l < 4 ==> -0x100_0000 <= #[trigger] min_lane::<R, B>(x, y, l) <= 0x100_0000,
        wide_min_dot::<R, B>(x, y) == min_lane::<R, B>(x, y, 0) + min_lane::<R, B>(x, y, 1)
            + min_lane::<R, B>(x, y, 2) + min_lane::<R, B>(x, y, 3),
{
    let g = |s: int| x.sub_min_of(2 * s) * (y.bsums@[2 * s] + y.bsums@[2 * s + 1]);
    assert forall|l: int| 0 <= l < 4 implies #[trigger] min_lane::<R, B>(x, y, l) == g(2 * l) + g(
        2 * l + 1,
    ) && -0x100_0000 <= min_lane::<R, B>(x, y, l) <= 0x100_0000 by {
        assert(2 * (2 * l) == 4 * l && 2 * (2 * l + 1) == 4 * l + 2);
        assert(wide_sum(y.bsums@, 2 * l) == y.bsums@[4 * l] + y.bsums@[4 * l + 1]);
        assert(wide_sum(y.bsums@, 2 * l + 1) == y.bsums@[4 * l + 2] + y.bsums@[4 * l + 3]);
        lemma_min_small(x.sub_min_of(4 * l), wide_sum(y.bsums@, 2 * l));
        lemma_min_small(x.sub_min_of(4 * l + 2), wide_sum(y.bsums@, 2 * l + 1));
    }
    assert(isum(8, g) == g(0) + g(1) + g(2) + g(3) + g(4) + g(5) + g(6) + g(7)) by {
        reveal_with_fuel(isum, 9);
    }
    assert(min_lane::<R, B>(x, y, 0) == g(0) + g(1));
    assert(min_lane::<R, B>(x, y, 1) == g(2) + g(3));
    assert(min_lane::<R, B>(x, y, 2) == g(4) + g(5));
    assert(min_lane::<R, B>(x, y, 3) == g(6) + g(7));
}

/// The code lanes of one block more.
proof fn lemma_code_step<R: Real, B: Minned<R>>(
    val: spec_fn(R) -> real,
    xs: Seq<B>,
    ys: Seq<BlockQ8K<R>>,
    n: nat,
)
    requires
        exact(val),
        n > 0,
        bytes256(xs[n - 1]),
    ensures
        val(code_total::<R, B>(xs, ys, n)) == val(code_total::<R, B>(xs, ys, (n - 1) as nat)) + (
        val(ys[n - 1].d) * val(xs[n - 1].d_of())) * (scaled_dot(
            xs[n - 1],
            ys[n - 1].qs@,
        ) as real),
{
    let m = (n - 1) as nat;
    let (x, y) = (xs[n - 1], ys[n - 1]);
    lemma_small(x, y.qs@);
    lemma_lanes_step(
        val,
        |l: int| code_chain::<R, B>(xs, ys, n, l),
        |l: int| code_chain::<R, B>(xs, ys, m, l),
        val(y.d) * val(x.d_of()),
        |l: int| lane_of(x, y.qs@, l),
        scaled_dot(x, y.qs@),
    );
}

proof fn lemma_q4k<R: Real>(
    val: spec_fn(R) -> real,
    xs: Seq<BlockQ4K>,
    ys: Seq<BlockQ8K<R>>,
    n: nat,
)
    requires
        exact(val),
    ensures
        val(q4k_dot::<R>(xs, ys, n)) == val(minned_plain::<R, BlockQ4K>(xs, ys, true, n)),
    decreases n,
{
    if n == 0 {
        lemma_lanes_fold(val, Seq::new(8, |l: int| code_chain::<R, BlockQ4K>(xs, ys, n, l)));
    } else {
        let m = (n - 1) as nat;
        lemma_q4k::<R>(val, xs, ys, m);
        lemma_minned_grows::<R, BlockQ4K>(xs, ys, true, n);
        let (x, y) = (xs[n - 1], ys[n - 1]);
        lemma_q4k_paired::<R>(x);
        lemma_code_step::<R, BlockQ4K>(val, xs, ys, n);
        lemma_wide_term::<R, BlockQ4K>(val, x, y);
        lemma_wide_mins::<R, BlockQ4K>(x, y);
        let (dy, dx, dm) = (
            val(y.d),
            val(<BlockQ4K as Minned<R>>::d_of(x)),
            val(<BlockQ4K as Minned<R>>::dmin_of(x)),
        );
        let e = (-dy) * dm;
        let j = |l: int| min_lane::<R, BlockQ4K>(x, y, l);
        let now = |l: int| min_chain::<R, BlockQ4K>(xs, ys, n, l);
        let was = |l: int| min_chain::<R, BlockQ4K>(xs, ys, m, l);
        assert(forall|l: int| 0 <= l < 4 ==> val(#[trigger] now(l)) == e * (j(l) as real) + val(
            was(l),
        ));
        let (t, u) = (scaled_dot(x, y.qs@), wide_min_dot::<R, BlockQ4K>(x, y));
        let (a, b, c, f) = (j(0), j(1), j(2), j(3));
        assert(val(now(0)) + val(now(2)) + (val(now(1)) + val(now(3))) == val(was(0)) + val(was(2))
            + (val(was(1)) + val(was(3))) + e * (u as real)) by {
            lemma_four(e, a, b, c, f);
            assert(val(now(0)) == e * (j(0) as real) + val(was(0)));
            assert(val(now(1)) == e * (j(1) as real) + val(was(1)));
            assert(val(now(2)) == e * (j(2) as real) + val(was(2)));
            assert(val(now(3)) == e * (j(3) as real) + val(was(3)));
        }
        lemma_less(dy, dx, dm, t as real, u as real);
    }
}

/// Four integers under one factor.
proof fn lemma_four(d: real, a: int, b: int, c: int, e: int)
    ensures
        d * (a as real) + d * (b as real) + d * (c as real) + d * (e as real) == d * ((a + b + c
            + e) as real),
{
    let (p, q, r, s) = (a as real, b as real, c as real, e as real);
    assert((a + b + c + e) as real == p + q + r + s);
    assert(d * p + d * q + d * r + d * s == d * (p + q + r + s)) by (nonlinear_arith);
}

/// The codes, scales and minimums of a q4_K block are bytes, and go by pairs.
pub(crate) proof fn lemma_q4k_paired<R: Real>(x: BlockQ4K)
    ensures
        paired::<R, BlockQ4K>(x),
{
    assert forall|s: int| 0 <= s < 8 implies x.sub_scale_of(2 * s) == x.sub_scale_of(2 * s + 1)
        && #[trigger] <BlockQ4K as Minned<R>>::sub_min_of(x, 2 * s)
        == <BlockQ4K as Minned<R>>::sub_min_of(x, 2 * s + 1) by {
        assert((2 * s) / 2 == s && (2 * s + 1) / 2 == s);
    }
}

/// q4_K: the kernel and its plain definition are one number.
pub proof fn q4k_kernel_is_plain<R: Real>(
    val: spec_fn(R) -> real,
    xs: Seq<BlockQ4K>,
    ys: Seq<BlockQ8K<R>>,
)
    requires
        exact(val),
    ensures
        val(<BlockQ4K as BlockFormat<R>>::dot_of(xs, ys)) == val(
            <BlockQ4K as BlockFormat<R>>::dot_scalar_of(xs, ys),
        ),
{
    lemma_q4k::<R>(val, xs, ys, shared(xs.len(), ys.len()));
}

/// The codes, scales and minimums of a q5_K block are bytes, and go by pairs.
pub(crate) proof fn lemma_q5k_paired<R: Real>(x: BlockQ5K)
    ensures
        paired::<R, BlockQ5K>(x),
{
    assert forall|s: int| 0 <= s < 8 implies x.sub_scale_of(2 * s) == x.sub_scale_of(2 * s + 1)
        && #[trigger] <BlockQ5K as Minned<R>>::sub_min_of(x, 2 * s)
        == <BlockQ5K as Minned<R>>::sub_min_of(x, 2 * s + 1) by {
        assert((2 * s) / 2 == s && (2 * s + 1) / 2 == s);
    }
}

proof fn lemma_q5k<R: Real>(
    val: spec_fn(R) -> real,
    xs: Seq<BlockQ5K>,
    ys: Seq<BlockQ8K<R>>,
    n: nat,
)
    requires
        exact(val),
    ensures
        val(q5k_dot::<R>(xs, ys, n)) == val(minned_plain::<R, BlockQ5K>(xs, ys, true, n)),
    decreases n,
{
    if n == 0 {
        lemma_lanes_fold(val, Seq::new(8, |l: int| code_chain::<R, BlockQ5K>(xs, ys, n, l)));
    } else {
        let m = (n - 1) as nat;
        lemma_q5k::<R>(val, xs, ys, m);
        lemma_minned_grows::<R, BlockQ5K>(xs, ys, true, n);
        let (x, y) = (xs[n - 1], ys[n - 1]);
        lemma_q5k_paired::<R>(x);
        lemma_code_step::<R, BlockQ5K>(val, xs, ys, n);
        lemma_wide_term::<R, BlockQ5K>(val, x, y);
        lemma_wide_mins::<R, BlockQ5K>(x, y);
        let (dy, dx, dm) = (
            val(y.d),
            val(<BlockQ5K as Minned<R>>::d_of(x)),
            val(<BlockQ5K as Minned<R>>::dmin_of(x)),
        );
        let (t, u) = (scaled_dot(x, y.qs@), wide_min_dot::<R, BlockQ5K>(x, y));
        assert(-0x100_0000 <= min_lane::<R, BlockQ5K>(x, y, 0) <= 0x100_0000);
        assert(-0x100_0000 <= min_lane::<R, BlockQ5K>(x, y, 1) <= 0x100_0000);
        assert(-0x100_0000 <= min_lane::<R, BlockQ5K>(x, y, 2) <= 0x100_0000);
        assert(-0x100_0000 <= min_lane::<R, BlockQ5K>(x, y, 3) <= 0x100_0000);
        lemma_less(dy, dx, dm, t as real, u as real);
    }
}

/// q5_K: the kernel and its plain definition are one number.
pub proof fn q5k_kernel_is_plain<R: Real>(
    val: spec_fn(R) -> real,
    xs: Seq<BlockQ5K>,
    ys: Seq<BlockQ8K<R>>,
)
    requires
        exact(val),
    ensures
        val(<BlockQ5K as BlockFormat<R>>::dot_of(xs, ys)) == val(
            <BlockQ5K as BlockFormat<R>>::dot_scalar_of(xs, ys),
        ),
{
    lemma_q5k::<R>(val, xs, ys, shared(xs.len(), ys.len()));
}

} // verus!
