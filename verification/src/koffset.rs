//! What the super-block formats with a minimum share: q2_K, q4_K and q5_K.
//!
//! `y = d * sc[s] * q - dmin * m[s]`. The minimum is constant over a sub-block, so in a dot
//! product it multiplies the sum of the sub-block's activations, which q8_K already stores.
use vstd::prelude::*;
use crate::arith::{
    Real, lawful, radd, rdiv, req, rint, rmul, rround, rsub, rzero, eq, int_to, minus, nearest_int,
    over, plus, times, zero,
};
use crate::coded::shared;
use crate::format::q8_k::BlockQ8K;
use crate::scale::{clamp, clamped};
use crate::sums::fsum;
use crate::superblock::{Codes256, sub_dot, sub_dots};

verus! {

/// A super-block with a minimum for each sixteen values.
pub trait Minned<R: Real>: Codes256 {
    spec fn d_of(self) -> R;

    spec fn dmin_of(self) -> R;

    /// The minimum's factor for values `16 * s .. 16 * s + 16`.
    spec fn sub_min_of(self, s: int) -> int;

    fn d(&self) -> (r: R)
        requires
            lawful::<R>(),
        ensures
            r == self.d_of(),
    ;

    fn dmin(&self) -> (r: R)
        requires
            lawful::<R>(),
        ensures
            r == self.dmin_of(),
    ;

    fn sub_mins(&self) -> (r: [i8; 16])
        ensures
            forall|s: int| 0 <= s < 16 ==> #[trigger] r@[s] == self.sub_min_of(s),
    ;
}

/// The step of value `e`.
pub open spec fn step_of<R: Real, B: Minned<R>>(b: B, e: int) -> R {
    rmul(b.d_of(), rint(b.sub_scale_of(e / 16) as i32))
}

/// What is taken off value `e`.
pub open spec fn drop_of<R: Real, B: Minned<R>>(b: B, e: int) -> R {
    rmul(b.dmin_of(), rint(b.sub_min_of(e / 16) as i32))
}

/// What value `e` reconstructs to.
pub open spec fn minned_value<R: Real, B: Minned<R>>(b: B, e: int) -> R {
    rsub(rmul(step_of::<R, B>(b, e), rint(b.code_of(e) as i32)), drop_of::<R, B>(b, e))
}

/// Write the 256 values of a block at `at`.
pub fn write_minned<R: Real, B: Minned<R>>(b: &B, ys: &mut [R], at: usize)
    requires
        lawful::<R>(),
        at + 256 <= old(ys)@.len(),
    ensures
        final(ys)@.len() == old(ys)@.len(),
        forall|i: int|
            0 <= i < final(ys)@.len() ==> #[trigger] final(ys)@[i] == (if at <= i < at + 256 {
                minned_value::<R, B>(*b, i - at)
            } else {
                old(ys)@[i]
            }),
{
    let ghost start = ys@;
    let total: usize = ys.len();
    let d = b.d();
    let dmin = b.dmin();
    let codes = b.codes();
    let scales = b.sub_scales();
    let mins = b.sub_mins();
    for e in 0..256usize
        invariant
            lawful::<R>(),
            d == b.d_of(),
            dmin == b.dmin_of(),
            forall|i: int| 0 <= i < 256 ==> #[trigger] codes@[i] == b.code_of(i),
            forall|s: int| 0 <= s < 16 ==> #[trigger] scales@[s] == b.sub_scale_of(s),
            forall|s: int| 0 <= s < 16 ==> #[trigger] mins@[s] == b.sub_min_of(s),
            total == ys@.len(),
            start.len() == total,
            at + 256 <= total,
            forall|i: int|
                0 <= i < total ==> #[trigger] ys@[i] == (if at <= i < at + e {
                    minned_value::<R, B>(*b, i - at)
                } else {
                    start[i]
                }),
    {
        let step = times(d, int_to(scales[e / 16] as i32));
        let drop = times(dmin, int_to(mins[e / 16] as i32));
        ys[at + e] = minus(times(step, int_to(codes[e] as i32)), drop);
    }
}

/// The code of one value under a step and a drop; zero where the step is.
pub open spec fn minned_code<R: Real>(v: R, step: R, drop: R, top: int) -> int {
    if req(step, rzero::<R>()) {
        0
    } else {
        clamped(rround(rdiv(radd(v, drop), step)) as int, 0, top)
    }
}

/// The codes of 256 values, taken against the scales as they were rounded into the block: the
/// numbers the decoder will read.
pub fn encode_minned<R: Real>(
    x: &[R],
    d: R,
    dmin: R,
    scales: &[i8; 16],
    mins: &[i8; 16],
    top: i32,
) -> (r: [u8; 256])
    requires
        lawful::<R>(),
        x@.len() == 256,
        0 <= top <= 255,
    ensures
        forall|e: int|
            0 <= e < 256 ==> #[trigger] r@[e] == minned_code(
                x@[e],
                rmul(d, rint(scales@[e / 16] as i32)),
                rmul(dmin, rint(mins@[e / 16] as i32)),
                top as int,
            ),
        forall|e: int| 0 <= e < 256 ==> #[trigger] r@[e] <= top,
{
    let mut r = [0u8; 256];
    for e in 0..256usize
        invariant
            lawful::<R>(),
            x@.len() == 256,
            0 <= top <= 255,
            forall|i: int|
                0 <= i < e ==> #[trigger] r@[i] == minned_code(
                    x@[i],
                    rmul(d, rint(scales@[i / 16] as i32)),
                    rmul(dmin, rint(mins@[i / 16] as i32)),
                    top as int,
                ),
            forall|i: int| 0 <= i < e ==> #[trigger] r@[i] <= top,
    {
        let step = times(d, int_to(scales[e / 16] as i32));
        let drop = times(dmin, int_to(mins[e / 16] as i32));
        r[e] = if eq(step, zero::<R>()) {
            0
        } else {
            clamp(nearest_int(over(plus(x[e], drop), step)), 0, top) as u8
        };
    }
    r
}

/// The integer product of sub-block `s` of thirty-two values.
pub open spec fn wide_dot<B: Codes256>(b: B, y: Seq<i8>, s: int) -> int {
    sub_dot(b, y, 2 * s) + sub_dot(b, y, 2 * s + 1)
}

/// One block of the plain product, sub-blocks of sixteen.
pub open spec fn narrow_term<R: Real, B: Minned<R>>(x: B, y: BlockQ8K<R>) -> R {
    let scaled = fsum(
        16,
        |s: int| rmul(rint::<R>(x.sub_scale_of(s) as i32), rint(sub_dot(x, y.qs@, s) as i32)),
    );
    let offset = fsum(
        16,
        |s: int| rmul(rint::<R>(x.sub_min_of(s) as i32), rint(y.bsums@[s] as i32)),
    );
    rmul(y.d, rsub(rmul(x.d_of(), scaled), rmul(x.dmin_of(), offset)))
}

/// One block of the plain product, sub-blocks of thirty-two.
pub open spec fn wide_term<R: Real, B: Minned<R>>(x: B, y: BlockQ8K<R>) -> R {
    let scaled = fsum(
        8,
        |s: int| rmul(rint::<R>(x.sub_scale_of(2 * s) as i32), rint(wide_dot(x, y.qs@, s) as i32)),
    );
    let offset = fsum(
        8,
        |s: int|
            rmul(
                rint::<R>(x.sub_min_of(2 * s) as i32),
                rint((y.bsums@[2 * s] + y.bsums@[2 * s + 1]) as i32),
            ),
    );
    rmul(y.d, rsub(rmul(x.d_of(), scaled), rmul(x.dmin_of(), offset)))
}

/// The plain product of two runs of blocks.
pub open spec fn minned_plain<R: Real, B: Minned<R>>(
    xs: Seq<B>,
    ys: Seq<BlockQ8K<R>>,
    wide: bool,
    n: nat,
) -> R {
    fsum(
        n,
        |b: int|
            if wide {
                wide_term::<R, B>(xs[b], ys[b])
            } else {
                narrow_term::<R, B>(xs[b], ys[b])
            },
    )
}

fn narrow_block<R: Real, B: Minned<R>>(x: &B, y: &BlockQ8K<R>) -> (r: R)
    requires
        lawful::<R>(),
    ensures
        r == narrow_term::<R, B>(*x, *y),
{
    let dots = sub_dots(x, &y.qs);
    let scales = x.sub_scales();
    let mins = x.sub_mins();
    let ghost f = |s: int|
        rmul(rint::<R>(x.sub_scale_of(s) as i32), rint(sub_dot(*x, y.qs@, s) as i32));
    let ghost g = |s: int| rmul(rint::<R>(x.sub_min_of(s) as i32), rint(y.bsums@[s] as i32));
    let mut scaled = zero::<R>();
    let mut offset = zero::<R>();
    for s in 0..16usize
        invariant
            lawful::<R>(),
            forall|k: int| 0 <= k < 16 ==> #[trigger] dots@[k] == sub_dot(*x, y.qs@, k),
            forall|k: int| 0 <= k < 16 ==> #[trigger] scales@[k] == x.sub_scale_of(k),
            forall|k: int| 0 <= k < 16 ==> #[trigger] mins@[k] == x.sub_min_of(k),
            f == (|s: int|
                rmul(rint::<R>(x.sub_scale_of(s) as i32), rint(sub_dot(*x, y.qs@, s) as i32))),
            g == (|s: int| rmul(rint::<R>(x.sub_min_of(s) as i32), rint(y.bsums@[s] as i32))),
            scaled == fsum(s as nat, f),
            offset == fsum(s as nat, g),
    {
        scaled = plus(scaled, times(int_to(scales[s] as i32), int_to(dots[s])));
        offset = plus(offset, times(int_to(mins[s] as i32), int_to(y.bsums[s] as i32)));
        assert(f(s as int) == rmul(rint::<R>(scales@[s as int] as i32), rint(dots@[s as int])));
        assert(g(s as int) == rmul(
            rint::<R>(mins@[s as int] as i32),
            rint(y.bsums@[s as int] as i32),
        ));
    }
    times(y.d, minus(times(x.d(), scaled), times(x.dmin(), offset)))
}

fn wide_block<R: Real, B: Minned<R>>(x: &B, y: &BlockQ8K<R>) -> (r: R)
    requires
        lawful::<R>(),
    ensures
        r == wide_term::<R, B>(*x, *y),
{
    let dots = sub_dots(x, &y.qs);
    let scales = x.sub_scales();
    let mins = x.sub_mins();
    let ghost f = |s: int|
        rmul(rint::<R>(x.sub_scale_of(2 * s) as i32), rint(wide_dot(*x, y.qs@, s) as i32));
    let ghost g = |s: int|
        rmul(
            rint::<R>(x.sub_min_of(2 * s) as i32),
            rint((y.bsums@[2 * s] + y.bsums@[2 * s + 1]) as i32),
        );
    let mut scaled = zero::<R>();
    let mut offset = zero::<R>();
    for s in 0..8usize
        invariant
            lawful::<R>(),
            forall|k: int| 0 <= k < 16 ==> #[trigger] dots@[k] == sub_dot(*x, y.qs@, k),
            forall|k: int| 0 <= k < 16 ==> -0x4_0000 <= #[trigger] dots@[k] <= 0x4_0000,
            forall|k: int| 0 <= k < 16 ==> #[trigger] scales@[k] == x.sub_scale_of(k),
            forall|k: int| 0 <= k < 16 ==> #[trigger] mins@[k] == x.sub_min_of(k),
            f == (|s: int|
                rmul(rint::<R>(x.sub_scale_of(2 * s) as i32), rint(wide_dot(*x, y.qs@, s) as i32))),
            g == (|s: int|
                rmul(
                    rint::<R>(x.sub_min_of(2 * s) as i32),
                    rint((y.bsums@[2 * s] + y.bsums@[2 * s + 1]) as i32),
                )),
            scaled == fsum(s as nat, f),
            offset == fsum(s as nat, g),
    {
        let dot: i32 = dots[2 * s] + dots[2 * s + 1];
        let sum: i32 = y.bsums[2 * s] as i32 + y.bsums[2 * s + 1] as i32;
        scaled = plus(scaled, times(int_to(scales[2 * s] as i32), int_to(dot)));
        offset = plus(offset, times(int_to(mins[2 * s] as i32), int_to(sum)));
        assert(f(s as int) == rmul(rint::<R>(scales@[2 * s] as i32), rint(dot)));
        assert(g(s as int) == rmul(rint::<R>(mins@[2 * s] as i32), rint(sum)));
    }
    times(y.d, minus(times(x.d(), scaled), times(x.dmin(), offset)))
}

/// The plain product of two runs of blocks.
pub fn dot_minned<R: Real, B: Minned<R>>(xs: &[B], ys: &[BlockQ8K<R>], wide: bool) -> (r: R)
    requires
        lawful::<R>(),
    ensures
        r == minned_plain::<R, B>(xs@, ys@, wide, shared(xs@.len(), ys@.len())),
{
    let n: usize = if xs.len() <= ys.len() { xs.len() } else { ys.len() };
    let ghost f = |b: int|
        if wide {
            wide_term::<R, B>(xs@[b], ys@[b])
        } else {
            narrow_term::<R, B>(xs@[b], ys@[b])
        };
    let mut acc = zero::<R>();
    for b in 0..n
        invariant
            lawful::<R>(),
            n == shared(xs@.len(), ys@.len()),
            f == (|b: int|
                if wide {
                    wide_term::<R, B>(xs@[b], ys@[b])
                } else {
                    narrow_term::<R, B>(xs@[b], ys@[b])
                }),
            acc == fsum(b as nat, f),
    {
        let term = if wide {
            wide_block(&xs[b], &ys[b])
        } else {
            narrow_block(&xs[b], &ys[b])
        };
        acc = plus(acc, term);
        assert(f(b as int) == term);
    }
    acc
}

} // verus!
