//! q8_1 - the activation side of the formats that carry a minimum.
//!
//! `y = q * d` over thirty-two values, plus a second scale `s = d * sum(q)`. A weight that
//! reconstructs as `q * d + m` needs `m * sum(activations)` to finish its dot product; the sum
//! is computed once here, where the codes are made.
use vstd::prelude::*;
use crate::arith::{
    Half, Real, lawful, radd, rhalf, rint, rmul, rto_half, rzero, int_to, narrow, plus, times,
    widen, zero,
};
use crate::blocks::{BlockFormat, GgmlDType, Quantized};
use crate::coded::{
    Codes32, Scaled, block_dot, block_product, dot_blocks, lane_dot, plain_dot, scaled_value,
    shared, vec_dot, write_scaled,
};
use crate::format::q8_0::{byte_code, byte_scale, encode_bytes};
use crate::scale::reciprocal_of;
use crate::sums::{fsum, isum};

verus! {

#[derive(Clone, Copy, Debug)]
pub struct BlockQ8_1 {
    pub d: Half,
    pub s: Half,
    pub qs: [i8; 32],
}

/// A weight block that adds a constant to every value it reconstructs.
pub trait Offset<R: Real>: Scaled<R> {
    spec fn offset_of(self) -> R;

    fn offset(&self) -> (r: R)
        requires
            lawful::<R>(),
        ensures
            r == self.offset_of(),
    ;
}

/// What value `e` of an offset block reconstructs to.
pub open spec fn offset_value<R: Real, B: Offset<R>>(b: B, e: int) -> R {
    radd(rmul(rint(b.code_of(e) as i32), b.scale_of()), b.offset_of())
}

/// Write the thirty-two values of an offset block at `at`.
pub fn write_offset<R: Real, B: Offset<R>>(b: &B, ys: &mut [R], at: usize)
    requires
        lawful::<R>(),
        at + 32 <= old(ys)@.len(),
    ensures
        final(ys)@.len() == old(ys)@.len(),
        forall|i: int|
            0 <= i < final(ys)@.len() ==> #[trigger] final(ys)@[i] == (if at <= i < at + 32 {
                offset_value(*b, i - at)
            } else {
                old(ys)@[i]
            }),
{
    let ghost start = ys@;
    let total: usize = ys.len();
    let d = b.scale();
    let m = b.offset();
    let codes = b.codes();
    for e in 0..32usize
        invariant
            lawful::<R>(),
            d == b.scale_of(),
            m == b.offset_of(),
            forall|i: int| 0 <= i < 32 ==> #[trigger] codes@[i] == b.code_of(i),
            total == ys@.len(),
            start.len() == total,
            at + 32 <= total,
            forall|i: int|
                0 <= i < total ==> #[trigger] ys@[i] == (if at <= i < at + e {
                    offset_value(*b, i - at)
                } else {
                    start[i]
                }),
    {
        ys[at + e] = plus(times(int_to(codes[e] as i32), d), m);
    }
}

/// The offsets' share of a dot product: `sum of m * s`, block by block.
pub open spec fn offset_terms<R: Real, X: Offset<R>>(
    xs: Seq<X>,
    ys: Seq<BlockQ8_1>,
    n: nat,
) -> R {
    fsum(n, |b: int| rmul(xs[b].offset_of(), rhalf::<R>(ys[b].s)))
}

/// The lane product of the codes, and the offsets' share added once at the end.
pub open spec fn offset_lane_dot<R: Real, X: Offset<R>>(
    xs: Seq<X>,
    ys: Seq<BlockQ8_1>,
    n: nat,
) -> R {
    radd(lane_dot::<R, X, BlockQ8_1>(xs, ys, n), offset_terms::<R, X>(xs, ys, n))
}

/// Block by block: the scaled product plus `m * s`.
pub open spec fn offset_plain_dot<R: Real, X: Offset<R>>(
    xs: Seq<X>,
    ys: Seq<BlockQ8_1>,
    n: nat,
) -> R
    decreases n,
{
    if n == 0 {
        rzero::<R>()
    } else {
        let (x, y) = (xs[n - 1], ys[n - 1]);
        radd(
            offset_plain_dot::<R, X>(xs, ys, (n - 1) as nat),
            radd(
                rmul(rmul(rint(block_dot(x, y) as i32), x.scale_of()), rhalf::<R>(y.d)),
                rmul(x.offset_of(), rhalf::<R>(y.s)),
            ),
        )
    }
}

/// Unsigned codes with an offset against q8_1, in lanes.
pub fn vec_dot_offset<R: Real, X: Offset<R>>(xs: &[X], ys: &[BlockQ8_1]) -> (r: R)
    requires
        lawful::<R>(),
    ensures
        r == offset_lane_dot::<R, X>(xs@, ys@, shared(xs@.len(), ys@.len())),
{
    let codes = vec_dot::<R, X, BlockQ8_1>(xs, ys);
    let n: usize = if xs.len() <= ys.len() { xs.len() } else { ys.len() };
    let ghost f = |b: int| rmul(xs@[b].offset_of(), rhalf::<R>(ys@[b].s));
    let mut from_min = zero::<R>();
    for b in 0..n
        invariant
            lawful::<R>(),
            n == shared(xs@.len(), ys@.len()),
            f == (|b: int| rmul(xs@[b].offset_of(), rhalf::<R>(ys@[b].s))),
            from_min == fsum(b as nat, f),
    {
        from_min = plus(from_min, times(xs[b].offset(), widen(ys[b].s)));
        assert(f(b as int) == rmul(xs@[b as int].offset_of(), rhalf::<R>(ys@[b as int].s)));
    }
    plus(codes, from_min)
}

/// Unsigned codes with an offset against q8_1, block by block.
pub fn dot_offset<R: Real, X: Offset<R>>(xs: &[X], ys: &[BlockQ8_1]) -> (r: R)
    requires
        lawful::<R>(),
    ensures
        r == offset_plain_dot::<R, X>(xs@, ys@, shared(xs@.len(), ys@.len())),
{
    let n: usize = if xs.len() <= ys.len() { xs.len() } else { ys.len() };
    let mut acc = zero::<R>();
    for b in 0..n
        invariant
            lawful::<R>(),
            n == shared(xs@.len(), ys@.len()),
            acc == offset_plain_dot::<R, X>(xs@, ys@, b as nat),
    {
        let dot = block_product(&xs[b], &ys[b]);
        let scaled = times(times(int_to(dot), xs[b].scale()), widen(ys[b].d));
        acc = plus(acc, plus(scaled, times(xs[b].offset(), widen(ys[b].s))));
    }
    acc
}

/// The sum of the thirty-two codes.
pub open spec fn code_sum(qs: Seq<i8>) -> int {
    isum(32, |e: int| qs[e] as int)
}

/// The sum of the thirty-two codes.
fn sum_codes(qs: &[i8; 32]) -> (r: i32)
    ensures
        r == code_sum(qs@),
{
    let ghost f = |e: int| qs@[e] as int;
    let mut sum: i32 = 0;
    for e in 0..32usize
        invariant
            f == (|e: int| qs@[e] as int),
            sum == isum(e as nat, f),
            -128 * e <= sum <= 128 * e,
    {
        sum = sum + qs[e] as i32;
        assert(f(e as int) == qs@[e as int] as int);
    }
    sum
}

impl Codes32 for BlockQ8_1 {
    open spec fn code_of(self, e: int) -> int {
        self.qs@[e] as int
    }

    fn codes(&self) -> [i8; 32] {
        self.qs
    }
}

impl<R: Real> Scaled<R> for BlockQ8_1 {
    open spec fn scale_of(self) -> R {
        rhalf(self.d)
    }

    fn scale(&self) -> R {
        widen(self.d)
    }
}

impl<R: Real> Quantized<R> for BlockQ8_1 {
    open spec fn width() -> nat {
        32
    }

    open spec fn value(self, e: int) -> R {
        scaled_value::<R, BlockQ8_1>(self, e)
    }

    open spec fn encodes(x: Seq<R>, b: Self) -> bool {
        &&& b.d == rto_half(byte_scale(x))
        &&& b.s == rto_half(rmul(rint(code_sum(b.qs@) as i32), byte_scale(x)))
        &&& forall|e: int|
            0 <= e < 32 ==> #[trigger] b.qs@[e] == byte_code(x[e], reciprocal_of(byte_scale(x)))
    }

    open spec fn is_zero(self) -> bool {
        &&& self.d.bits == 0
        &&& self.s.bits == 0
        &&& forall|e: int| 0 <= e < 32 ==> #[trigger] self.qs@[e] == 0
    }

    fn block_len() -> usize {
        32
    }

    fn zeros() -> Self {
        BlockQ8_1 { d: Half::zero(), s: Half::zero(), qs: [0; 32] }
    }

    fn decode_into(&self, ys: &mut [R], at: usize) {
        write_scaled(self, ys, at)
    }

    fn encode_block(x: &[R]) -> Self {
        let (d, qs) = encode_bytes(x);
        let sum = sum_codes(&qs);
        BlockQ8_1 { d: narrow(d), s: narrow(times(int_to(sum), d)), qs }
    }
}

impl<R: Real> BlockFormat<R> for BlockQ8_1 {
    type ActivationBlock = BlockQ8_1;

    open spec fn dtype_of() -> GgmlDType {
        GgmlDType::Q8_1
    }

    open spec fn dot_of(xs: Seq<Self>, ys: Seq<BlockQ8_1>) -> R {
        lane_dot::<R, BlockQ8_1, BlockQ8_1>(xs, ys, shared(xs.len(), ys.len()))
    }

    open spec fn dot_scalar_of(xs: Seq<Self>, ys: Seq<BlockQ8_1>) -> R {
        plain_dot::<R, BlockQ8_1, BlockQ8_1>(xs, ys, shared(xs.len(), ys.len()))
    }

    fn dtype() -> GgmlDType {
        GgmlDType::Q8_1
    }

    fn dot(xs: &[Self], ys: &[BlockQ8_1]) -> R {
        vec_dot_q8_1_q8_1(xs, ys)
    }

    fn dot_scalar(xs: &[Self], ys: &[BlockQ8_1]) -> R {
        dot_blocks(xs, ys)
    }
}

/// Eight-bit codes on both sides; the second scale is the weight side to spend, and unused here.
pub fn vec_dot_q8_1_q8_1<R: Real>(xs: &[BlockQ8_1], ys: &[BlockQ8_1]) -> (r: R)
    requires
        lawful::<R>(),
    ensures
        r == lane_dot::<R, BlockQ8_1, BlockQ8_1>(xs@, ys@, shared(xs@.len(), ys@.len())),
{
    vec_dot(xs, ys)
}

/// Values have one block of this format.
pub proof fn q8_1_encodes_once<R: Real>(x: Seq<R>, a: BlockQ8_1, b: BlockQ8_1)
    requires
        <BlockQ8_1 as Quantized<R>>::encodes(x, a),
        <BlockQ8_1 as Quantized<R>>::encodes(x, b),
    ensures
        a == b,
{
    let inv = reciprocal_of(byte_scale(x));
    assert forall|e: int| 0 <= e < 32 implies a.qs@[e] == b.qs@[e] by {
        assert(a.qs@[e] == byte_code(x[e], inv));
        assert(b.qs@[e] == byte_code(x[e], inv));
    }
    assert(a.qs =~= b.qs);
}

} // verus!
