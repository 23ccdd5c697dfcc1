//! q4_1 - thirty-two values, a scale and a minimum, four bits each.
//!
//! `y = q * d + m`. Where q4_0 centres its codes on zero, this format carries the block's
//! minimum, so the sixteen codes span `[min, max]` however that interval sits.
use vstd::prelude::*;
use crate::arith::{
    Half, Real, lawful, rdiv, rhalf, rinf, rint, rmul, rneg, rround, rsub, rto_half, inf, int_to,
    minus, narrow, nearest_int, neg, over, times, widen,
};
use crate::blocks::{BlockFormat, GgmlDType, Quantized};
use crate::coded::{Codes32, Scaled, shared};
use crate::format::q4_0::{join_nibbles, nibble_of, split_nibbles};
use crate::format::q8_1::{
    BlockQ8_1, Offset, dot_offset, offset_lane_dot, offset_plain_dot, offset_value,
    vec_dot_offset, write_offset,
};
use crate::scale::{
    clamp, clamped, largest, max_of, min_of, reciprocal, reciprocal_of, smallest,
};

verus! {

#[derive(Clone, Copy, Debug)]
pub struct BlockQ4_1 {
    pub d: Half,
    pub m: Half,
    pub qs: [u8; 16],
}

/// The largest of a block's values.
pub open spec fn block_max<R: Real>(x: Seq<R>) -> R {
    max_of(rneg(rinf::<R>()), x, 32)
}

/// The step that divides `[min, max]` into `top` parts.
pub open spec fn span_scale<R: Real>(x: Seq<R>, top: i32) -> R {
    rdiv(rsub(block_max(x), min_of(x, 32)), rint::<R>(top))
}

/// The code of one value: its distance from the minimum in steps.
pub open spec fn span_code<R: Real>(v: R, min: R, inv: R, top: int) -> int {
    clamped(rround(rmul(rsub(v, min), inv)) as int, 0, top)
}

/// The codes of a block of values, its step and its minimum.
pub fn encode_span<R: Real>(x: &[R], top: i32) -> (r: (R, R, [u8; 32]))
    requires
        lawful::<R>(),
        x@.len() == 32,
        0 <= top <= 255,
    ensures
        r.0 == span_scale(x@, top),
        r.1 == min_of(x@, 32),
        forall|e: int|
            0 <= e < 32 ==> #[trigger] r.2@[e] == span_code(
                x@[e],
                min_of(x@, 32),
                reciprocal_of(span_scale(x@, top)),
                top as int,
            ),
        forall|e: int| 0 <= e < 32 ==> #[trigger] r.2@[e] <= top,
{
    let min = smallest(x);
    let max = largest(neg(inf::<R>()), x);
    let d = over(minus(max, min), int_to::<R>(top));
    let inv = reciprocal(d);
    let mut codes = [0u8; 32];
    for e in 0..32usize
        invariant
            lawful::<R>(),
            x@.len() == 32,
            0 <= top <= 255,
            forall|i: int|
                0 <= i < e ==> #[trigger] codes@[i] == span_code(x@[i], min, inv, top as int),
            forall|i: int| 0 <= i < e ==> #[trigger] codes@[i] <= top,
    {
        codes[e] = clamp(nearest_int(times(minus(x[e], min), inv)), 0, top) as u8;
    }
    (d, min, codes)
}

impl Codes32 for BlockQ4_1 {
    open spec fn code_of(self, e: int) -> int {
        nibble_of(self.qs@, e)
    }

    fn codes(&self) -> (r: [i8; 32]) {
        let raw = split_nibbles(&self.qs);
        let mut r = [0i8; 32];
        for e in 0..32usize
            invariant
                forall|i: int| 0 <= i < 32 ==> #[trigger] raw@[i] == nibble_of(self.qs@, i),
                forall|i: int| 0 <= i < 32 ==> #[trigger] raw@[i] < 16,
                forall|i: int| 0 <= i < e ==> #[trigger] r@[i] == self.code_of(i),
        {
            r[e] = raw[e] as i8;
        }
        r
    }
}

impl<R: Real> Scaled<R> for BlockQ4_1 {
    open spec fn scale_of(self) -> R {
        rhalf(self.d)
    }

    fn scale(&self) -> R {
        widen(self.d)
    }
}

impl<R: Real> Offset<R> for BlockQ4_1 {
    open spec fn offset_of(self) -> R {
        rhalf(self.m)
    }

    fn offset(&self) -> R {
        widen(self.m)
    }
}

impl<R: Real> Quantized<R> for BlockQ4_1 {
    open spec fn width() -> nat {
        32
    }

    open spec fn value(self, e: int) -> R {
        offset_value::<R, BlockQ4_1>(self, e)
    }

    open spec fn encodes(x: Seq<R>, b: Self) -> bool {
        let inv = reciprocal_of(span_scale(x, 15));
        &&& b.d == rto_half(span_scale(x, 15))
        &&& b.m == rto_half(min_of(x, 32))
        &&& forall|e: int|
            0 <= e < 32 ==> #[trigger] nibble_of(b.qs@, e) == span_code(
                x[e],
                min_of(x, 32),
                inv,
                15,
            )
    }

    open spec fn is_zero(self) -> bool {
        &&& self.d.bits == 0
        &&& self.m.bits == 0
        &&& forall|e: int| 0 <= e < 16 ==> #[trigger] self.qs@[e] == 0
    }

    fn block_len() -> usize {
        32
    }

    fn zeros() -> Self {
        BlockQ4_1 { d: Half::zero(), m: Half::zero(), qs: [0; 16] }
    }

    fn decode_into(&self, ys: &mut [R], at: usize) {
        write_offset(self, ys, at)
    }

    fn encode_block(x: &[R]) -> Self {
        let (d, m, codes) = encode_span(x, 15);
        let b = BlockQ4_1 { d: narrow(d), m: narrow(m), qs: join_nibbles(&codes) };
        assert forall|e: int| 0 <= e < 32 implies #[trigger] nibble_of(b.qs@, e) == span_code(
            x@[e],
            min_of(x@, 32),
            reciprocal_of(span_scale(x@, 15)),
            15,
        ) by {
            assert(codes@[e] <= 15);
        }
        b
    }
}

impl<R: Real> BlockFormat<R> for BlockQ4_1 {
    type ActivationBlock = BlockQ8_1;

    open spec fn dtype_of() -> GgmlDType {
        GgmlDType::Q4_1
    }

    open spec fn dot_of(xs: Seq<Self>, ys: Seq<BlockQ8_1>) -> R {
        offset_lane_dot::<R, BlockQ4_1>(xs, ys, shared(xs.len(), ys.len()))
    }

    open spec fn dot_scalar_of(xs: Seq<Self>, ys: Seq<BlockQ8_1>) -> R {
        offset_plain_dot::<R, BlockQ4_1>(xs, ys, shared(xs.len(), ys.len()))
    }

    fn dtype() -> GgmlDType {
        GgmlDType::Q4_1
    }

    fn dot(xs: &[Self], ys: &[BlockQ8_1]) -> R {
        vec_dot_q4_1_q8_1(xs, ys)
    }

    fn dot_scalar(xs: &[Self], ys: &[BlockQ8_1]) -> R {
        dot_offset(xs, ys)
    }
}

/// Four-bit unsigned codes and a minimum.
pub fn vec_dot_q4_1_q8_1<R: Real>(xs: &[BlockQ4_1], ys: &[BlockQ8_1]) -> (r: R)
    requires
        lawful::<R>(),
    ensures
        r == offset_lane_dot::<R, BlockQ4_1>(xs@, ys@, shared(xs@.len(), ys@.len())),
{
    vec_dot_offset(xs, ys)
}

} // verus!
