//! q5_1 - thirty-two values, a scale and a minimum, five bits each.
//!
//! `y = q * d + m`: q4_1's shape with one more bit of code, kept apart as in q5_0.
use vstd::prelude::*;
use crate::arith::{Half, Real, lawful, rhalf, rto_half, narrow, widen};
use crate::blocks::{BlockFormat, GgmlDType, Quantized};
use crate::coded::{Codes32, Scaled, shared};
use crate::format::q4_0::join_nibbles;
use crate::format::q4_1::{encode_span, span_code, span_scale};
use crate::format::q5_0::{code5_of, join_fifths, split_fives};
use crate::format::q8_1::{
    BlockQ8_1, Offset, dot_offset, offset_lane_dot, offset_plain_dot, offset_value,
    vec_dot_offset, write_offset,
};
use crate::scale::{min_of, reciprocal_of};

verus! {

#[derive(Clone, Copy, Debug)]
pub struct BlockQ5_1 {
    pub d: Half,
    pub m: Half,
    pub qh: [u8; 4],
    pub qs: [u8; 16],
}

impl Codes32 for BlockQ5_1 {
    open spec fn code_of(self, e: int) -> int {
        code5_of(self.qh@, self.qs@, e)
    }

    fn codes(&self) -> (r: [i8; 32]) {
        let raw = split_fives(&self.qh, &self.qs);
        let mut r = [0i8; 32];
        for e in 0..32usize
            invariant
                forall|i: int|
                    0 <= i < 32 ==> #[trigger] raw@[i] == code5_of(self.qh@, self.qs@, i),
                forall|i: int| 0 <= i < 32 ==> #[trigger] raw@[i] < 32,
                forall|i: int| 0 <= i < e ==> #[trigger] r@[i] == self.code_of(i),
        {
            r[e] = raw[e] as i8;
        }
        r
    }
}

impl<R: Real> Scaled<R> for BlockQ5_1 {
    open spec fn scale_of(self) -> R {
        rhalf(self.d)
    }

    fn scale(&self) -> R {
        widen(self.d)
    }
}

impl<R: Real> Offset<R> for BlockQ5_1 {
    open spec fn offset_of(self) -> R {
        rhalf(self.m)
    }

    fn offset(&self) -> R {
        widen(self.m)
    }
}

impl<R: Real> Quantized<R> for BlockQ5_1 {
    open spec fn width() -> nat {
        32
    }

    open spec fn value(self, e: int) -> R {
        offset_value::<R, BlockQ5_1>(self, e)
    }

    open spec fn encodes(x: Seq<R>, b: Self) -> bool {
        let inv = reciprocal_of(span_scale(x, 31));
        &&& b.d == rto_half(span_scale(x, 31))
        &&& b.m == rto_half(min_of(x, 32))
        &&& forall|e: int|
            0 <= e < 32 ==> #[trigger] code5_of(b.qh@, b.qs@, e) == span_code(
                x[e],
                min_of(x, 32),
                inv,
                31,
            )
    }

    open spec fn is_zero(self) -> bool {
        &&& self.d.bits == 0
        &&& self.m.bits == 0
        &&& forall|e: int| 0 <= e < 4 ==> #[trigger] self.qh@[e] == 0
        &&& forall|e: int| 0 <= e < 16 ==> #[trigger] self.qs@[e] == 0
    }

    fn block_len() -> usize {
        32
    }

    fn zeros() -> Self {
        BlockQ5_1 { d: Half::zero(), m: Half::zero(), qh: [0; 4], qs: [0; 16] }
    }

    fn decode_into(&self, ys: &mut [R], at: usize) {
        write_offset(self, ys, at)
    }

    fn encode_block(x: &[R]) -> Self {
        let (d, m, codes) = encode_span(x, 31);
        let b = BlockQ5_1 {
            d: narrow(d),
            m: narrow(m),
            qh: join_fifths(&codes),
            qs: join_nibbles(&codes),
        };
        assert forall|e: int| 0 <= e < 32 implies #[trigger] code5_of(b.qh@, b.qs@, e)
            == span_code(x@[e], min_of(x@, 32), reciprocal_of(span_scale(x@, 31)), 31) by {
            assert(codes@[e] <= 31);
        }
        b
    }
}

impl<R: Real> BlockFormat<R> for BlockQ5_1 {
    type ActivationBlock = BlockQ8_1;

    open spec fn dtype_of() -> GgmlDType {
        GgmlDType::Q5_1
    }

    open spec fn dot_of(xs: Seq<Self>, ys: Seq<BlockQ8_1>) -> R {
        offset_lane_dot::<R, BlockQ5_1>(xs, ys, shared(xs.len(), ys.len()))
    }

    open spec fn dot_scalar_of(xs: Seq<Self>, ys: Seq<BlockQ8_1>) -> R {
        offset_plain_dot::<R, BlockQ5_1>(xs, ys, shared(xs.len(), ys.len()))
    }

    fn dtype() -> GgmlDType {
        GgmlDType::Q5_1
    }

    fn dot(xs: &[Self], ys: &[BlockQ8_1]) -> R {
        vec_dot_q5_1_q8_1(xs, ys)
    }

    fn dot_scalar(xs: &[Self], ys: &[BlockQ8_1]) -> R {
        dot_offset(xs, ys)
    }
}

/// Five-bit unsigned codes and a minimum.
pub fn vec_dot_q5_1_q8_1<R: Real>(xs: &[BlockQ5_1], ys: &[BlockQ8_1]) -> (r: R)
    requires
        lawful::<R>(),
    ensures
        r == offset_lane_dot::<R, BlockQ5_1>(xs@, ys@, shared(xs@.len(), ys@.len())),
{
    vec_dot_offset(xs, ys)
}

} // verus!
