//! q5_0 - thirty-two values, one scale, five bits each.
//!
//! `y = (q - 16) * d`, q4_0's shape with one more bit of code. The fifth bit of value `v` is bit
//! `v` of a separate 32-bit word, stored as four bytes, lowest first.
use vstd::prelude::*;
use crate::arith::{Half, Real, lawful, rhalf, rto_half, narrow, widen};
use crate::blocks::{BlockFormat, GgmlDType, Quantized, bit, bit_of, pack_bits};
use crate::coded::{
    Codes32, Scaled, dot_blocks, lane_dot, plain_dot, scaled_value, shared, vec_dot, write_scaled,
};
use crate::format::q4_0::{
    encode_signed, join_nibbles, nibble_of, signed_code, signed_scale, split_nibbles,
};
use crate::format::q8_0::BlockQ8_0;
use crate::scale::reciprocal_of;

verus! {

#[derive(Clone, Copy, Debug)]
pub struct BlockQ5_0 {
    pub d: Half,
    pub qh: [u8; 4],
    pub qs: [u8; 16],
}

/// The fifth bit of value `v`.
pub open spec fn fifth_of(qh: Seq<u8>, v: int) -> int {
    bit_of(qh[v / 8], v % 8)
}

/// The five-bit code of value `e`.
pub open spec fn code5_of(qh: Seq<u8>, qs: Seq<u8>, e: int) -> int {
    nibble_of(qs, e) + 16 * fifth_of(qh, e)
}

/// The thirty-two five-bit codes of a block.
pub fn split_fives(qh: &[u8; 4], qs: &[u8; 16]) -> (r: [u8; 32])
    ensures
        forall|e: int| 0 <= e < 32 ==> #[trigger] r@[e] == code5_of(qh@, qs@, e),
        forall|e: int| 0 <= e < 32 ==> #[trigger] r@[e] < 32,
{
    let low = split_nibbles(qs);
    let mut r = [0u8; 32];
    for e in 0..32usize
        invariant
            forall|i: int| 0 <= i < 32 ==> #[trigger] low@[i] == nibble_of(qs@, i),
            forall|i: int| 0 <= i < 32 ==> #[trigger] low@[i] < 16,
            forall|i: int| 0 <= i < e ==> #[trigger] r@[i] == code5_of(qh@, qs@, i),
            forall|i: int| 0 <= i < e ==> #[trigger] r@[i] < 32,
    {
        r[e] = low[e] + 16 * bit(qh[e / 8], e % 8);
    }
    r
}

/// The fifth bits of thirty-two codes, one to each bit of four bytes.
pub fn join_fifths(codes: &[u8; 32]) -> (qh: [u8; 4])
    requires
        forall|e: int| 0 <= e < 32 ==> #[trigger] codes@[e] < 32,
    ensures
        forall|e: int| 0 <= e < 32 ==> fifth_of(qh@, e) == #[trigger] codes@[e] / 16,
{
    let mut qh = [0u8; 4];
    for t in 0..4usize
        invariant
            forall|e: int| 0 <= e < 32 ==> #[trigger] codes@[e] < 32,
            forall|e: int| 0 <= e < 8 * t ==> fifth_of(qh@, e) == #[trigger] codes@[e] / 16,
    {
        let v: [u8; 8] = [
            codes[8 * t] / 16,
            codes[8 * t + 1] / 16,
            codes[8 * t + 2] / 16,
            codes[8 * t + 3] / 16,
            codes[8 * t + 4] / 16,
            codes[8 * t + 5] / 16,
            codes[8 * t + 6] / 16,
            codes[8 * t + 7] / 16,
        ];
        let byte = pack_bits(&v);
        let ghost before = qh@;
        qh[t] = byte;
        assert forall|e: int| 0 <= e < 8 * t + 8 implies fifth_of(qh@, e) == #[trigger] codes@[e]
            / 16 by {
            if e < 8 * t {
                assert(qh@[e / 8] == before[e / 8]);
            } else {
                assert(e / 8 == t && e % 8 == e - 8 * t);
                assert(bit_of(byte, e - 8 * t) == v@[e - 8 * t]);
            }
        }
    }
    qh
}

impl Codes32 for BlockQ5_0 {
    open spec fn code_of(self, e: int) -> int {
        code5_of(self.qh@, self.qs@, e) - 16
    }

    fn codes(&self) -> (r: [i8; 32]) {
        let raw = split_fives(&self.qh, &self.qs);
        let mut r = [0i8; 32];
        for e in 0..32usize
            invariant
                forall|i: int|
                    0 <= i < 32 ==> #[trigger] raw@[i] == code5_of(self.qh@, self.qs@, i),
                forall|i: int| 0 <= i < 32 ==> #[trigger] raw@[i] < 32,
                forall|i: int| 0 <= i < e ==> #[trigger] r@[i] == self.code_of(i),
        {
            r[e] = raw[e] as i8 - 16;
        }
        r
    }
}

impl<R: Real> Scaled<R> for BlockQ5_0 {
    open spec fn scale_of(self) -> R {
        rhalf(self.d)
    }

    fn scale(&self) -> R {
        widen(self.d)
    }
}

impl<R: Real> Quantized<R> for BlockQ5_0 {
    open spec fn width() -> nat {
        32
    }

    open spec fn value(self, e: int) -> R {
        scaled_value::<R, BlockQ5_0>(self, e)
    }

    open spec fn encodes(x: Seq<R>, b: Self) -> bool {
        let inv = reciprocal_of(signed_scale(x, 16));
        &&& b.d == rto_half(signed_scale(x, 16))
        &&& forall|e: int|
            0 <= e < 32 ==> #[trigger] code5_of(b.qh@, b.qs@, e) == signed_code(x[e], inv, 16, 31)
    }

    open spec fn is_zero(self) -> bool {
        &&& self.d.bits == 0
        &&& forall|e: int| 0 <= e < 4 ==> #[trigger] self.qh@[e] == 0
        &&& forall|e: int| 0 <= e < 16 ==> #[trigger] self.qs@[e] == 0
    }

    fn block_len() -> usize {
        32
    }

    fn zeros() -> Self {
        BlockQ5_0 { d: Half::zero(), qh: [0; 4], qs: [0; 16] }
    }

    fn decode_into(&self, ys: &mut [R], at: usize) {
        write_scaled(self, ys, at)
    }

    fn encode_block(x: &[R]) -> Self {
        let (d, codes) = encode_signed(x, 16, 31);
        let b = BlockQ5_0 { d: narrow(d), qh: join_fifths(&codes), qs: join_nibbles(&codes) };
        assert forall|e: int| 0 <= e < 32 implies #[trigger] code5_of(b.qh@, b.qs@, e)
            == signed_code(x@[e], reciprocal_of(signed_scale(x@, 16)), 16, 31) by {
            assert(codes@[e] <= 31);
        }
        b
    }
}

impl<R: Real> BlockFormat<R> for BlockQ5_0 {
    type ActivationBlock = BlockQ8_0;

    open spec fn dtype_of() -> GgmlDType {
        GgmlDType::Q5_0
    }

    open spec fn dot_of(xs: Seq<Self>, ys: Seq<BlockQ8_0>) -> R {
        lane_dot::<R, BlockQ5_0, BlockQ8_0>(xs, ys, shared(xs.len(), ys.len()))
    }

    open spec fn dot_scalar_of(xs: Seq<Self>, ys: Seq<BlockQ8_0>) -> R {
        plain_dot::<R, BlockQ5_0, BlockQ8_0>(xs, ys, shared(xs.len(), ys.len()))
    }

    fn dtype() -> GgmlDType {
        GgmlDType::Q5_0
    }

    fn dot(xs: &[Self], ys: &[BlockQ8_0]) -> R {
        vec_dot_q5_0_q8_0(xs, ys)
    }

    fn dot_scalar(xs: &[Self], ys: &[BlockQ8_0]) -> R {
        dot_blocks(xs, ys)
    }
}

/// Five-bit codes biased by sixteen against eight-bit activations.
pub fn vec_dot_q5_0_q8_0<R: Real>(xs: &[BlockQ5_0], ys: &[BlockQ8_0]) -> (r: R)
    requires
        lawful::<R>(),
    ensures
        r == lane_dot::<R, BlockQ5_0, BlockQ8_0>(xs@, ys@, shared(xs@.len(), ys@.len())),
{
    vec_dot(xs, ys)
}

} // verus!
