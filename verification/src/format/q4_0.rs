//! q4_0 - thirty-two values, one scale, four bits each.
//!
//! `y = (q - 8) * d`. Codes run `0..=15` and stand for `-8..=7`, so the scale is set from the
//! block's extreme value with its sign: -8 is representable and +8 is not. Byte `j` carries
//! value `j` in its low nibble and value `j + 16` in its high one.
use vstd::prelude::*;
use crate::arith::{
    Half, Real, lawful, radd, rdiv, rhalf, rint, rmul, rneg, rround, rto_half, int_to, narrow,
    nearest_int, neg, over, plus, times, widen,
};
use crate::blocks::{BlockFormat, GgmlDType, Quantized, high4, low4};
use crate::coded::{
    Codes32, Scaled, dot_blocks, lane_dot, plain_dot, scaled_value, shared, vec_dot, write_scaled,
};
use crate::format::q8_0::BlockQ8_0;
use crate::scale::{clamp, clamped, extreme, extreme_of, reciprocal, reciprocal_of};

verus! {

#[derive(Clone, Copy, Debug)]
pub struct BlockQ4_0 {
    pub d: Half,
    pub qs: [u8; 16],
}

/// The nibble of value `e`: low for the first sixteen, high for the rest.
pub open spec fn nibble_of(qs: Seq<u8>, e: int) -> int {
    if e < 16 {
        low4(qs[e])
    } else {
        high4(qs[e - 16])
    }
}

/// The thirty-two nibbles of sixteen bytes, in value order.
pub fn split_nibbles(qs: &[u8; 16]) -> (r: [u8; 32])
    ensures
        forall|e: int| 0 <= e < 32 ==> #[trigger] r@[e] == nibble_of(qs@, e),
        forall|e: int| 0 <= e < 32 ==> #[trigger] r@[e] < 16,
{
    let mut r = [0u8; 32];
    for j in 0..16usize
        invariant
            forall|e: int| 0 <= e < j ==> #[trigger] r@[e] == nibble_of(qs@, e),
            forall|e: int| 16 <= e < 16 + j ==> #[trigger] r@[e] == nibble_of(qs@, e),
    {
        r[j] = qs[j] % 16;
        r[j + 16] = qs[j] / 16;
    }
    r
}

/// The sixteen bytes whose nibbles are the low four bits of thirty-two codes.
pub fn join_nibbles(codes: &[u8; 32]) -> (qs: [u8; 16])
    ensures
        forall|e: int| 0 <= e < 32 ==> nibble_of(qs@, e) == #[trigger] codes@[e] % 16,
{
    let mut qs = [0u8; 16];
    for j in 0..16usize
        invariant
            forall|e: int| 0 <= e < j ==> nibble_of(qs@, e) == #[trigger] codes@[e] % 16,
            forall|e: int| 16 <= e < 16 + j ==> nibble_of(qs@, e) == #[trigger] codes@[e] % 16,
    {
        qs[j] = codes[j] % 16 + 16 * (codes[j + 16] % 16);
    }
    qs
}

/// Sixteen bytes of zero codes.
pub fn no_nibbles() -> (qs: [u8; 16])
    ensures
        forall|j: int| 0 <= j < 16 ==> #[trigger] qs@[j] == 0,
        forall|e: int| 0 <= e < 32 ==> #[trigger] nibble_of(qs@, e) == 0,
{
    let qs = [0u8; 16];
    proof {
        vstd::array::axiom_spec_array_fill_for_copy_type::<u8, 16>(0u8);
    }
    qs
}

/// The scale that maps the extreme value onto the lowest code.
pub open spec fn signed_scale<R: Real>(x: Seq<R>, bias: i32) -> R {
    rdiv(extreme_of(x, 32), rneg(rint::<R>(bias)))
}

/// The biased code of one value under the inverse scale `inv`.
pub open spec fn signed_code<R: Real>(v: R, inv: R, bias: i32, top: int) -> int {
    clamped(rround(radd(rmul(v, inv), rint(bias))) as int, 0, top)
}

/// The biased codes of a block of values, and its scale.
pub fn encode_signed<R: Real>(x: &[R], bias: i32, top: i32) -> (r: (R, [u8; 32]))
    requires
        lawful::<R>(),
        x@.len() == 32,
        0 <= top <= 255,
    ensures
        r.0 == signed_scale(x@, bias),
        forall|e: int|
            0 <= e < 32 ==> #[trigger] r.1@[e] == signed_code(
                x@[e],
                reciprocal_of(signed_scale(x@, bias)),
                bias,
                top as int,
            ),
        forall|e: int| 0 <= e < 32 ==> #[trigger] r.1@[e] <= top,
{
    let d = over(extreme(x), neg(int_to::<R>(bias)));
    let inv = reciprocal(d);
    let mut codes = [0u8; 32];
    for e in 0..32usize
        invariant
            lawful::<R>(),
            x@.len() == 32,
            0 <= top <= 255,
            forall|i: int|
                0 <= i < e ==> #[trigger] codes@[i] == signed_code(x@[i], inv, bias, top as int),
            forall|i: int| 0 <= i < e ==> #[trigger] codes@[i] <= top,
    {
        codes[e] = clamp(nearest_int(plus(times(x[e], inv), int_to(bias))), 0, top) as u8;
    }
    (d, codes)
}

impl Codes32 for BlockQ4_0 {
    open spec fn code_of(self, e: int) -> int {
        nibble_of(self.qs@, e) - 8
    }

    fn codes(&self) -> (r: [i8; 32]) {
        let raw = split_nibbles(&self.qs);
        let mut r = [0i8; 32];
        for e in 0..32usize
            invariant
                forall|i: int| 0 <= i < 32 ==> #[trigger] raw@[i] == nibble_of(self.qs@, i),
                forall|i: int| 0 <= i < 32 ==> #[trigger] raw@[i] < 16,
                forall|i: int| 0 <= i < e ==> #[trigger] r@[i] == self.code_of(i),
        {
            r[e] = raw[e] as i8 - 8;
        }
        r
    }
}

impl<R: Real> Scaled<R> for BlockQ4_0 {
    open spec fn scale_of(self) -> R {
        rhalf(self.d)
    }

    fn scale(&self) -> R {
        widen(self.d)
    }
}

impl<R: Real> Quantized<R> for BlockQ4_0 {
    open spec fn width() -> nat {
        32
    }

    open spec fn value(self, e: int) -> R {
        scaled_value::<R, BlockQ4_0>(self, e)
    }

    open spec fn encodes(x: Seq<R>, b: Self) -> bool {
        let inv = reciprocal_of(signed_scale(x, 8));
        &&& b.d == rto_half(signed_scale(x, 8))
        &&& forall|e: int|
            0 <= e < 32 ==> #[trigger] nibble_of(b.qs@, e) == signed_code(x[e], inv, 8, 15)
    }

    open spec fn is_zero(self) -> bool {
        &&& self.d.bits == 0
        &&& forall|e: int| 0 <= e < 16 ==> #[trigger] self.qs@[e] == 0
    }

    fn block_len() -> usize {
        32
    }

    fn zeros() -> Self {
        BlockQ4_0 { d: Half::zero(), qs: [0; 16] }
    }

    fn decode_into(&self, ys: &mut [R], at: usize) {
        write_scaled(self, ys, at)
    }

    fn encode_block(x: &[R]) -> Self {
        let (d, codes) = encode_signed(x, 8, 15);
        let b = BlockQ4_0 { d: narrow(d), qs: join_nibbles(&codes) };
        assert forall|e: int| 0 <= e < 32 implies #[trigger] nibble_of(b.qs@, e) == signed_code(
            x@[e],
            reciprocal_of(signed_scale(x@, 8)),
            8,
            15,
        ) by {
            assert(codes@[e] <= 15);
        }
        b
    }
}

impl<R: Real> BlockFormat<R> for BlockQ4_0 {
    type ActivationBlock = BlockQ8_0;

    open spec fn dtype_of() -> GgmlDType {
        GgmlDType::Q4_0
    }

    open spec fn dot_of(xs: Seq<Self>, ys: Seq<BlockQ8_0>) -> R {
        lane_dot::<R, BlockQ4_0, BlockQ8_0>(xs, ys, shared(xs.len(), ys.len()))
    }

    open spec fn dot_scalar_of(xs: Seq<Self>, ys: Seq<BlockQ8_0>) -> R {
        plain_dot::<R, BlockQ4_0, BlockQ8_0>(xs, ys, shared(xs.len(), ys.len()))
    }

    fn dtype() -> GgmlDType {
        GgmlDType::Q4_0
    }

    fn dot(xs: &[Self], ys: &[BlockQ8_0]) -> R {
        vec_dot_q4_0_q8_0(xs, ys)
    }

    fn dot_scalar(xs: &[Self], ys: &[BlockQ8_0]) -> R {
        dot_blocks(xs, ys)
    }
}

/// Four-bit codes biased by eight against eight-bit activations.
pub fn vec_dot_q4_0_q8_0<R: Real>(xs: &[BlockQ4_0], ys: &[BlockQ8_0]) -> (r: R)
    requires
        lawful::<R>(),
    ensures
        r == lane_dot::<R, BlockQ4_0, BlockQ8_0>(xs@, ys@, shared(xs@.len(), ys@.len())),
{
    vec_dot(xs, ys)
}

} // verus!
