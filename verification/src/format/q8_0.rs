//! q8_0 - thirty-two values, one scale, eight bits each.
//!
//! `y = q * d`, with `q` signed and `d` shared by the block. An encoder's only decision is the
//! scale, and the scale is forced: the largest magnitude has to land on the widest code.
use vstd::prelude::*;
use crate::arith::{
    Half, Real, lawful, rdiv, rhalf, rint, rmul, rround, rto_half, int_to, narrow, nearest_int,
    over, times, widen,
};
use crate::blocks::{BlockFormat, GgmlDType, Quantized};
use crate::coded::{
    Codes32, Scaled, dot_blocks, lane_dot, plain_dot, scaled_value, shared, vec_dot, write_scaled,
};
use crate::scale::{amax, amax_of, clamp, clamped, reciprocal, reciprocal_of};

verus! {

#[derive(Clone, Copy, Debug)]
pub struct BlockQ8_0 {
    pub d: Half,
    pub qs: [i8; 32],
}

/// The scale of a block: its largest magnitude on the widest code.
pub open spec fn byte_scale<R: Real>(x: Seq<R>) -> R {
    rdiv(amax_of(x, 32), rint::<R>(127))
}

/// The code of one value under the inverse scale `inv`.
pub open spec fn byte_code<R: Real>(v: R, inv: R) -> int {
    clamped(rround(rmul(v, inv)) as int, -128, 127)
}

/// The codes of a block of values, and its scale.
pub fn encode_bytes<R: Real>(x: &[R]) -> (r: (R, [i8; 32]))
    requires
        lawful::<R>(),
        x@.len() == 32,
    ensures
        r.0 == byte_scale(x@),
        forall|e: int|
            0 <= e < 32 ==> #[trigger] r.1@[e] == byte_code(
                x@[e],
                reciprocal_of(byte_scale(x@)),
            ),
{
    let d = over(amax(x), int_to::<R>(127));
    let inv = reciprocal(d);
    let mut qs = [0i8; 32];
    for e in 0..32usize
        invariant
            lawful::<R>(),
            x@.len() == 32,
            inv == reciprocal_of(byte_scale(x@)),
            forall|i: int| 0 <= i < e ==> #[trigger] qs@[i] == byte_code(x@[i], inv),
    {
        qs[e] = clamp(nearest_int(times(x[e], inv)), -128, 127) as i8;
    }
    (d, qs)
}

impl Codes32 for BlockQ8_0 {
    open spec fn code_of(self, e: int) -> int {
        self.qs@[e] as int
    }

    fn codes(&self) -> [i8; 32] {
        self.qs
    }
}

impl<R: Real> Scaled<R> for BlockQ8_0 {
    open spec fn scale_of(self) -> R {
        rhalf(self.d)
    }

    fn scale(&self) -> R {
        widen(self.d)
    }
}

impl<R: Real> Quantized<R> for BlockQ8_0 {
    open spec fn width() -> nat {
        32
    }

    open spec fn value(self, e: int) -> R {
        scaled_value::<R, BlockQ8_0>(self, e)
    }

    open spec fn encodes(x: Seq<R>, b: Self) -> bool {
        &&& b.d == rto_half(byte_scale(x))
        &&& forall|e: int|
            0 <= e < 32 ==> #[trigger] b.qs@[e] == byte_code(x[e], reciprocal_of(byte_scale(x)))
    }

    open spec fn is_zero(self) -> bool {
        &&& self.d.bits == 0
        &&& forall|e: int| 0 <= e < 32 ==> #[trigger] self.qs@[e] == 0
    }

    fn block_len() -> usize {
        32
    }

    fn zeros() -> Self {
        BlockQ8_0 { d: Half::zero(), qs: [0; 32] }
    }

    fn decode_into(&self, ys: &mut [R], at: usize) {
        write_scaled(self, ys, at)
    }

    fn encode_block(x: &[R]) -> Self {
        let (d, qs) = encode_bytes(x);
        BlockQ8_0 { d: narrow(d), qs }
    }
}

impl<R: Real> BlockFormat<R> for BlockQ8_0 {
    type ActivationBlock = BlockQ8_0;

    open spec fn dtype_of() -> GgmlDType {
        GgmlDType::Q8_0
    }

    open spec fn dot_of(xs: Seq<Self>, ys: Seq<BlockQ8_0>) -> R {
        lane_dot::<R, BlockQ8_0, BlockQ8_0>(xs, ys, shared(xs.len(), ys.len()))
    }

    open spec fn dot_scalar_of(xs: Seq<Self>, ys: Seq<BlockQ8_0>) -> R {
        plain_dot::<R, BlockQ8_0, BlockQ8_0>(xs, ys, shared(xs.len(), ys.len()))
    }

    fn dtype() -> GgmlDType {
        GgmlDType::Q8_0
    }

    fn dot(xs: &[Self], ys: &[BlockQ8_0]) -> R {
        vec_dot_q8_0_q8_0(xs, ys)
    }

    fn dot_scalar(xs: &[Self], ys: &[BlockQ8_0]) -> R {
        dot_blocks(xs, ys)
    }
}

/// Eight-bit codes on both sides.
pub fn vec_dot_q8_0_q8_0<R: Real>(xs: &[BlockQ8_0], ys: &[BlockQ8_0]) -> (r: R)
    requires
        lawful::<R>(),
    ensures
        r == lane_dot::<R, BlockQ8_0, BlockQ8_0>(xs@, ys@, shared(xs@.len(), ys@.len())),
{
    vec_dot(xs, ys)
}

/// Values have one block of this format.
pub proof fn q8_0_encodes_once<R: Real>(x: Seq<R>, a: BlockQ8_0, b: BlockQ8_0)
    requires
        <BlockQ8_0 as Quantized<R>>::encodes(x, a),
        <BlockQ8_0 as Quantized<R>>::encodes(x, b),
    ensures
        a == b,
{
    let inv = reciprocal_of(byte_scale(x));
    assert forall|e: int| 0 <= e < 32 implies a.qs@[e] == b.qs@[e] by {
        assert(a.qs@[e] == byte_code(x[e], inv));
        assert(b.qs@[e] == byte_code(x[e], inv));
    }
    assert(a.qs =~= b.qs);
}

} // verus!
