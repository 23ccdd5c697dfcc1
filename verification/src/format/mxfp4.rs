//! mxfp4 - thirty-two four-bit codes that index a table of values, under a power of two.
//!
//! `y = table[q] * 2^(e - 128)`. Byte `j` carries value `j` low and value `j + 16` high. The
//! block's only free parameter is its exponent, and which one loses least is a property of the
//! block: the encoder tries the three around the magnitude and keeps the smallest squared error.
use vstd::prelude::*;
use crate::arith::{
    Real, lawful, rabs, radd, rdiv, req, rhalf, rinf, rint, rlog2_floor, rlt, rmul, rsub, rzero,
    abs, eq, inf, int_to, log2_floor, lt, minus, over, plus, times, widen, zero,
};
use crate::blocks::{
    BlockFormat, GgmlDType, KVALUES_MXFP4, Quantized, e8m0_to_fp32_half, e8m0_value,
};
use crate::coded::{
    Codes32, Scaled, block_dot, block_product, lane_dot, scaled_value, shared, vec_dot,
    write_scaled,
};
use crate::format::q4_0::{join_nibbles, nibble_of, no_nibbles, split_nibbles};
use crate::format::q8_0::BlockQ8_0;
use crate::scale::{amax, amax_of};

verus! {

#[derive(Clone, Copy, Debug)]
pub struct BlockMxFp4 {
    pub e: u8,
    pub qs: [u8; 16],
}

/// The distance of code `c`'s table value from `v`.
pub open spec fn code_gap<R: Real>(c: int, v: R) -> R {
    rabs(rsub(rint(KVALUES_MXFP4@[c] as i32), v))
}

/// The nearest of the first `n` codes and its distance; the first of equals.
pub open spec fn nearest_code<R: Real>(v: R, n: nat) -> (R, int)
    decreases n,
{
    if n == 0 {
        (rinf::<R>(), 0)
    } else {
        let best = nearest_code(v, (n - 1) as nat);
        if rlt(code_gap(n - 1, v), best.0) {
            (code_gap(n - 1, v), n - 1)
        } else {
            best
        }
    }
}

/// Nearest four-bit code for a value already divided by the block scale.
pub fn quantize_mxfp4_nibble<R: Real>(v: R) -> (c: u8)
    requires
        lawful::<R>(),
    ensures
        c == nearest_code(v, 16).1,
        c < 16,
{
    let mut best: u8 = 0;
    let mut best_err = inf::<R>();
    for i in 0..16u8
        invariant
            lawful::<R>(),
            (best_err, best as int) == nearest_code(v, i as nat),
            best < 16,
    {
        let err = abs(minus(int_to(KVALUES_MXFP4[i as usize] as i32), v));
        if lt(err, best_err) {
            best_err = err;
            best = i;
        }
    }
    best
}

/// The code of one value under exponent `e`.
pub open spec fn mx_code<R: Real>(v: R, e: u8) -> int {
    nearest_code(rdiv(v, e8m0_value::<R>(e)), 16).1
}

/// The squared error of one value under exponent `e`.
pub open spec fn mx_loss<R: Real>(v: R, e: u8) -> R {
    let gap = rsub(rmul(rint(KVALUES_MXFP4@[mx_code(v, e)] as i32), e8m0_value::<R>(e)), v);
    rmul(gap, gap)
}

/// The error of the first `n` pairs of a block under exponent `e`.
pub open spec fn mx_error<R: Real>(x: Seq<R>, e: u8, n: nat) -> R
    decreases n,
{
    if n == 0 {
        rzero::<R>()
    } else {
        radd(
            mx_error(x, e, (n - 1) as nat),
            radd(mx_loss(x[n - 1], e), mx_loss(x[n - 1 + 16], e)),
        )
    }
}

/// An exponent the encoder may use: eight bits, and a scale that is not zero.
pub open spec fn mx_allowed<R: Real>(e: int) -> bool {
    0 <= e <= 255 && !req(e8m0_value::<R>(e as u8), rzero::<R>())
}

/// The best of the first `k` exponents from `first`, with its error; none before any is allowed
/// and beats the value above every finite one.
pub open spec fn mx_best<R: Real>(x: Seq<R>, first: int, k: nat) -> (R, Option<u8>)
    decreases k,
{
    if k == 0 {
        (rinf::<R>(), None)
    } else {
        let best = mx_best(x, first, (k - 1) as nat);
        let e = first + k - 1;
        if mx_allowed::<R>(e) && rlt(mx_error(x, e as u8, 16), best.0) {
            (mx_error(x, e as u8, 16), Some(e as u8))
        } else {
            best
        }
    }
}

/// The lowest of the three exponents tried for a block.
pub open spec fn mx_first<R: Real>(x: Seq<R>) -> int {
    rlog2_floor(amax_of(x, 32)) - 2 + 127 - 1
}

impl Codes32 for BlockMxFp4 {
    open spec fn code_of(self, e: int) -> int {
        KVALUES_MXFP4@[nibble_of(self.qs@, e)] as int
    }

    fn codes(&self) -> (r: [i8; 32]) {
        let raw = split_nibbles(&self.qs);
        let mut r = [0i8; 32];
        for e in 0..32usize
            invariant
                forall|i: int| 0 <= i < 32 ==> #[trigger] raw@[i] == nibble_of(self.qs@, i),
                forall|i: int| 0 <= i < 32 ==> #[trigger] raw@[i] < 16,
                forall|i: int| 0 <= i < e ==> #[trigger] r@[i] == self.code_of(i),
        {
            r[e] = KVALUES_MXFP4[raw[e] as usize];
        }
        r
    }
}

impl<R: Real> Scaled<R> for BlockMxFp4 {
    open spec fn scale_of(self) -> R {
        e8m0_value::<R>(self.e)
    }

    fn scale(&self) -> R {
        e8m0_to_fp32_half(self.e)
    }
}

/// The codes of a block under exponent `e`, and the error they leave.
fn encode_under<R: Real>(x: &[R], e: u8) -> (r: (R, [u8; 32]))
    requires
        lawful::<R>(),
        x@.len() == 32,
    ensures
        r.0 == mx_error(x@, e, 16),
        forall|i: int| 0 <= i < 32 ==> #[trigger] r.1@[i] == mx_code(x@[i], e),
        forall|i: int| 0 <= i < 32 ==> #[trigger] r.1@[i] < 16,
{
    let d = e8m0_to_fp32_half::<R>(e);
    let mut codes = [0u8; 32];
    let mut err = zero::<R>();
    for j in 0..16usize
        invariant
            lawful::<R>(),
            x@.len() == 32,
            d == e8m0_value::<R>(e),
            err == mx_error(x@, e, j as nat),
            forall|i: int| 0 <= i < j ==> #[trigger] codes@[i] == mx_code(x@[i], e),
            forall|i: int| 16 <= i < 16 + j ==> #[trigger] codes@[i] == mx_code(x@[i], e),
            forall|i: int| 0 <= i < j ==> #[trigger] codes@[i] < 16,
            forall|i: int| 16 <= i < 16 + j ==> #[trigger] codes@[i] < 16,
    {
        let (lo, hi) = (x[j], x[j + 16]);
        let clo = quantize_mxfp4_nibble(over(lo, d));
        let chi = quantize_mxfp4_nibble(over(hi, d));
        codes[j] = clo;
        codes[j + 16] = chi;
        let glo = minus(times(int_to(KVALUES_MXFP4[clo as usize] as i32), d), lo);
        let ghi = minus(times(int_to(KVALUES_MXFP4[chi as usize] as i32), d), hi);
        err = plus(err, plus(times(glo, glo), times(ghi, ghi)));
    }
    (err, codes)
}

impl<R: Real> Quantized<R> for BlockMxFp4 {
    open spec fn width() -> nat {
        32
    }

    open spec fn value(self, e: int) -> R {
        scaled_value::<R, BlockMxFp4>(self, e)
    }

    open spec fn encodes(x: Seq<R>, b: Self) -> bool {
        match mx_best(x, mx_first(x), 3).1 {
            Some(e) if !req(amax_of(x, 32), rzero::<R>()) => {
                &&& b.e == e
                &&& forall|i: int|
                    0 <= i < 32 ==> #[trigger] nibble_of(b.qs@, i) == mx_code(x[i], e)
            },
            _ => {
                &&& b.e == 0
                &&& forall|i: int| 0 <= i < 32 ==> #[trigger] nibble_of(b.qs@, i) == 0
            },
        }
    }

    open spec fn is_zero(self) -> bool {
        &&& self.e == 0
        &&& forall|i: int| 0 <= i < 16 ==> #[trigger] self.qs@[i] == 0
    }

    fn block_len() -> usize {
        32
    }

    fn zeros() -> Self {
        BlockMxFp4 { e: 0, qs: no_nibbles() }
    }

    fn decode_into(&self, ys: &mut [R], at: usize) {
        write_scaled(self, ys, at)
    }

    fn encode_block(x: &[R]) -> Self {
        let top = amax(x);
        let mut b = BlockMxFp4 { e: 0, qs: no_nibbles() };
        if eq(top, zero::<R>()) {
            return b;
        }
        let first: i64 = log2_floor(top) as i64 - 2 + 127 - 1;
        let mut best = inf::<R>();
        let mut hit: Option<u8> = None;
        for k in 0..3i64
            invariant
                lawful::<R>(),
                x@.len() == 32,
                first == mx_first(x@),
                -0x8000_0000 <= first - 124 <= 0x7fff_ffff,
                (best, hit) == mx_best(x@, first as int, k as nat),
                match hit {
                    Some(e) => b.e == e && forall|i: int|
                        0 <= i < 32 ==> #[trigger] nibble_of(b.qs@, i) == mx_code(x@[i], e),
                    None => b.e == 0 && forall|i: int|
                        0 <= i < 32 ==> #[trigger] nibble_of(b.qs@, i) == 0,
                },
        {
            let candidate: i64 = first + k;
            if 0 <= candidate && candidate <= 255 {
                let e: u8 = candidate as u8;
                if !eq(e8m0_to_fp32_half::<R>(e), zero::<R>()) {
                    let (err, codes) = encode_under(x, e);
                    if lt(err, best) {
                        best = err;
                        hit = Some(e);
                        b = BlockMxFp4 { e, qs: join_nibbles(&codes) };
                        assert forall|i: int| 0 <= i < 32 implies #[trigger] nibble_of(b.qs@, i)
                            == mx_code(x@[i], e) by {
                            assert(codes@[i] < 16);
                        }
                    }
                }
            }
        }
        b
    }
}

/// Block by block: the integer product times the product of the two scales.
pub open spec fn mx_plain_dot<R: Real>(xs: Seq<BlockMxFp4>, ys: Seq<BlockQ8_0>, n: nat) -> R
    decreases n,
{
    if n == 0 {
        rzero::<R>()
    } else {
        let (x, y) = (xs[n - 1], ys[n - 1]);
        radd(
            mx_plain_dot::<R>(xs, ys, (n - 1) as nat),
            rmul(rint(block_dot(x, y) as i32), rmul(e8m0_value::<R>(x.e), rhalf::<R>(y.d))),
        )
    }
}

impl<R: Real> BlockFormat<R> for BlockMxFp4 {
    type ActivationBlock = BlockQ8_0;

    open spec fn dtype_of() -> GgmlDType {
        GgmlDType::MxFp4
    }

    open spec fn dot_of(xs: Seq<Self>, ys: Seq<BlockQ8_0>) -> R {
        lane_dot::<R, BlockMxFp4, BlockQ8_0>(xs, ys, shared(xs.len(), ys.len()))
    }

    open spec fn dot_scalar_of(xs: Seq<Self>, ys: Seq<BlockQ8_0>) -> R {
        mx_plain_dot::<R>(xs, ys, shared(xs.len(), ys.len()))
    }

    fn dtype() -> GgmlDType {
        GgmlDType::MxFp4
    }

    fn dot(xs: &[Self], ys: &[BlockQ8_0]) -> R {
        vec_dot_mxfp4_q8_0(xs, ys)
    }

    fn dot_scalar(xs: &[Self], ys: &[BlockQ8_0]) -> (r: R) {
        let n: usize = if xs.len() <= ys.len() { xs.len() } else { ys.len() };
        let mut acc = zero::<R>();
        for b in 0..n
            invariant
                lawful::<R>(),
                n == shared(xs@.len(), ys@.len()),
                acc == mx_plain_dot::<R>(xs@, ys@, b as nat),
        {
            let scale = times(e8m0_to_fp32_half::<R>(xs[b].e), widen(ys[b].d));
            acc = plus(acc, times(int_to(block_product(&xs[b], &ys[b])), scale));
        }
        acc
    }
}

/// Table codes under a bare exponent against eight-bit activations.
pub fn vec_dot_mxfp4_q8_0<R: Real>(xs: &[BlockMxFp4], ys: &[BlockQ8_0]) -> (r: R)
    requires
        lawful::<R>(),
    ensures
        r == lane_dot::<R, BlockMxFp4, BlockQ8_0>(xs@, ys@, shared(xs@.len(), ys@.len())),
{
    vec_dot(xs, ys)
}

} // verus!
