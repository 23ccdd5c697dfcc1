//! q5_K - q4_K with one more bit per value.
//!
//! The fifth bits live in thirty-two bytes every sub-block reads: bit `s` of byte `i` belongs to
//! value `i` of sub-block `s`.
use vstd::prelude::*;
use crate::arith::{
    Half, Real, lawful, radd, rhalf, rint, rmul, rto_half, rzero, int_to, narrow, neg, plus, times,
    widen, zero,
};
use crate::blocks::{
    BlockFormat, GgmlDType, Quantized, bit, bit_of, k_min, k_packed, k_scale,
    kquant_scales_and_mins, pack_bits,
};
use crate::coded::shared;
use crate::format::q4_k::{
    code_chain, code_total, doubled, fit_six_bit, join_wide, min_lane, min_lanes, pair_min_scale,
    six_bit_mins, six_bit_scales, split_wide, wide_nibble,
};
use crate::format::q8_k::BlockQ8K;
use crate::kfit::{Guided, view_row};
use crate::koffset::{
    Minned, dot_minned, drop_of, encode_minned, minned_code, minned_plain, minned_value, step_of,
    write_minned,
};
use crate::lanes::{fma_lanes, lanes_sum, zero_lanes};
use crate::superblock::{Codes256, lane_of, lane_sums};

verus! {

#[derive(Clone, Copy, Debug)]
pub struct BlockQ5K {
    pub d: Half,
    pub dmin: Half,
    pub scales: [u8; 12],
    pub qh: [u8; 32],
    pub qs: [u8; 128],
}

/// The fifth bit of value `e`.
pub open spec fn plane_bit(qh: Seq<u8>, e: int) -> int {
    bit_of(qh[e % 32], e / 32)
}

/// The five-bit code of value `e`.
pub open spec fn wide_five(qh: Seq<u8>, qs: Seq<u8>, e: int) -> int {
    wide_nibble(qs, e) + 16 * plane_bit(qh, e)
}

/// The fifth bits of 256 codes, folded into thirty-two bytes.
pub fn join_plane(codes: &[u8; 256]) -> (qh: [u8; 32])
    requires
        forall|e: int| 0 <= e < 256 ==> #[trigger] codes@[e] < 32,
    ensures
        forall|e: int| 0 <= e < 256 ==> plane_bit(qh@, e) == #[trigger] codes@[e] / 16,
{
    let mut qh = [0u8; 32];
    for i in 0..32usize
        invariant
            forall|e: int| 0 <= e < 256 ==> #[trigger] codes@[e] < 32,
            forall|k: int, s: int|
                0 <= k < i && 0 <= s < 8 ==> #[trigger] bit_of(qh@[k], s) == codes@[32 * s + k]
                    / 16,
    {
        let v: [u8; 8] = [
            codes[i] / 16,
            codes[32 + i] / 16,
            codes[64 + i] / 16,
            codes[96 + i] / 16,
            codes[128 + i] / 16,
            codes[160 + i] / 16,
            codes[192 + i] / 16,
            codes[224 + i] / 16,
        ];
        let byte = pack_bits(&v);
        let ghost before = qh@;
        qh[i] = byte;
        assert forall|k: int, s: int| 0 <= k < i + 1 && 0 <= s < 8 implies #[trigger] bit_of(
            qh@[k],
            s,
        ) == codes@[32 * s + k] / 16 by {
            if k < i {
                assert(qh@[k] == before[k]);
                assert(bit_of(before[k], s) == codes@[32 * s + k] / 16);
            } else {
                assert(bit_of(byte, s) == v@[s]);
            }
        }
    }
    assert forall|e: int| 0 <= e < 256 implies plane_bit(qh@, e) == #[trigger] codes@[e] / 16 by {
        assert(bit_of(qh@[e % 32], e / 32) == codes@[32 * (e / 32) + e % 32] / 16);
    }
    qh
}

impl Codes256 for BlockQ5K {
    open spec fn code_of(self, e: int) -> int {
        wide_five(self.qh@, self.qs@, e)
    }

    open spec fn sub_scale_of(self, s: int) -> int {
        k_scale(self.scales@, s / 2)
    }

    fn codes(&self) -> (r: [i8; 256]) {
        let raw = split_wide(&self.qs);
        let mut r = [0i8; 256];
        for e in 0..256usize
            invariant
                forall|i: int| 0 <= i < 256 ==> #[trigger] raw@[i] == wide_nibble(self.qs@, i),
                forall|i: int| 0 <= i < 256 ==> #[trigger] raw@[i] < 16,
                forall|i: int| 0 <= i < e ==> #[trigger] r@[i] == self.code_of(i),
        {
            r[e] = (raw[e] + 16 * bit(self.qh[e % 32], e / 32)) as i8;
        }
        r
    }

    fn sub_scales(&self) -> (r: [i8; 16]) {
        let (scales, _mins) = kquant_scales_and_mins(&self.scales);
        doubled(&scales)
    }
}

impl<R: Real> Minned<R> for BlockQ5K {
    open spec fn d_of(self) -> R {
        rhalf(self.d)
    }

    open spec fn dmin_of(self) -> R {
        rhalf(self.dmin)
    }

    open spec fn sub_min_of(self, s: int) -> int {
        k_min(self.scales@, s / 2)
    }

    fn d(&self) -> R {
        widen(self.d)
    }

    fn dmin(&self) -> R {
        widen(self.dmin)
    }

    fn sub_mins(&self) -> (r: [i8; 16]) {
        let (_scales, mins) = kquant_scales_and_mins(&self.scales);
        doubled(&mins)
    }
}

/// Block `b` is what `x` encodes to, under a row of importances or none.
pub open spec fn q5k_encodes<R: Real>(x: Seq<R>, row: Option<Seq<R>>, b: BlockQ5K) -> bool {
    &&& b.d == rto_half(six_bit_scales(x, row, 31).0)
    &&& b.dmin == rto_half(six_bit_mins(x, row, 31).0)
    &&& forall|t: int|
        0 <= t < 12 ==> #[trigger] b.scales@[t] == k_packed(
            six_bit_scales(x, row, 31).1,
            six_bit_mins(x, row, 31).1,
            t,
        )
    &&& forall|e: int|
        0 <= e < 256 ==> #[trigger] wide_five(b.qh@, b.qs@, e) == minned_code(
            x[e],
            step_of::<R, BlockQ5K>(b, e),
            drop_of::<R, BlockQ5K>(b, e),
            31,
        )
}

/// Quantise one block, optionally against a row of importances.
fn encode<R: Real>(x: &[R], row: Option<&[R]>) -> (b: BlockQ5K)
    requires
        lawful::<R>(),
        x@.len() == 256,
        row matches Some(m) ==> m@.len() == 256,
    ensures
        q5k_encodes(x@, view_row(row), b),
{
    let (d, dmin, scales) = fit_six_bit(x, row, 31);
    let mut b = BlockQ5K { d: narrow(d), dmin: narrow(dmin), scales, qh: [0; 32], qs: [0; 128] };
    let sc = b.sub_scales();
    let mn = <BlockQ5K as Minned<R>>::sub_mins(&b);
    let codes = encode_minned(x, widen::<R>(b.d), widen::<R>(b.dmin), &sc, &mn, 31);
    b.qs = join_wide(&codes);
    b.qh = join_plane(&codes);
    assert forall|e: int| 0 <= e < 256 implies #[trigger] wide_five(b.qh@, b.qs@, e)
        == minned_code(
        x@[e],
        step_of::<R, BlockQ5K>(b, e),
        drop_of::<R, BlockQ5K>(b, e),
        31,
    ) by {
        assert(codes@[e] <= 31);
    }
    b
}

impl<R: Real> Quantized<R> for BlockQ5K {
    open spec fn width() -> nat {
        256
    }

    open spec fn value(self, e: int) -> R {
        minned_value::<R, BlockQ5K>(self, e)
    }

    open spec fn encodes(x: Seq<R>, b: Self) -> bool {
        q5k_encodes(x, None, b)
    }

    open spec fn is_zero(self) -> bool {
        &&& self.d.bits == 0
        &&& self.dmin.bits == 0
        &&& forall|t: int| 0 <= t < 12 ==> #[trigger] self.scales@[t] == 0
        &&& forall|j: int| 0 <= j < 32 ==> #[trigger] self.qh@[j] == 0
        &&& forall|j: int| 0 <= j < 128 ==> #[trigger] self.qs@[j] == 0
    }

    fn block_len() -> usize {
        256
    }

    fn zeros() -> Self {
        proof {
            vstd::array::axiom_spec_array_fill_for_copy_type::<u8, 12>(0u8);
            vstd::array::axiom_spec_array_fill_for_copy_type::<u8, 32>(0u8);
            vstd::array::axiom_spec_array_fill_for_copy_type::<u8, 128>(0u8);
        }
        BlockQ5K {
            d: Half::zero(),
            dmin: Half::zero(),
            scales: [0; 12],
            qh: [0; 32],
            qs: [0; 128],
        }
    }

    fn decode_into(&self, ys: &mut [R], at: usize) {
        write_minned(self, ys, at)
    }

    fn encode_block(x: &[R]) -> Self {
        encode(x, None)
    }
}

impl<R: Real> Guided<R> for BlockQ5K {
    open spec fn encodes_guided(x: Seq<R>, w: Seq<R>, b: Self) -> bool {
        q5k_encodes(x, Some(w), b)
    }

    fn encode_guided(x: &[R], w: &[R]) -> Self {
        encode(x, Some(w))
    }
}

/// The minimum terms of the first `n` blocks, each folded to one integer first.
pub open spec fn min_total<R: Real>(xs: Seq<BlockQ5K>, ys: Seq<BlockQ8K<R>>, n: nat) -> R
    decreases n,
{
    if n == 0 {
        rzero::<R>()
    } else {
        let (x, y) = (xs[n - 1], ys[n - 1]);
        let m = |l: int| min_lane::<R, BlockQ5K>(x, y, l);
        radd(
            min_total::<R>(xs, ys, (n - 1) as nat),
            rmul(
                pair_min_scale::<R, BlockQ5K>(x, y),
                rint(((m(0) + m(1)) + (m(2) + m(3))) as i32),
            ),
        )
    }
}

/// The eight code lanes folded, and the minimum terms added at the end.
pub open spec fn q5k_dot<R: Real>(xs: Seq<BlockQ5K>, ys: Seq<BlockQ8K<R>>, n: nat) -> R {
    radd(code_total::<R, BlockQ5K>(xs, ys, n), min_total::<R>(xs, ys, n))
}

/// The product of the first `n` blocks of two runs.
pub fn first_blocks<R: Real>(xs: &[BlockQ5K], ys: &[BlockQ8K<R>], n: usize) -> (r: R)
    requires
        lawful::<R>(),
        n <= xs@.len(),
        n <= ys@.len(),
    ensures
        r == q5k_dot::<R>(xs@, ys@, n as nat),
{
    let mut acc = zero_lanes::<R>();
    let mut from_mins = zero::<R>();
    for b in 0..n
        invariant
            lawful::<R>(),
            n <= xs@.len(),
            n <= ys@.len(),
            forall|l: int|
                0 <= l < 8 ==> #[trigger] acc@[l] == code_chain::<R, BlockQ5K>(
                    xs@,
                    ys@,
                    b as nat,
                    l,
                ),
            from_mins == min_total::<R>(xs@, ys@, b as nat),
    {
        let x = xs[b];
        let y = &ys[b];
        let d = times(y.d, widen(x.d));
        let dmin = times(neg(y.d), widen(x.dmin));
        let mins = min_lanes::<R, BlockQ5K>(&x, y);
        let folded: i32 = (mins[0] + mins[1]) + (mins[2] + mins[3]);
        from_mins = plus(from_mins, times(dmin, int_to(folded)));
        let ints = lane_sums(&x, &y.qs);
        fma_lanes(d, &ints, &mut acc);
        assert forall|l: int| 0 <= l < 8 implies #[trigger] acc@[l] == code_chain::<R, BlockQ5K>(
            xs@,
            ys@,
            (b + 1) as nat,
            l,
        ) by {
            assert(ints@[l] == lane_of(xs@[b as int], ys@[b as int].qs@, l));
        }
    }
    assert(acc@ =~= Seq::new(8, |l: int| code_chain::<R, BlockQ5K>(xs@, ys@, n as nat, l)));
    plus(lanes_sum(&acc), from_mins)
}

/// Five-bit codes with packed scales and minimums against q8_K.
pub fn vec_dot_q5k_q8k<R: Real>(xs: &[BlockQ5K], ys: &[BlockQ8K<R>]) -> (r: R)
    requires
        lawful::<R>(),
    ensures
        r == q5k_dot::<R>(xs@, ys@, shared(xs@.len(), ys@.len())),
{
    let n: usize = if xs.len() <= ys.len() { xs.len() } else { ys.len() };
    first_blocks(xs, ys, n)
}

impl<R: Real> BlockFormat<R> for BlockQ5K {
    type ActivationBlock = BlockQ8K<R>;

    open spec fn dtype_of() -> GgmlDType {
        GgmlDType::Q5K
    }

    open spec fn dot_of(xs: Seq<Self>, ys: Seq<BlockQ8K<R>>) -> R {
        q5k_dot::<R>(xs, ys, shared(xs.len(), ys.len()))
    }

    open spec fn dot_scalar_of(xs: Seq<Self>, ys: Seq<BlockQ8K<R>>) -> R {
        minned_plain::<R, BlockQ5K>(xs, ys, true, shared(xs.len(), ys.len()))
    }

    fn dtype() -> GgmlDType {
        GgmlDType::Q5K
    }

    fn dot(xs: &[Self], ys: &[BlockQ8K<R>]) -> R {
        vec_dot_q5k_q8k(xs, ys)
    }

    fn dot_scalar(xs: &[Self], ys: &[BlockQ8K<R>]) -> R {
        dot_minned(xs, ys, true)
    }
}

} // verus!
