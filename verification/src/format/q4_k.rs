//! q4_K - 256 values, eight sub-blocks of thirty-two, four bits each.
//!
//! `y = d * sc[s] * q - dmin * m[s]`, with the eight scales and eight minimums packed six bits
//! each. Two sub-blocks share a span of thirty-two bytes: the even one in the low nibbles, the odd
//! one in the high.
use vstd::prelude::*;
use crate::arith::{
    Half, Real, lawful, radd, rdiv, rfma, rhalf, rint, rmul, rneg, rto_half, rzero, fma, int_to,
    narrow, neg, over, plus, times, widen, zero,
};
use crate::blocks::{
    BlockFormat, GgmlDType, Quantized, high4, k_min, k_packed, k_scale, kquant_scales_and_mins,
    low4, pack_kquant_scales_and_mins,
};
use crate::coded::shared;
use crate::format::q8_k::BlockQ8K;
use crate::kfit::{
    Guided, fit_groups, quantize_scales, stage_carried, stage_levels, stage_mins, stage_scales,
    view_row,
};
use crate::koffset::{
    Minned, dot_minned, drop_of, encode_minned, minned_code, minned_plain, minned_value, step_of,
    write_minned,
};
use crate::lanes::{fma_lanes, lanes_sum, lanes_total, zero_lanes};
use crate::scale::sum_squares;
use crate::sums::fsum;
use crate::superblock::{Codes256, lane_of, lane_sums};

verus! {

#[derive(Clone, Copy, Debug)]
pub struct BlockQ4K {
    pub d: Half,
    pub dmin: Half,
    pub scales: [u8; 12],
    pub qs: [u8; 128],
}

/// The nibble of value `e`.
pub open spec fn wide_nibble(qs: Seq<u8>, e: int) -> int {
    let byte = qs[32 * (e / 64) + e % 32];
    if (e / 32) % 2 == 0 {
        low4(byte)
    } else {
        high4(byte)
    }
}

/// The 256 nibbles of a block, in value order.
pub fn split_wide(qs: &[u8; 128]) -> (r: [u8; 256])
    ensures
        forall|e: int| 0 <= e < 256 ==> #[trigger] r@[e] == wide_nibble(qs@, e),
        forall|e: int| 0 <= e < 256 ==> #[trigger] r@[e] < 16,
{
    let mut r = [0u8; 256];
    for e in 0..256usize
        invariant
            forall|i: int| 0 <= i < e ==> #[trigger] r@[i] == wide_nibble(qs@, i),
            forall|i: int| 0 <= i < e ==> #[trigger] r@[i] < 16,
    {
        let byte: u8 = qs[32 * (e / 64) + e % 32];
        r[e] = if (e / 32) % 2 == 0 {
            byte % 16
        } else {
            byte / 16
        };
    }
    r
}

/// The 128 bytes whose nibbles are the low four bits of 256 codes.
pub fn join_wide(codes: &[u8; 256]) -> (qs: [u8; 128])
    ensures
        forall|e: int| 0 <= e < 256 ==> wide_nibble(qs@, e) == #[trigger] codes@[e] % 16,
{
    let mut qs = [0u8; 128];
    for j in 0..128usize
        invariant
            forall|k: int|
                0 <= k < j ==> #[trigger] qs@[k] == codes@[64 * (k / 32) + k % 32] % 16 + 16 * (
                codes@[64 * (k / 32) + 32 + k % 32] % 16),
    {
        let at: usize = 64 * (j / 32) + j % 32;
        qs[j] = codes[at] % 16 + 16 * (codes[at + 32] % 16);
    }
    assert forall|e: int| 0 <= e < 256 implies wide_nibble(qs@, e) == #[trigger] codes@[e] % 16 by {
        let k = 32 * (e / 64) + e % 32;
        assert(k / 32 == e / 64 && k % 32 == e % 32);
        assert(qs@[k] == codes@[64 * (k / 32) + k % 32] % 16 + 16 * (codes@[64 * (k / 32) + 32 + k
            % 32] % 16));
        if (e / 32) % 2 == 0 {
            assert(e == 64 * (k / 32) + k % 32);
        } else {
            assert(e == 64 * (k / 32) + 32 + k % 32);
        }
    }
    qs
}

/// Eight values, each twice.
pub fn doubled(v: &[u8; 8]) -> (r: [i8; 16])
    requires
        forall|i: int| 0 <= i < 8 ==> #[trigger] v@[i] < 64,
    ensures
        forall|s: int| 0 <= s < 16 ==> #[trigger] r@[s] == v@[s / 2],
{
    let mut r = [0i8; 16];
    for s in 0..16usize
        invariant
            forall|i: int| 0 <= i < 8 ==> #[trigger] v@[i] < 64,
            forall|k: int| 0 <= k < s ==> #[trigger] r@[k] == v@[k / 2],
    {
        r[s] = v[s / 2] as i8;
    }
    r
}

impl Codes256 for BlockQ4K {
    open spec fn code_of(self, e: int) -> int {
        wide_nibble(self.qs@, e)
    }

    open spec fn sub_scale_of(self, s: int) -> int {
        k_scale(self.scales@, s / 2)
    }

    fn codes(&self) -> (r: [i8; 256]) {
        let raw = split_wide(&self.qs);
        let mut r = [0i8; 256];
        for e in 0..256usize
            invariant
                forall|i: int| 0 <= i < 256 ==> #[trigger] raw@[i] == wide_nibble(self.qs@, i),
                forall|i: int| 0 <= i < 256 ==> #[trigger] raw@[i] < 16,
                forall|i: int| 0 <= i < e ==> #[trigger] r@[i] == self.code_of(i),
        {
            r[e] = raw[e] as i8;
        }
        r
    }

    fn sub_scales(&self) -> (r: [i8; 16]) {
        let (scales, _mins) = kquant_scales_and_mins(&self.scales);
        doubled(&scales)
    }
}

impl<R: Real> Minned<R> for BlockQ4K {
    open spec fn d_of(self) -> R {
        rhalf(self.d)
    }

    open spec fn dmin_of(self) -> R {
        rhalf(self.dmin)
    }

    open spec fn sub_min_of(self, s: int) -> int {
        k_min(self.scales@, s / 2)
    }

    fn d(&self) -> R {
        widen(self.d)
    }

    fn dmin(&self) -> R {
        widen(self.dmin)
    }

    fn sub_mins(&self) -> (r: [i8; 16]) {
        let (_scales, mins) = kquant_scales_and_mins(&self.scales);
        doubled(&mins)
    }
}

/// The variance floor of a block: twice its mean square.
pub open spec fn variance_floor<R: Real>(x: Seq<R>) -> R {
    rdiv(rmul(rint::<R>(2), fsum(256, |i: int| rmul(x[i], x[i]))), rint::<R>(256))
}

/// The variance floor of a block.
pub fn floor_variance<R: Real>(x: &[R]) -> (r: R)
    requires
        lawful::<R>(),
        x@.len() == 256,
    ensures
        r == variance_floor(x@),
{
    over(times(int_to::<R>(2), sum_squares(x)), int_to::<R>(256))
}

/// The block scale and six-bit codes of the eight sub-block scales.
pub open spec fn six_bit_scales<R: Real>(x: Seq<R>, row: Option<Seq<R>>, nmax: int) -> (R, Seq<u8>) {
    let v = variance_floor(x);
    stage_levels(
        63,
        stage_scales(x, row, 32, nmax, v, 8),
        if row is Some {
            Some(stage_carried(x, row, 32, v, 8))
        } else {
            None
        },
    )
}

/// The block scale and six-bit codes of the eight sub-block minimums.
pub open spec fn six_bit_mins<R: Real>(x: Seq<R>, row: Option<Seq<R>>, nmax: int) -> (R, Seq<u8>) {
    let v = variance_floor(x);
    stage_levels(
        63,
        stage_mins(x, row, 32, nmax, v, 8),
        if row is Some {
            Some(stage_carried(x, row, 32, v, 8))
        } else {
            None
        },
    )
}

/// Fit the eight sub-blocks of a q4_K or q5_K block: both block scales and the packed bytes.
pub fn fit_six_bit<R: Real>(x: &[R], row: Option<&[R]>, nmax: i32) -> (r: (R, R, [u8; 12]))
    requires
        lawful::<R>(),
        x@.len() == 256,
        0 <= nmax <= 255,
        row matches Some(m) ==> m@.len() == 256,
    ensures
        r.0 == six_bit_scales(x@, view_row(row), nmax as int).0,
        r.1 == six_bit_mins(x@, view_row(row), nmax as int).0,
        forall|t: int|
            0 <= t < 12 ==> #[trigger] r.2@[t] == k_packed(
                six_bit_scales(x@, view_row(row), nmax as int).1,
                six_bit_mins(x@, view_row(row), nmax as int).1,
                t,
            ),
{
    let v = floor_variance(x);
    let (scales, mins, carried) = fit_groups(x, row, 32, nmax, v, 8);
    let guided: bool = row.is_some();
    let (d, ls) = quantize_scales(63, &scales, &carried, guided);
    let (dmin, lm) = quantize_scales(63, &mins, &carried, guided);
    let sa: [u8; 8] = [ls[0], ls[1], ls[2], ls[3], ls[4], ls[5], ls[6], ls[7]];
    let ma: [u8; 8] = [lm[0], lm[1], lm[2], lm[3], lm[4], lm[5], lm[6], lm[7]];
    let packed = pack_kquant_scales_and_mins(&sa, &ma);
    assert(sa@ =~= ls@);
    assert(ma@ =~= lm@);
    (d, dmin, packed)
}

/// Block `b` is what `x` encodes to, under a row of importances or none.
pub open spec fn q4k_encodes<R: Real>(x: Seq<R>, row: Option<Seq<R>>, b: BlockQ4K) -> bool {
    &&& b.d == rto_half(six_bit_scales(x, row, 15).0)
    &&& b.dmin == rto_half(six_bit_mins(x, row, 15).0)
    &&& forall|t: int|
        0 <= t < 12 ==> #[trigger] b.scales@[t] == k_packed(
            six_bit_scales(x, row, 15).1,
            six_bit_mins(x, row, 15).1,
            t,
        )
    &&& forall|e: int|
        0 <= e < 256 ==> #[trigger] wide_nibble(b.qs@, e) == minned_code(
            x[e],
            step_of::<R, BlockQ4K>(b, e),
            drop_of::<R, BlockQ4K>(b, e),
            15,
        )
}

/// Quantise one block, optionally against a row of importances.
fn encode<R: Real>(x: &[R], row: Option<&[R]>) -> (b: BlockQ4K)
    requires
        lawful::<R>(),
        x@.len() == 256,
        row matches Some(m) ==> m@.len() == 256,
    ensures
        q4k_encodes(x@, view_row(row), b),
{
    let (d, dmin, scales) = fit_six_bit(x, row, 15);
    let mut b = BlockQ4K { d: narrow(d), dmin: narrow(dmin), scales, qs: [0; 128] };
    let sc = b.sub_scales();
    let mn = <BlockQ4K as Minned<R>>::sub_mins(&b);
    let codes = encode_minned(x, widen::<R>(b.d), widen::<R>(b.dmin), &sc, &mn, 15);
    b.qs = join_wide(&codes);
    assert forall|e: int| 0 <= e < 256 implies #[trigger] wide_nibble(b.qs@, e) == minned_code(
        x@[e],
        step_of::<R, BlockQ4K>(b, e),
        drop_of::<R, BlockQ4K>(b, e),
        15,
    ) by {
        assert(codes@[e] <= 15);
    }
    b
}

impl<R: Real> Quantized<R> for BlockQ4K {
    open spec fn width() -> nat {
        256
    }

    open spec fn value(self, e: int) -> R {
        minned_value::<R, BlockQ4K>(self, e)
    }

    open spec fn encodes(x: Seq<R>, b: Self) -> bool {
        q4k_encodes(x, None, b)
    }

    open spec fn is_zero(self) -> bool {
        &&& self.d.bits == 0
        &&& self.dmin.bits == 0
        &&& forall|t: int| 0 <= t < 12 ==> #[trigger] self.scales@[t] == 0
        &&& forall|j: int| 0 <= j < 128 ==> #[trigger] self.qs@[j] == 0
    }

    fn block_len() -> usize {
        256
    }

    fn zeros() -> Self {
        proof {
            vstd::array::axiom_spec_array_fill_for_copy_type::<u8, 12>(0u8);
            vstd::array::axiom_spec_array_fill_for_copy_type::<u8, 128>(0u8);
        }
        BlockQ4K { d: Half::zero(), dmin: Half::zero(), scales: [0; 12], qs: [0; 128] }
    }

    fn decode_into(&self, ys: &mut [R], at: usize) {
        write_minned(self, ys, at)
    }

    fn encode_block(x: &[R]) -> Self {
        encode(x, None)
    }
}

impl<R: Real> Guided<R> for BlockQ4K {
    open spec fn encodes_guided(x: Seq<R>, w: Seq<R>, b: Self) -> bool {
        q4k_encodes(x, Some(w), b)
    }

    fn encode_guided(x: &[R], w: &[R]) -> Self {
        encode(x, Some(w))
    }
}

/// The sum of a sub-block of thirty-two activations.
pub open spec fn wide_sum(bsums: Seq<i16>, s: int) -> int {
    bsums[2 * s] + bsums[2 * s + 1]
}

/// Lane `l` of the four the minimum term is gathered in.
pub open spec fn min_lane<R: Real, B: Minned<R>>(x: B, y: BlockQ8K<R>, l: int) -> int {
    x.sub_min_of(4 * l) * wide_sum(y.bsums@, 2 * l) + x.sub_min_of(4 * l + 2) * wide_sum(
        y.bsums@,
        2 * l + 1,
    )
}

/// The scale of the products of one block.
pub open spec fn pair_scale<R: Real, B: Minned<R>>(x: B, y: BlockQ8K<R>) -> R {
    rmul(y.d, x.d_of())
}

/// The scale of the minimum term of one block.
pub open spec fn pair_min_scale<R: Real, B: Minned<R>>(x: B, y: BlockQ8K<R>) -> R {
    rmul(rneg(y.d), x.dmin_of())
}

/// Lane `l` of the products after the first `n` blocks.
pub open spec fn code_chain<R: Real, B: Minned<R>>(
    xs: Seq<B>,
    ys: Seq<BlockQ8K<R>>,
    n: nat,
    l: int,
) -> R
    decreases n,
{
    if n == 0 {
        rzero::<R>()
    } else {
        rfma(
            pair_scale::<R, B>(xs[n - 1], ys[n - 1]),
            rint(lane_of(xs[n - 1], ys[n - 1].qs@, l) as i32),
            code_chain(xs, ys, (n - 1) as nat, l),
        )
    }
}

/// Lane `l` of the minimum terms after the first `n` blocks.
pub open spec fn min_chain<R: Real, B: Minned<R>>(
    xs: Seq<B>,
    ys: Seq<BlockQ8K<R>>,
    n: nat,
    l: int,
) -> R
    decreases n,
{
    if n == 0 {
        rzero::<R>()
    } else {
        rfma(
            pair_min_scale::<R, B>(xs[n - 1], ys[n - 1]),
            rint(min_lane::<R, B>(xs[n - 1], ys[n - 1], l) as i32),
            min_chain(xs, ys, (n - 1) as nat, l),
        )
    }
}

/// The eight code lanes after `n` blocks, folded.
pub open spec fn code_total<R: Real, B: Minned<R>>(xs: Seq<B>, ys: Seq<BlockQ8K<R>>, n: nat) -> R {
    lanes_total(Seq::new(8, |l: int| code_chain::<R, B>(xs, ys, n, l)))
}

/// The eight code lanes and the four minimum lanes, each folded, then added.
pub open spec fn q4k_dot<R: Real>(xs: Seq<BlockQ4K>, ys: Seq<BlockQ8K<R>>, n: nat) -> R {
    let m = |l: int| min_chain::<R, BlockQ4K>(xs, ys, n, l);
    radd(
        code_total::<R, BlockQ4K>(xs, ys, n),
        radd(radd(m(0), m(2)), radd(m(1), m(3))),
    )
}

/// The sum of a sub-block of thirty-two activations, times its minimum.
fn min_product(m: i8, a: i16, b: i16) -> (r: i32)
    ensures
        r == m * (a + b),
        -0x0080_0000 <= r <= 0x0080_0000,
{
    let s: i32 = a as i32 + b as i32;
    assert(-0x0080_0000 <= m * s <= 0x0080_0000) by (nonlinear_arith)
        requires
            -128 <= m <= 127,
            -65536 <= s <= 65534,
    ;
    m as i32 * s
}

/// The four lanes of the minimum term.
pub fn min_lanes<R: Real, B: Minned<R>>(x: &B, y: &BlockQ8K<R>) -> (r: [i32; 4])
    ensures
        forall|l: int| 0 <= l < 4 ==> #[trigger] r@[l] == min_lane::<R, B>(*x, *y, l),
        forall|l: int| 0 <= l < 4 ==> -0x0100_0000 <= #[trigger] r@[l] <= 0x0100_0000,
{
    let mins = x.sub_mins();
    let mut r = [0i32; 4];
    for l in 0..4usize
        invariant
            forall|s: int| 0 <= s < 16 ==> #[trigger] mins@[s] == x.sub_min_of(s),
            forall|k: int| 0 <= k < l ==> #[trigger] r@[k] == min_lane::<R, B>(*x, *y, k),
            forall|k: int| 0 <= k < l ==> -0x0100_0000 <= #[trigger] r@[k] <= 0x0100_0000,
    {
        let a: i32 = min_product(mins[4 * l], y.bsums[4 * l], y.bsums[4 * l + 1]);
        let b: i32 = min_product(mins[4 * l + 2], y.bsums[4 * l + 2], y.bsums[4 * l + 3]);
        r[l] = a + b;
    }
    r
}

/// Four-bit codes with packed scales and minimums against q8_K.
pub fn vec_dot_q4k_q8k<R: Real>(xs: &[BlockQ4K], ys: &[BlockQ8K<R>]) -> (r: R)
    requires
        lawful::<R>(),
    ensures
        r == q4k_dot::<R>(xs@, ys@, shared(xs@.len(), ys@.len())),
{
    let n: usize = if xs.len() <= ys.len() { xs.len() } else { ys.len() };
    let mut acc = zero_lanes::<R>();
    let mut m0 = zero::<R>();
    let mut m1 = zero::<R>();
    let mut m2 = zero::<R>();
    let mut m3 = zero::<R>();
    for b in 0..n
        invariant
            lawful::<R>(),
            n == shared(xs@.len(), ys@.len()),
            forall|l: int|
                0 <= l < 8 ==> #[trigger] acc@[l] == code_chain::<R, BlockQ4K>(
                    xs@,
                    ys@,
                    b as nat,
                    l,
                ),
            m0 == min_chain::<R, BlockQ4K>(xs@, ys@, b as nat, 0),
            m1 == min_chain::<R, BlockQ4K>(xs@, ys@, b as nat, 1),
            m2 == min_chain::<R, BlockQ4K>(xs@, ys@, b as nat, 2),
            m3 == min_chain::<R, BlockQ4K>(xs@, ys@, b as nat, 3),
    {
        let x = xs[b];
        let y = &ys[b];
        let d = times(y.d, widen(x.d));
        let dmin = times(neg(y.d), widen(x.dmin));
        let mins = min_lanes::<R, BlockQ4K>(&x, y);
        m0 = fma(dmin, int_to(mins[0]), m0);
        m1 = fma(dmin, int_to(mins[1]), m1);
        m2 = fma(dmin, int_to(mins[2]), m2);
        m3 = fma(dmin, int_to(mins[3]), m3);
        let ints = lane_sums(&x, &y.qs);
        fma_lanes(d, &ints, &mut acc);
        assert forall|l: int| 0 <= l < 8 implies #[trigger] acc@[l] == code_chain::<R, BlockQ4K>(
            xs@,
            ys@,
            (b + 1) as nat,
            l,
        ) by {
            assert(ints@[l] == lane_of(xs@[b as int], ys@[b as int].qs@, l));
        }
    }
    assert(acc@ =~= Seq::new(8, |l: int| code_chain::<R, BlockQ4K>(xs@, ys@, n as nat, l)));
    plus(lanes_sum(&acc), plus(plus(m0, m2), plus(m1, m3)))
}

impl<R: Real> BlockFormat<R> for BlockQ4K {
    type ActivationBlock = BlockQ8K<R>;

    open spec fn dtype_of() -> GgmlDType {
        GgmlDType::Q4K
    }

    open spec fn dot_of(xs: Seq<Self>, ys: Seq<BlockQ8K<R>>) -> R {
        q4k_dot::<R>(xs, ys, shared(xs.len(), ys.len()))
    }

    open spec fn dot_scalar_of(xs: Seq<Self>, ys: Seq<BlockQ8K<R>>) -> R {
        minned_plain::<R, BlockQ4K>(xs, ys, true, shared(xs.len(), ys.len()))
    }

    fn dtype() -> GgmlDType {
        GgmlDType::Q4K
    }

    fn dot(xs: &[Self], ys: &[BlockQ8K<R>]) -> R {
        vec_dot_q4k_q8k(xs, ys)
    }

    fn dot_scalar(xs: &[Self], ys: &[BlockQ8K<R>]) -> R {
        dot_minned(xs, ys, true)
    }
}

} // verus!
