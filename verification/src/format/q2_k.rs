//! q2_K - 256 values at two bits each, sixteen to a sub-block.
//!
//! `y = d * sc[s] * q - dmin * m[s]`, each sub-block's scale and minimum sharing one byte, four
//! bits apiece. Within a half of 128 values the eight sub-blocks read the same thirty-two bytes at
//! shifts that advance by two, alternating between its two sixteen-byte spans.
use vstd::prelude::*;
use crate::arith::{
    Half, Real, lawful, rdiv, rfma, rhalf, rint, rmul, rto_half, rzero, int_to, narrow, neg, over,
    times, widen,
};
use crate::blocks::{
    BlockFormat, GgmlDType, Quantized, crumb, crumb_of, high4, low4, pack_crumbs,
};
use crate::coded::shared;
use crate::format::q4_k::{pair_min_scale, pair_scale};
use crate::format::q8_k::BlockQ8K;
use crate::kfit::{
    Guided, fit_groups, quantize_scales, stage_carried, stage_levels, stage_mins, stage_scales,
    view_row,
};
use crate::koffset::{
    Minned, dot_minned, drop_of, encode_minned, minned_code, minned_plain, minned_value, step_of,
    write_minned,
};
use crate::lanes::{fma_lanes, lanes_sum, lanes_total, zero_lanes};
use crate::scale::sum_squares;
use crate::sums::fsum;
use crate::superblock::{Codes256, lane_of, lane_sums, pair_lanes, pair_of};

verus! {

#[derive(Clone, Copy, Debug)]
pub struct BlockQ2K {
    pub scales: [u8; 16],
    pub qs: [u8; 64],
    pub d: Half,
    pub dmin: Half,
}

/// The byte the first value of sub-block `s` lives in, and the shift of its codes.
pub open spec fn placement_of(s: int) -> (int, int) {
    (32 * (s / 8) + 16 * (s % 2), 2 * ((s % 8) / 2))
}

/// Where sub-block `s` reads its codes: the byte its first value lives in, and the shift.
pub fn placement(s: usize) -> (r: (usize, usize))
    requires
        s < 16,
    ensures
        (r.0 as int, r.1 as int) == placement_of(s as int),
        r.0 + 16 <= 64,
        r.1 < 8,
{
    (32 * (s / 8) + 16 * (s % 2), 2 * ((s % 8) / 2))
}

/// The two-bit code of value `e`.
pub open spec fn crumb_code(qs: Seq<u8>, e: int) -> int {
    let (base, shift) = placement_of(e / 16);
    crumb_of(qs[base + e % 16], shift)
}

/// The 256 two-bit codes of a block, in value order.
pub fn split_crumbs(qs: &[u8; 64]) -> (r: [u8; 256])
    ensures
        forall|e: int| 0 <= e < 256 ==> #[trigger] r@[e] == crumb_code(qs@, e),
        forall|e: int| 0 <= e < 256 ==> #[trigger] r@[e] < 4,
{
    let mut r = [0u8; 256];
    for e in 0..256usize
        invariant
            forall|i: int| 0 <= i < e ==> #[trigger] r@[i] == crumb_code(qs@, i),
            forall|i: int| 0 <= i < e ==> #[trigger] r@[i] < 4,
    {
        let (base, shift) = placement(e / 16);
        r[e] = crumb(qs[base + e % 16], shift);
    }
    r
}

/// The sixty-four bytes that hold the low two bits of 256 codes.
pub fn join_crumbs(codes: &[u8; 256]) -> (qs: [u8; 64])
    ensures
        forall|e: int| 0 <= e < 256 ==> crumb_code(qs@, e) == #[trigger] codes@[e] % 4,
{
    let mut qs = [0u8; 64];
    for j in 0..64usize
        invariant
            forall|k: int, q: int|
                0 <= k < j && 0 <= q < 4 ==> #[trigger] crumb_of(qs@[k], 2 * q) == codes@[128 * (k
                    / 32) + 32 * q + k % 32] % 4,
    {
        let at: usize = 128 * (j / 32) + j % 32;
        let byte = pack_crumbs(
            codes[at] % 4,
            codes[at + 32] % 4,
            codes[at + 64] % 4,
            codes[at + 96] % 4,
        );
        let ghost before = qs@;
        qs[j] = byte;
        assert forall|k: int, q: int| 0 <= k < j + 1 && 0 <= q < 4 implies #[trigger] crumb_of(
            qs@[k],
            2 * q,
        ) == codes@[128 * (k / 32) + 32 * q + k % 32] % 4 by {
            if k < j {
                assert(qs@[k] == before[k]);
                assert(crumb_of(before[k], 2 * q) == codes@[128 * (k / 32) + 32 * q + k % 32] % 4);
            } else {
                assert(q == 0 || q == 1 || q == 2 || q == 3);
            }
        }
    }
    assert forall|e: int| 0 <= e < 256 implies crumb_code(qs@, e) == #[trigger] codes@[e] % 4 by {
        lemma_crumb_place(e);
        let (base, shift) = placement_of(e / 16);
        let k = base + e % 16;
        let q = shift / 2;
        assert(crumb_of(qs@[k], 2 * q) == codes@[128 * (k / 32) + 32 * q + k % 32] % 4);
    }
    qs
}

/// A value's byte and shift name it: half, thirty-two within the half, and place among them.
proof fn lemma_crumb_place(e: int)
    requires
        0 <= e < 256,
    ensures
        ({
            let (base, shift) = placement_of(e / 16);
            let k = base + e % 16;
            &&& 0 <= k < 64
            &&& shift == 2 * (shift / 2)
            &&& 0 <= shift / 2 < 4
            &&& e == 128 * (k / 32) + 32 * (shift / 2) + k % 32
        }),
{
    let s = e / 16;
    let half = s / 8;
    let t = s % 8;
    assert(s % 2 == t % 2);
    assert(e == 16 * s + e % 16);
    assert(s == 8 * half + t);
    assert(t == 2 * (t / 2) + t % 2);
    let k = 32 * half + 16 * (t % 2) + e % 16;
    assert(k / 32 == half && k % 32 == 16 * (t % 2) + e % 16);
}

impl Codes256 for BlockQ2K {
    open spec fn code_of(self, e: int) -> int {
        crumb_code(self.qs@, e)
    }

    open spec fn sub_scale_of(self, s: int) -> int {
        low4(self.scales@[s])
    }

    fn codes(&self) -> (r: [i8; 256]) {
        let raw = split_crumbs(&self.qs);
        let mut r = [0i8; 256];
        for e in 0..256usize
            invariant
                forall|i: int| 0 <= i < 256 ==> #[trigger] raw@[i] == crumb_code(self.qs@, i),
                forall|i: int| 0 <= i < 256 ==> #[trigger] raw@[i] < 4,
                forall|i: int| 0 <= i < e ==> #[trigger] r@[i] == self.code_of(i),
        {
            r[e] = raw[e] as i8;
        }
        r
    }

    fn sub_scales(&self) -> (r: [i8; 16]) {
        let mut r = [0i8; 16];
        for s in 0..16usize
            invariant
                forall|k: int| 0 <= k < s ==> #[trigger] r@[k] == low4(self.scales@[k]),
        {
            r[s] = (self.scales[s] % 16) as i8;
        }
        r
    }
}

impl<R: Real> Minned<R> for BlockQ2K {
    open spec fn d_of(self) -> R {
        rhalf(self.d)
    }

    open spec fn dmin_of(self) -> R {
        rhalf(self.dmin)
    }

    open spec fn sub_min_of(self, s: int) -> int {
        high4(self.scales@[s])
    }

    fn d(&self) -> R {
        widen(self.d)
    }

    fn dmin(&self) -> R {
        widen(self.dmin)
    }

    fn sub_mins(&self) -> (r: [i8; 16]) {
        let mut r = [0i8; 16];
        for s in 0..16usize
            invariant
                forall|k: int| 0 <= k < s ==> #[trigger] r@[k] == high4(self.scales@[k]),
        {
            r[s] = (self.scales[s] / 16) as i8;
        }
        r
    }
}

/// The variance floor of this format's fit: the mean square itself.
pub open spec fn mean_square<R: Real>(x: Seq<R>) -> R {
    rdiv(fsum(256, |i: int| rmul(x[i], x[i])), rint::<R>(256))
}

/// The block scale and four-bit codes of the sixteen sub-block scales.
pub open spec fn four_bit_scales<R: Real>(x: Seq<R>, row: Option<Seq<R>>) -> (R, Seq<u8>) {
    let v = mean_square(x);
    stage_levels(
        15,
        stage_scales(x, row, 16, 3, v, 16),
        if row is Some {
            Some(stage_carried(x, row, 16, v, 16))
        } else {
            None
        },
    )
}

/// The block scale and four-bit codes of the sixteen sub-block minimums.
pub open spec fn four_bit_mins<R: Real>(x: Seq<R>, row: Option<Seq<R>>) -> (R, Seq<u8>) {
    let v = mean_square(x);
    stage_levels(
        15,
        stage_mins(x, row, 16, 3, v, 16),
        if row is Some {
            Some(stage_carried(x, row, 16, v, 16))
        } else {
            None
        },
    )
}

/// Block `b` is what `x` encodes to, under a row of importances or none.
pub open spec fn q2k_encodes<R: Real>(x: Seq<R>, row: Option<Seq<R>>, b: BlockQ2K) -> bool {
    &&& b.d == rto_half(four_bit_scales(x, row).0)
    &&& b.dmin == rto_half(four_bit_mins(x, row).0)
    &&& forall|s: int|
        0 <= s < 16 ==> #[trigger] b.scales@[s] == four_bit_scales(x, row).1[s] | (four_bit_mins(
            x,
            row,
        ).1[s] << 4u8)
    &&& forall|e: int|
        0 <= e < 256 ==> #[trigger] crumb_code(b.qs@, e) == minned_code(
            x[e],
            step_of::<R, BlockQ2K>(b, e),
            drop_of::<R, BlockQ2K>(b, e),
            3,
        )
}

/// Quantise one block, optionally against a row of importances.
fn encode<R: Real>(x: &[R], row: Option<&[R]>) -> (b: BlockQ2K)
    requires
        lawful::<R>(),
        x@.len() == 256,
        row matches Some(m) ==> m@.len() == 256,
    ensures
        q2k_encodes(x@, view_row(row), b),
{
    let v = over(sum_squares(x), int_to::<R>(256));
    let (scales, mins, carried) = fit_groups(x, row, 16, 3, v, 16);
    let guided: bool = row.is_some();
    let (d, ls) = quantize_scales(15, &scales, &carried, guided);
    let (dmin, lm) = quantize_scales(15, &mins, &carried, guided);
    let mut packed = [0u8; 16];
    for s in 0..16usize
        invariant
            ls@.len() == 16,
            lm@.len() == 16,
            forall|k: int|
                0 <= k < s ==> #[trigger] packed@[k] == ls@[k] | (lm@[k] << 4u8),
    {
        packed[s] = ls[s] | (lm[s] << 4u8);
    }
    let mut b = BlockQ2K { scales: packed, qs: [0; 64], d: narrow(d), dmin: narrow(dmin) };
    let sc = b.sub_scales();
    let mn = <BlockQ2K as Minned<R>>::sub_mins(&b);
    let codes = encode_minned(x, widen::<R>(b.d), widen::<R>(b.dmin), &sc, &mn, 3);
    b.qs = join_crumbs(&codes);
    assert forall|e: int| 0 <= e < 256 implies #[trigger] crumb_code(b.qs@, e) == minned_code(
        x@[e],
        step_of::<R, BlockQ2K>(b, e),
        drop_of::<R, BlockQ2K>(b, e),
        3,
    ) by {
        assert(codes@[e] <= 3);
    }
    b
}

impl<R: Real> Quantized<R> for BlockQ2K {
    open spec fn width() -> nat {
        256
    }

    open spec fn value(self, e: int) -> R {
        minned_value::<R, BlockQ2K>(self, e)
    }

    open spec fn encodes(x: Seq<R>, b: Self) -> bool {
        q2k_encodes(x, None, b)
    }

    open spec fn is_zero(self) -> bool {
        &&& self.d.bits == 0
        &&& self.dmin.bits == 0
        &&& forall|t: int| 0 <= t < 16 ==> #[trigger] self.scales@[t] == 0
        &&& forall|j: int| 0 <= j < 64 ==> #[trigger] self.qs@[j] == 0
    }

    fn block_len() -> usize {
        256
    }

    fn zeros() -> Self {
        proof {
            vstd::array::axiom_spec_array_fill_for_copy_type::<u8, 16>(0u8);
            vstd::array::axiom_spec_array_fill_for_copy_type::<u8, 64>(0u8);
        }
        BlockQ2K { scales: [0; 16], qs: [0; 64], d: Half::zero(), dmin: Half::zero() }
    }

    fn decode_into(&self, ys: &mut [R], at: usize) {
        write_minned(self, ys, at)
    }

    fn encode_block(x: &[R]) -> Self {
        encode(x, None)
    }
}

impl<R: Real> Guided<R> for BlockQ2K {
    open spec fn encodes_guided(x: Seq<R>, w: Seq<R>, b: Self) -> bool {
        q2k_encodes(x, Some(w), b)
    }

    fn encode_guided(x: &[R], w: &[R]) -> Self {
        encode(x, Some(w))
    }
}

/// Lane `l` of the minimum term: two sub-blocks' minimums against their sums.
pub open spec fn narrow_min_lane<R: Real>(x: BlockQ2K, y: BlockQ8K<R>, l: int) -> int {
    high4(x.scales@[2 * l]) * y.bsums@[2 * l] + high4(x.scales@[2 * l + 1]) * y.bsums@[2 * l + 1]
}

/// Lane `l` after the first `n` blocks: each adds its minimum term and then its products.
pub open spec fn q2k_chain<R: Real>(
    xs: Seq<BlockQ2K>,
    ys: Seq<BlockQ8K<R>>,
    n: nat,
    l: int,
) -> R
    decreases n,
{
    if n == 0 {
        rzero::<R>()
    } else {
        let (x, y) = (xs[n - 1], ys[n - 1]);
        rfma(
            pair_scale::<R, BlockQ2K>(x, y),
            rint(lane_of(x, y.qs@, l) as i32),
            rfma(
                pair_min_scale::<R, BlockQ2K>(x, y),
                rint(narrow_min_lane::<R>(x, y, l) as i32),
                q2k_chain::<R>(xs, ys, (n - 1) as nat, l),
            ),
        )
    }
}

/// Two-bit codes with four-bit scales and minimums against q8_K.
pub fn vec_dot_q2k_q8k<R: Real>(xs: &[BlockQ2K], ys: &[BlockQ8K<R>]) -> (r: R)
    requires
        lawful::<R>(),
    ensures
        r == lanes_total(
            Seq::new(8, |l: int| q2k_chain::<R>(xs@, ys@, shared(xs@.len(), ys@.len()), l)),
        ),
{
    let n: usize = if xs.len() <= ys.len() { xs.len() } else { ys.len() };
    let mut acc = zero_lanes::<R>();
    for b in 0..n
        invariant
            lawful::<R>(),
            n == shared(xs@.len(), ys@.len()),
            forall|l: int|
                0 <= l < 8 ==> #[trigger] acc@[l] == q2k_chain::<R>(xs@, ys@, b as nat, l),
    {
        let x = xs[b];
        let y = &ys[b];
        let mins = <BlockQ2K as Minned<R>>::sub_mins(&x);
        let from_mins = pair_lanes(&mins, &y.bsums);
        let ghost before = acc@;
        fma_lanes(times(neg(y.d), widen(x.dmin)), &from_mins, &mut acc);
        let ghost mid = acc@;
        let ints = lane_sums(&x, &y.qs);
        fma_lanes(times(y.d, widen(x.d)), &ints, &mut acc);
        assert forall|l: int| 0 <= l < 8 implies #[trigger] acc@[l] == q2k_chain::<R>(
            xs@,
            ys@,
            (b + 1) as nat,
            l,
        ) by {
            assert(before[l] == q2k_chain::<R>(xs@, ys@, b as nat, l));
            assert(ints@[l] == lane_of(xs@[b as int], ys@[b as int].qs@, l));
            assert(from_mins@[l] == pair_of(mins@, y.bsums@, l));
            assert(from_mins@[l] == narrow_min_lane::<R>(x, *y, l));
            assert(mid[l] == rfma(
                pair_min_scale::<R, BlockQ2K>(x, *y),
                rint(from_mins@[l]),
                before[l],
            ));
        }
    }
    assert(acc@ =~= Seq::new(8, |l: int| q2k_chain::<R>(xs@, ys@, n as nat, l)));
    lanes_sum(&acc)
}

impl<R: Real> BlockFormat<R> for BlockQ2K {
    type ActivationBlock = BlockQ8K<R>;

    open spec fn dtype_of() -> GgmlDType {
        GgmlDType::Q2K
    }

    open spec fn dot_of(xs: Seq<Self>, ys: Seq<BlockQ8K<R>>) -> R {
        lanes_total(Seq::new(8, |l: int| q2k_chain::<R>(xs, ys, shared(xs.len(), ys.len()), l)))
    }

    open spec fn dot_scalar_of(xs: Seq<Self>, ys: Seq<BlockQ8K<R>>) -> R {
        minned_plain::<R, BlockQ2K>(xs, ys, false, shared(xs.len(), ys.len()))
    }

    fn dtype() -> GgmlDType {
        GgmlDType::Q2K
    }

    fn dot(xs: &[Self], ys: &[BlockQ8K<R>]) -> R {
        vec_dot_q2k_q8k(xs, ys)
    }

    fn dot_scalar(xs: &[Self], ys: &[BlockQ8K<R>]) -> R {
        dot_minned(xs, ys, false)
    }
}

} // verus!
