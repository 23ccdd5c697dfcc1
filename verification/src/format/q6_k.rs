//! q6_K - 256 values at six bits each, sixteen to a sub-block.
//!
//! `y = d * sc[s] * (q - 32)`. The low four bits live in `ql`, two values to a byte, and the top
//! two in `qh`, four values to a byte: within a half of 128 values the four groups of thirty-two
//! read the same bytes of `qh` at advancing shifts, and alternate between the two spans of `ql`
//! and between its nibbles.
use vstd::prelude::*;
use crate::arith::{
    Half, Real, lawful, rabs, radd, rdiv, req, rfma, rhalf, rint, rmul, rneg, rround, rto_half,
    rzero, eq, int_to, narrow, nearest_int, neg, over, plus, times, widen, zero,
};
use crate::blocks::{
    BlockFormat, GgmlDType, Quantized, crumb, crumb_of, high4, low4, pack_crumbs,
};
use crate::coded::shared;
use crate::format::q8_k::{BlockQ8K, bsum_of, bsums_hold};
use crate::kfit::{Guided, group_of, view_row};
use crate::lanes::{fma_lanes, lanes_sum, lanes_total, zero_lanes};
use crate::scale::{
    clamp, clamped, extreme, extreme_of, fit_signed_scale, magnitude_weights, rms_of, signed_fit,
    signed_fit_levels,
};
use crate::sums::{fsum, isum, lemma_isum_eq, lemma_isum_plus, lemma_isum_scale};
use crate::superblock::{
    Codes256, lane_of, lane_sums, lanes_hold_every_product, pair_lanes, pair_of, scaled_dot,
    sub_dot, sub_dots,
};

verus! {

#[derive(Clone, Copy, Debug)]
pub struct BlockQ6K {
    pub ql: [u8; 128],
    pub qh: [u8; 64],
    pub scales: [i8; 16],
    pub d: Half,
}

/// The biased six-bit code of value `e`.
pub open spec fn six_bits(ql: Seq<u8>, qh: Seq<u8>, e: int) -> int {
    let half = e / 128;
    let g = (e % 128) / 32;
    let l = e % 32;
    let byte = ql[64 * half + 32 * (g % 2) + l];
    (if g < 2 {
        low4(byte)
    } else {
        high4(byte)
    }) + 16 * crumb_of(qh[32 * half + l], 2 * g)
}

impl Codes256 for BlockQ6K {
    open spec fn code_of(self, e: int) -> int {
        six_bits(self.ql@, self.qh@, e)
    }

    open spec fn sub_scale_of(self, s: int) -> int {
        self.scales@[s] as int
    }

    fn codes(&self) -> (r: [i8; 256]) {
        let mut r = [0i8; 256];
        for e in 0..256usize
            invariant
                forall|i: int| 0 <= i < e ==> #[trigger] r@[i] == self.code_of(i),
        {
            let half: usize = e / 128;
            let g: usize = (e % 128) / 32;
            let l: usize = e % 32;
            let byte: u8 = self.ql[64 * half + 32 * (g % 2) + l];
            let low: u8 = if g < 2 { byte % 16 } else { byte / 16 };
            r[e] = (low + 16 * crumb(self.qh[32 * half + l], 2 * g)) as i8;
        }
        r
    }

    fn sub_scales(&self) -> (r: [i8; 16]) {
        self.scales
    }
}

/// The same block read with its zero point already taken off each code.
#[derive(Clone, Copy, Debug)]
pub struct Centred {
    pub b: BlockQ6K,
}

impl Codes256 for Centred {
    open spec fn code_of(self, e: int) -> int {
        self.b.code_of(e) - 32
    }

    open spec fn sub_scale_of(self, s: int) -> int {
        self.b.sub_scale_of(s)
    }

    fn codes(&self) -> (r: [i8; 256]) {
        let raw = self.b.codes();
        let mut r = [0i8; 256];
        for e in 0..256usize
            invariant
                forall|i: int| 0 <= i < 256 ==> #[trigger] raw@[i] == self.b.code_of(i),
                forall|i: int| 0 <= i < e ==> #[trigger] r@[i] == self.code_of(i),
        {
            let q: i8 = raw[e];
            assert(0 <= q < 64);
            r[e] = q - 32;
        }
        r
    }

    fn sub_scales(&self) -> (r: [i8; 16]) {
        self.b.scales
    }
}

/// The four spans of six-bit codes folded into `ql` and `qh`.
pub fn join_sixes(codes: &[u8; 256]) -> (r: ([u8; 128], [u8; 64]))
    requires
        forall|e: int| 0 <= e < 256 ==> #[trigger] codes@[e] < 64,
    ensures
        forall|e: int| 0 <= e < 256 ==> six_bits(r.0@, r.1@, e) == #[trigger] codes@[e],
{
    let mut ql = [0u8; 128];
    let mut qh = [0u8; 64];
    for j in 0..128usize
        invariant
            forall|k: int|
                0 <= k < j ==> low4(#[trigger] ql@[k]) == codes@[128 * (k / 64) + k % 64] % 16,
            forall|k: int|
                0 <= k < j ==> high4(#[trigger] ql@[k]) == codes@[128 * (k / 64) + 64 + k % 64]
                    % 16,
    {
        let at: usize = 128 * (j / 64) + j % 64;
        ql[j] = codes[at] % 16 + 16 * (codes[at + 64] % 16);
    }
    for j in 0..64usize
        invariant
            forall|e: int| 0 <= e < 256 ==> #[trigger] codes@[e] < 64,
            forall|k: int, q: int|
                0 <= k < j && 0 <= q < 4 ==> #[trigger] crumb_of(qh@[k], 2 * q) == codes@[128 * (k
                    / 32) + 32 * q + k % 32] / 16,
    {
        let at: usize = 128 * (j / 32) + j % 32;
        let byte = pack_crumbs(
            codes[at] / 16,
            codes[at + 32] / 16,
            codes[at + 64] / 16,
            codes[at + 96] / 16,
        );
        let ghost before = qh@;
        qh[j] = byte;
        assert forall|k: int, q: int| 0 <= k < j + 1 && 0 <= q < 4 implies #[trigger] crumb_of(
            qh@[k],
            2 * q,
        ) == codes@[128 * (k / 32) + 32 * q + k % 32] / 16 by {
            if k < j {
                assert(qh@[k] == before[k]);
                assert(crumb_of(before[k], 2 * q) == codes@[128 * (k / 32) + 32 * q + k % 32] / 16);
            } else {
                assert(q == 0 || q == 1 || q == 2 || q == 3);
            }
        }
    }
    assert forall|e: int| 0 <= e < 256 implies six_bits(ql@, qh@, e) == #[trigger] codes@[e] by {
        let half = e / 128;
        let g = (e % 128) / 32;
        let l = e % 32;
        assert(e == 128 * half + 32 * g + l);
        let k = 64 * half + 32 * (g % 2) + l;
        assert(k / 64 == half && k % 64 == 32 * (g % 2) + l);
        let h = 32 * half + l;
        assert(h / 32 == half && h % 32 == l);
        assert(crumb_of(qh@[h], 2 * g) == codes@[128 * (h / 32) + 32 * g + h % 32] / 16);
        assert(low4(ql@[k]) == codes@[128 * (k / 64) + k % 64] % 16);
        assert(high4(ql@[k]) == codes@[128 * (k / 64) + 64 + k % 64] % 16);
    }
    (ql, qh)
}

/// The weights group `g` is fitted with: the importances themselves, or the magnitudes.
pub open spec fn q6k_weight<R: Real>(x: Seq<R>, row: Option<Seq<R>>, g: int) -> Seq<R> {
    let xg = group_of(x, 16, g);
    match row {
        Some(m) => group_of(m, 16, g),
        None => Seq::new(16, |i: int| radd(rms_of(xg, 16), rabs(xg[i]))),
    }
}

/// The sixteen fitted scales.
pub open spec fn q6k_fits<R: Real>(x: Seq<R>, row: Option<Seq<R>>) -> Seq<R> {
    Seq::new(16, |g: int| signed_fit(32, group_of(x, 16, g), q6k_weight(x, row, g)))
}

/// The inverse of the block scale: the extreme group scale on -128.
pub open spec fn q6k_inverse<R: Real>(x: Seq<R>, row: Option<Seq<R>>) -> R {
    rdiv(rneg(rint::<R>(128)), extreme_of(q6k_fits(x, row), 16))
}

/// Group scale `g` as eight bits.
pub open spec fn q6k_scale<R: Real>(x: Seq<R>, row: Option<Seq<R>>, g: int) -> i8 {
    let q = rround(rmul(q6k_inverse(x, row), q6k_fits(x, row)[g]));
    if q > 127 {
        127
    } else {
        q as i8
    }
}

/// The step of value `e`.
pub open spec fn q6k_step<R: Real>(b: BlockQ6K, e: int) -> R {
    rmul(rhalf::<R>(b.d), rint(b.scales@[e / 16] as i32))
}

/// The biased code of value `e`: against the scale as it was rounded into the block, or the fitted
/// level where that scale rounded to zero.
pub open spec fn q6k_code<R: Real>(x: Seq<R>, row: Option<Seq<R>>, step: R, e: int) -> int {
    if req(step, rzero::<R>()) {
        signed_fit_levels(32, group_of(x, 16, e / 16), q6k_weight(x, row, e / 16))[e % 16] as int
    } else {
        clamped(rround(rdiv(x[e], step)) as int, -32, 31) + 32
    }
}

/// Block `b` is what `x` encodes to, under a row of importances or none.
pub open spec fn q6k_encodes<R: Real>(x: Seq<R>, row: Option<Seq<R>>, b: BlockQ6K) -> bool {
    if req(extreme_of(q6k_fits(x, row), 16), rzero::<R>()) {
        &&& b.d == rto_half(rzero::<R>())
        &&& forall|s: int| 0 <= s < 16 ==> #[trigger] b.scales@[s] == 0
        &&& forall|e: int| 0 <= e < 256 ==> #[trigger] six_bits(b.ql@, b.qh@, e) == 0
    } else {
        &&& b.d == rto_half(rdiv(rint::<R>(1), q6k_inverse(x, row)))
        &&& forall|s: int| 0 <= s < 16 ==> #[trigger] b.scales@[s] == q6k_scale(x, row, s)
        &&& forall|e: int|
            0 <= e < 256 ==> #[trigger] six_bits(b.ql@, b.qh@, e) == q6k_code(
                x,
                row,
                q6k_step::<R>(b, e),
                e,
            )
    }
}

/// Quantise one block, optionally against a row of importances.
fn encode<R: Real>(x: &[R], row: Option<&[R]>) -> (b: BlockQ6K)
    requires
        lawful::<R>(),
        x@.len() == 256,
        row matches Some(m) ==> m@.len() == 256,
    ensures
        q6k_encodes(x@, view_row(row), b),
{
    let ghost r = view_row(row);
    let mut fits: Vec<R> = Vec::with_capacity(16);
    let mut codes = [0u8; 256];
    for g in 0..16usize
        invariant
            lawful::<R>(),
            x@.len() == 256,
            r == view_row(row),
            row matches Some(m) ==> m@.len() == 256,
            fits@.len() == g,
            forall|k: int|
                0 <= k < g ==> #[trigger] fits@[k] == signed_fit(
                    32,
                    group_of(x@, 16, k),
                    q6k_weight(x@, r, k),
                ),
            forall|e: int|
                0 <= e < 16 * g ==> #[trigger] codes@[e] == signed_fit_levels(
                    32,
                    group_of(x@, 16, e / 16),
                    q6k_weight(x@, r, e / 16),
                )[e % 16],
            forall|e: int| 0 <= e < 16 * g ==> #[trigger] codes@[e] < 64,
    {
        let at: usize = 16 * g;
        let xg = &x[at..at + 16];
        assert(xg@ =~= group_of(x@, 16, g as int));
        let (s, ls) = match row {
            Some(m) => {
                let w = &m[at..at + 16];
                assert(w@ =~= q6k_weight(x@, r, g as int));
                fit_signed_scale(32, xg, w)
            },
            None => {
                let w = magnitude_weights(xg);
                assert(w@ =~= q6k_weight(x@, r, g as int));
                fit_signed_scale(32, xg, &w)
            },
        };
        fits.push(s);
        for i in 0..16usize
            invariant
                0 <= g < 16,
                at == 16 * g,
                ls@.len() == 16,
                forall|k: int| 0 <= k < 16 ==> 0 <= #[trigger] ls@[k] < 64,
                ls@ == signed_fit_levels(
                    32,
                    group_of(x@, 16, g as int),
                    q6k_weight(x@, r, g as int),
                ),
                forall|e: int|
                    0 <= e < at + i ==> #[trigger] codes@[e] == signed_fit_levels(
                        32,
                        group_of(x@, 16, e / 16),
                        q6k_weight(x@, r, e / 16),
                    )[e % 16],
                forall|e: int| 0 <= e < at + i ==> #[trigger] codes@[e] < 64,
        {
            codes[at + i] = ls[i] as u8;
        }
    }
    assert(fits@ =~= q6k_fits(x@, r));
    let top = extreme(&fits);
    if eq(top, zero::<R>()) {
        let none = [0u8; 256];
        proof {
            vstd::array::axiom_spec_array_fill_for_copy_type::<u8, 256>(0u8);
            vstd::array::axiom_spec_array_fill_for_copy_type::<i8, 16>(0i8);
        }
        let (ql, qh) = join_sixes(&none);
        assert forall|e: int| 0 <= e < 256 implies #[trigger] six_bits(ql@, qh@, e) == 0 by {
            assert(none@[e] == 0);
        }
        return BlockQ6K { ql, qh, scales: [0; 16], d: narrow(zero::<R>()) };
    }
    let inv = over(neg(int_to::<R>(128)), top);
    let half = narrow(over(int_to::<R>(1), inv));
    let dr = widen::<R>(half);
    let mut scales = [0i8; 16];
    for g in 0..16usize
        invariant
            lawful::<R>(),
            fits@ == q6k_fits(x@, r),
            inv == q6k_inverse(x@, r),
            forall|k: int| 0 <= k < g ==> #[trigger] scales@[k] == q6k_scale(x@, r, k),
    {
        let q: i32 = nearest_int(times(inv, fits[g]));
        scales[g] = if q > 127 {
            127
        } else {
            q as i8
        };
    }
    for e in 0..256usize
        invariant
            lawful::<R>(),
            x@.len() == 256,
            forall|i: int|
                0 <= i < e ==> #[trigger] codes@[i] == q6k_code(
                    x@,
                    r,
                    rmul(dr, rint(scales@[i / 16] as i32)),
                    i,
                ),
            forall|i: int|
                e <= i < 256 ==> #[trigger] codes@[i] == signed_fit_levels(
                    32,
                    group_of(x@, 16, i / 16),
                    q6k_weight(x@, r, i / 16),
                )[i % 16],
            forall|i: int| 0 <= i < 256 ==> #[trigger] codes@[i] < 64,
    {
        let step = times(dr, int_to(scales[e / 16] as i32));
        if !eq(step, zero::<R>()) {
            codes[e] = (clamp(nearest_int(over(x[e], step)), -32, 31) + 32) as u8;
        }
    }
    let (ql, qh) = join_sixes(&codes);
    let b = BlockQ6K { ql, qh, scales, d: half };
    assert forall|e: int| 0 <= e < 256 implies #[trigger] six_bits(b.ql@, b.qh@, e) == q6k_code(
        x@,
        r,
        q6k_step::<R>(b, e),
        e,
    ) by {
        assert(codes@[e] < 64);
    }
    b
}

impl<R: Real> Quantized<R> for BlockQ6K {
    open spec fn width() -> nat {
        256
    }

    open spec fn value(self, e: int) -> R {
        rmul(q6k_step::<R>(self, e), rint((self.code_of(e) - 32) as i32))
    }

    open spec fn encodes(x: Seq<R>, b: Self) -> bool {
        q6k_encodes(x, None, b)
    }

    open spec fn is_zero(self) -> bool {
        &&& self.d.bits == 0
        &&& forall|s: int| 0 <= s < 16 ==> #[trigger] self.scales@[s] == 0
        &&& forall|j: int| 0 <= j < 128 ==> #[trigger] self.ql@[j] == 0
        &&& forall|j: int| 0 <= j < 64 ==> #[trigger] self.qh@[j] == 0
    }

    fn block_len() -> usize {
        256
    }

    fn zeros() -> Self {
        proof {
            vstd::array::axiom_spec_array_fill_for_copy_type::<i8, 16>(0i8);
            vstd::array::axiom_spec_array_fill_for_copy_type::<u8, 128>(0u8);
            vstd::array::axiom_spec_array_fill_for_copy_type::<u8, 64>(0u8);
        }
        BlockQ6K { ql: [0; 128], qh: [0; 64], scales: [0; 16], d: Half::zero() }
    }

    fn decode_into(&self, ys: &mut [R], at: usize) {
        let ghost start = ys@;
        let total: usize = ys.len();
        let d: R = widen(self.d);
        let c = Centred { b: *self };
        let codes = c.codes();
        for e in 0..256usize
            invariant
                lawful::<R>(),
                d == rhalf::<R>(self.d),
                c.b == *self,
                forall|i: int| 0 <= i < 256 ==> #[trigger] codes@[i] == c.code_of(i),
                total == ys@.len(),
                start.len() == total,
                at + 256 <= total,
                forall|i: int|
                    0 <= i < total ==> #[trigger] ys@[i] == (if at <= i < at + e {
                        self.value(i - at)
                    } else {
                        start[i]
                    }),
        {
            let step = times(d, int_to(self.scales[e / 16] as i32));
            ys[at + e] = times(step, int_to(codes[e] as i32));
        }
    }

    fn encode_block(x: &[R]) -> Self {
        encode(x, None)
    }
}

impl<R: Real> Guided<R> for BlockQ6K {
    open spec fn encodes_guided(x: Seq<R>, w: Seq<R>, b: Self) -> bool {
        q6k_encodes(x, Some(w), b)
    }

    fn encode_guided(x: &[R], w: &[R]) -> Self {
        encode(x, Some(w))
    }
}

/// One block of the plain product, the zero point taken off each code.
pub open spec fn q6k_term<R: Real>(x: BlockQ6K, y: BlockQ8K<R>) -> R {
    let c = Centred { b: x };
    let dot = fsum(
        16,
        |s: int| rmul(rint::<R>(sub_dot(c, y.qs@, s) as i32), rint(x.scales@[s] as i32)),
    );
    rmul(rmul(dot, rhalf::<R>(x.d)), y.d)
}

fn dot_block<R: Real>(x: &BlockQ6K, y: &BlockQ8K<R>) -> (r: R)
    requires
        lawful::<R>(),
    ensures
        r == q6k_term::<R>(*x, *y),
{
    let c = Centred { b: *x };
    let dots = sub_dots(&c, &y.qs);
    let ghost f = |s: int|
        rmul(rint::<R>(sub_dot(c, y.qs@, s) as i32), rint(x.scales@[s] as i32));
    let mut dot = zero::<R>();
    for s in 0..16usize
        invariant
            lawful::<R>(),
            forall|k: int| 0 <= k < 16 ==> #[trigger] dots@[k] == sub_dot(c, y.qs@, k),
            f == (|s: int|
                rmul(rint::<R>(sub_dot(c, y.qs@, s) as i32), rint(x.scales@[s] as i32))),
            dot == fsum(s as nat, f),
    {
        dot = plus(dot, times(int_to(dots[s]), int_to(x.scales[s] as i32)));
        assert(f(s as int) == rmul(rint::<R>(dots@[s as int]), rint(x.scales@[s as int] as i32)));
    }
    times(times(dot, widen(x.d)), y.d)
}

/// Lane `l` of one block: the products of the biased codes, less thirty-two times the scaled sums
/// of the activations.
pub open spec fn folded_lane<R: Real>(x: BlockQ6K, y: BlockQ8K<R>, l: int) -> int {
    lane_of(x, y.qs@, l) - 32 * pair_of(x.scales@, y.bsums@, l)
}

/// Lane `l` after the first `n` blocks.
pub open spec fn q6k_chain<R: Real>(
    xs: Seq<BlockQ6K>,
    ys: Seq<BlockQ8K<R>>,
    n: nat,
    l: int,
) -> R
    decreases n,
{
    if n == 0 {
        rzero::<R>()
    } else {
        let (x, y) = (xs[n - 1], ys[n - 1]);
        rfma(
            rmul(y.d, rhalf::<R>(x.d)),
            rint(folded_lane::<R>(x, y, l) as i32),
            q6k_chain::<R>(xs, ys, (n - 1) as nat, l),
        )
    }
}

/// The eight folded lanes of one block.
pub fn folded_lanes<R: Real>(x: &BlockQ6K, y: &BlockQ8K<R>) -> (r: [i32; 8])
    ensures
        forall|l: int| 0 <= l < 8 ==> #[trigger] r@[l] == folded_lane::<R>(*x, *y, l),
{
    let ints = lane_sums(x, &y.qs);
    let zero_point = pair_lanes(&x.scales, &y.bsums);
    let mut r = [0i32; 8];
    for l in 0..8usize
        invariant
            forall|k: int| 0 <= k < 8 ==> #[trigger] ints@[k] == lane_of(*x, y.qs@, k),
            forall|k: int| 0 <= k < 8 ==> -0x0400_0000 <= #[trigger] ints@[k] <= 0x0400_0000,
            forall|k: int|
                0 <= k < 8 ==> #[trigger] zero_point@[k] == pair_of(x.scales@, y.bsums@, k),
            forall|k: int| 0 <= k < 8 ==> -0x0080_0000 <= #[trigger] zero_point@[k] <= 0x0080_0000,
            forall|k: int| 0 <= k < l ==> #[trigger] r@[k] == folded_lane::<R>(*x, *y, k),
    {
        r[l] = ints[l] - 32 * zero_point[l];
    }
    r
}

/// Six-bit codes with eight-bit scales against q8_K.
pub fn vec_dot_q6k_q8k<R: Real>(xs: &[BlockQ6K], ys: &[BlockQ8K<R>]) -> (r: R)
    requires
        lawful::<R>(),
    ensures
        r == lanes_total(
            Seq::new(8, |l: int| q6k_chain::<R>(xs@, ys@, shared(xs@.len(), ys@.len()), l)),
        ),
{
    let n: usize = if xs.len() <= ys.len() { xs.len() } else { ys.len() };
    let mut acc = zero_lanes::<R>();
    for b in 0..n
        invariant
            lawful::<R>(),
            n == shared(xs@.len(), ys@.len()),
            forall|l: int|
                0 <= l < 8 ==> #[trigger] acc@[l] == q6k_chain::<R>(xs@, ys@, b as nat, l),
    {
        let x = xs[b];
        let y = &ys[b];
        let ints = folded_lanes(&x, y);
        fma_lanes(times(y.d, widen(x.d)), &ints, &mut acc);
        assert forall|l: int| 0 <= l < 8 implies #[trigger] acc@[l] == q6k_chain::<R>(
            xs@,
            ys@,
            (b + 1) as nat,
            l,
        ) by {
            assert(ints@[l] == folded_lane::<R>(xs@[b as int], ys@[b as int], l));
        }
    }
    assert(acc@ =~= Seq::new(8, |l: int| q6k_chain::<R>(xs@, ys@, n as nat, l)));
    lanes_sum(&acc)
}

impl<R: Real> BlockFormat<R> for BlockQ6K {
    type ActivationBlock = BlockQ8K<R>;

    open spec fn dtype_of() -> GgmlDType {
        GgmlDType::Q6K
    }

    open spec fn dot_of(xs: Seq<Self>, ys: Seq<BlockQ8K<R>>) -> R {
        lanes_total(Seq::new(8, |l: int| q6k_chain::<R>(xs, ys, shared(xs.len(), ys.len()), l)))
    }

    open spec fn dot_scalar_of(xs: Seq<Self>, ys: Seq<BlockQ8K<R>>) -> R {
        fsum(shared(xs.len(), ys.len()), |b: int| q6k_term::<R>(xs[b], ys[b]))
    }

    fn dtype() -> GgmlDType {
        GgmlDType::Q6K
    }

    fn dot(xs: &[Self], ys: &[BlockQ8K<R>]) -> R {
        vec_dot_q6k_q8k(xs, ys)
    }

    fn dot_scalar(xs: &[Self], ys: &[BlockQ8K<R>]) -> (r: R) {
        let n: usize = if xs.len() <= ys.len() { xs.len() } else { ys.len() };
        let ghost f = |b: int| q6k_term::<R>(xs@[b], ys@[b]);
        let mut acc = zero::<R>();
        for b in 0..n
            invariant
                lawful::<R>(),
                n == shared(xs@.len(), ys@.len()),
                f == (|b: int| q6k_term::<R>(xs@[b], ys@[b])),
                acc == fsum(b as nat, f),
        {
            let term = dot_block(&xs[b], &ys[b]);
            acc = plus(acc, term);
            assert(f(b as int) == term);
        }
        acc
    }
}

/// A sub-block of centred products is its biased products less thirty-two of its sum.
proof fn lemma_centred_sub(x: BlockQ6K, y: Seq<i8>, s: int)
    ensures
        sub_dot(Centred { b: x }, y, s) == sub_dot(x, y, s) + (-32) * bsum_of(y, s),
{
    let c = Centred { b: x };
    let f = |t: int| x.code_of(16 * s + t) * y[16 * s + t];
    let a = |t: int| y[16 * s + t] as int;
    let m = |t: int| (-32) * a(t);
    lemma_isum_scale(16, -32, a);
    lemma_isum_plus(16, f, m);
    let g = |t: int| c.code_of(16 * s + t) * y[16 * s + t];
    let h = |t: int| f(t) + m(t);
    assert forall|t: int| 0 <= t < 16 implies #[trigger] g(t) == h(t) by {
        let (q, v) = (x.code_of(16 * s + t), y[16 * s + t] as int);
        assert((q - 32) * v == q * v + (-32) * v) by (nonlinear_arith);
    }
    lemma_isum_eq(16, g, h);
}

/// Sixteen scaled sums, by pairs or one by one.
proof fn lemma_pairs(k: Seq<i8>, b: Seq<i16>)
    ensures
        isum(8, |l: int| pair_of(k, b, l)) == isum(16, |s: int| k[s] * b[s]),
{
    reveal_with_fuel(isum, 17);
}

/// Taking the zero point off once per sub-block loses nothing: over the eight lanes it is the same
/// integer as taking it off every code, wherever the stored sums are the sums of the codes.
pub proof fn zero_point_folds<R: Real>(x: BlockQ6K, y: BlockQ8K<R>)
    requires
        bsums_hold(y.qs@, y.bsums@),
    ensures
        isum(8, |l: int| folded_lane::<R>(x, y, l)) == scaled_dot(Centred { b: x }, y.qs@),
{
    let c = Centred { b: x };
    lanes_hold_every_product(x, y.qs@);
    lemma_pairs(x.scales@, y.bsums@);
    let p = |l: int| pair_of(x.scales@, y.bsums@, l);
    let pm = |l: int| (-32) * p(l);
    let lane = |l: int| lane_of(x, y.qs@, l);
    lemma_isum_scale(8, -32, p);
    lemma_isum_plus(8, lane, pm);
    lemma_isum_eq(8, |l: int| folded_lane::<R>(x, y, l), |l: int| lane(l) + pm(l));
    let z = |s: int| x.scales@[s] * y.bsums@[s];
    let zm = |s: int| (-32) * z(s);
    let u = |s: int| x.sub_scale_of(s) * sub_dot(x, y.qs@, s);
    lemma_isum_scale(16, -32, z);
    lemma_isum_plus(16, u, zm);
    let v = |s: int| c.sub_scale_of(s) * sub_dot(c, y.qs@, s);
    let h = |s: int| u(s) + zm(s);
    assert forall|s: int| 0 <= s < 16 implies #[trigger] v(s) == h(s) by {
        lemma_centred_sub(x, y.qs@, s);
        assert(y.bsums@[s] == bsum_of(y.qs@, s));
        let (k, d, b) = (x.scales@[s] as int, sub_dot(x, y.qs@, s), y.bsums@[s] as int);
        assert(k * (d + (-32) * b) == k * d + (-32) * (k * b)) by (nonlinear_arith);
    }
    lemma_isum_eq(16, v, h);
}

} // verus!
