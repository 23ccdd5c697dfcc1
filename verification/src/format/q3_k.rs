//! q3_K - 256 values at three bits each, sixteen to a sub-block.
//!
//! `y = d * sc[s] * q` with codes `-4..=3`: two bits as in q2_K, and a third in a plane where value
//! `v` owns bit `v / 32` of byte `v % 32`. The sixteen scales are six bits each, biased by 32, the
//! low four in a nibble of bytes `0..8` and the high two in a lane of bytes `8..12`.
use vstd::prelude::*;
use crate::arith::{
    Half, Real, lawful, rdiv, req, rfma, rhalf, rint, rmul, rneg, rround, rto_half, rzero, eq,
    int_to, narrow, nearest_int, neg, over, plus, times, widen, zero,
};
use crate::blocks::{
    BlockFormat, GgmlDType, Quantized, bit, crumb, crumb_of, high4, low4, pack_crumbs,
};
use crate::coded::shared;
use crate::format::q2_k::{crumb_code, join_crumbs, split_crumbs};
use crate::format::q4_k::{floor_variance, variance_floor};
use crate::format::q5_k::plane_bit;
use crate::format::q8_k::BlockQ8K;
use crate::kfit::{Guided, carried_of, group_of, group_weight, stage_carried, take_group, view_row};
use crate::lanes::{fma_lanes, lanes_sum, lanes_total, zero_lanes};
use crate::scale::{
    clamp, clamped, extreme, extreme_of, fit_signed_scale, signed_fit, signed_fit_levels,
};
use crate::sums::{fsum, sum_slice};
use crate::superblock::{Codes256, lane_of, lane_sums, sub_dot, sub_dots};

verus! {

#[derive(Clone, Copy, Debug)]
pub struct BlockQ3K {
    pub hmask: [u8; 32],
    pub qs: [u8; 64],
    pub scales: [u8; 12],
    pub d: Half,
}

/// The six-bit level of scale `i`, still biased.
pub open spec fn q3k_level(p: Seq<u8>, i: int) -> int {
    let byte = p[i % 8];
    (if i < 8 {
        low4(byte)
    } else {
        high4(byte)
    }) + 16 * crumb_of(p[8 + i % 4], 2 * (i / 4))
}

/// The sixteen scales a block packs into twelve bytes, bias removed.
pub fn q3k_scales(packed: &[u8; 12]) -> (r: [i8; 16])
    ensures
        forall|i: int| 0 <= i < 16 ==> #[trigger] r@[i] == q3k_level(packed@, i) - 32,
{
    let mut r = [0i8; 16];
    for i in 0..16usize
        invariant
            forall|k: int| 0 <= k < i ==> #[trigger] r@[k] == q3k_level(packed@, k) - 32,
    {
        let byte: u8 = packed[i % 8];
        let low: u8 = if i < 8 { byte % 16 } else { byte / 16 };
        let high: u8 = crumb(packed[8 + i % 4], 2 * (i / 4));
        r[i] = (low + 16 * high) as i8 - 32;
    }
    r
}

/// The inverse of [`q3k_scales`]: sixteen biased levels folded into twelve bytes.
pub fn pack_q3k_scales(levels: &[u8; 16]) -> (packed: [u8; 12])
    requires
        forall|i: int| 0 <= i < 16 ==> #[trigger] levels@[i] < 64,
    ensures
        forall|i: int| 0 <= i < 16 ==> q3k_level(packed@, i) == #[trigger] levels@[i],
{
    let mut packed = [0u8; 12];
    for t in 0..8usize
        invariant
            forall|i: int| 0 <= i < 16 ==> #[trigger] levels@[i] < 64,
            forall|k: int| 0 <= k < t ==> low4(#[trigger] packed@[k]) == levels@[k] % 16,
            forall|k: int| 0 <= k < t ==> high4(#[trigger] packed@[k]) == levels@[k + 8] % 16,
    {
        packed[t] = levels[t] % 16 + 16 * (levels[t + 8] % 16);
    }
    for j in 0..4usize
        invariant
            forall|i: int| 0 <= i < 16 ==> #[trigger] levels@[i] < 64,
            forall|k: int| 0 <= k < 8 ==> low4(#[trigger] packed@[k]) == levels@[k] % 16,
            forall|k: int| 0 <= k < 8 ==> high4(#[trigger] packed@[k]) == levels@[k + 8] % 16,
            forall|k: int, q: int|
                0 <= k < j && 0 <= q < 4 ==> #[trigger] crumb_of(packed@[8 + k], 2 * q)
                    == levels@[k + 4 * q] / 16,
    {
        let byte = pack_crumbs(
            levels[j] / 16,
            levels[j + 4] / 16,
            levels[j + 8] / 16,
            levels[j + 12] / 16,
        );
        let ghost before = packed@;
        packed[8 + j] = byte;
        assert forall|k: int, q: int| 0 <= k < j + 1 && 0 <= q < 4 implies #[trigger] crumb_of(
            packed@[8 + k],
            2 * q,
        ) == levels@[k + 4 * q] / 16 by {
            if k < j {
                assert(packed@[8 + k] == before[8 + k]);
                assert(crumb_of(before[8 + k], 2 * q) == levels@[k + 4 * q] / 16);
            } else {
                assert(q == 0 || q == 1 || q == 2 || q == 3);
            }
        }
    }
    assert forall|i: int| 0 <= i < 16 implies q3k_level(packed@, i) == #[trigger] levels@[i] by {
        let (k, q) = (i % 4, i / 4);
        assert(i == k + 4 * q);
        assert(crumb_of(packed@[8 + k], 2 * q) == levels@[k + 4 * q] / 16);
        assert(low4(packed@[i % 8]) == levels@[i % 8] % 16);
        assert(high4(packed@[i % 8]) == levels@[i % 8 + 8] % 16);
    }
    packed
}

/// A level is a nibble of one byte and a two-bit field of another.
proof fn lemma_level_parts(p: Seq<u8>, i: int)
    requires
        p.len() == 12,
        0 <= i < 16,
    ensures
        q3k_level(p, i) % 16 == (if i < 8 {
            low4(p[i % 8])
        } else {
            high4(p[i % 8])
        }),
        q3k_level(p, i) / 16 == crumb_of(p[8 + i % 4], 2 * (i / 4)),
{
    let n = if i < 8 {
        low4(p[i % 8])
    } else {
        high4(p[i % 8])
    };
    let c = crumb_of(p[8 + i % 4], 2 * (i / 4));
    assert(0 <= n < 16);
    assert(q3k_level(p, i) == n + 16 * c);
}

/// A byte is its four two-bit fields.
proof fn lemma_four_crumbs(b: u8)
    ensures
        b == crumb_of(b, 0) + 4 * crumb_of(b, 2) + 16 * crumb_of(b, 4) + 64 * crumb_of(b, 6),
{
    let n = b as int;
    let (p, q, r) = (n / 4, n / 16, n / 64);
    assert(p / 4 == q && q / 4 == r);
    assert(n == 4 * p + n % 4);
    assert(p == 4 * q + p % 4);
    assert(q == 4 * r + q % 4);
    assert(0 <= r < 4);
}

/// The twelve bytes are determined by the levels they unpack to: packing loses nothing and adds
/// nothing.
pub proof fn q3k_packing_is_unique(p: Seq<u8>, q: Seq<u8>)
    requires
        p.len() == 12,
        q.len() == 12,
        forall|i: int| 0 <= i < 16 ==> #[trigger] q3k_level(p, i) == q3k_level(q, i),
    ensures
        p == q,
{
    assert forall|t: int| 0 <= t < 12 implies #[trigger] p[t] == q[t] by {
        q3k_byte_is_unique(p, q, t);
    }
    assert(p =~= q);
}

/// One byte of the twelve.
proof fn q3k_byte_is_unique(p: Seq<u8>, q: Seq<u8>, t: int)
    requires
        p.len() == 12,
        q.len() == 12,
        0 <= t < 12,
        forall|i: int| 0 <= i < 16 ==> #[trigger] q3k_level(p, i) == q3k_level(q, i),
    ensures
        p[t] == q[t],
{
    if t < 8 {
        lemma_level_parts(p, t);
        lemma_level_parts(q, t);
        lemma_level_parts(p, t + 8);
        lemma_level_parts(q, t + 8);
        assert(low4(p[t]) == low4(q[t]));
        assert(high4(p[t]) == high4(q[t]));
    } else {
        let j = t - 8;
        lemma_level_parts(p, j);
        lemma_level_parts(q, j);
        lemma_level_parts(p, j + 4);
        lemma_level_parts(q, j + 4);
        lemma_level_parts(p, j + 8);
        lemma_level_parts(q, j + 8);
        lemma_level_parts(p, j + 12);
        lemma_level_parts(q, j + 12);
        assert(q3k_level(p, j) == q3k_level(q, j));
        assert(q3k_level(p, j + 4) == q3k_level(q, j + 4));
        assert(q3k_level(p, j + 8) == q3k_level(q, j + 8));
        assert(q3k_level(p, j + 12) == q3k_level(q, j + 12));
        assert(crumb_of(p[t], 0) == crumb_of(q[t], 0));
        assert(crumb_of(p[t], 2) == crumb_of(q[t], 2));
        assert(crumb_of(p[t], 4) == crumb_of(q[t], 4));
        assert(crumb_of(p[t], 6) == crumb_of(q[t], 6));
        lemma_four_crumbs(p[t]);
        lemma_four_crumbs(q[t]);
    }
}

/// The biased three-bit code of value `e`.
pub open spec fn three_bits(hmask: Seq<u8>, qs: Seq<u8>, e: int) -> int {
    crumb_code(qs, e) + 4 * plane_bit(hmask, e)
}

impl Codes256 for BlockQ3K {
    open spec fn code_of(self, e: int) -> int {
        three_bits(self.hmask@, self.qs@, e) - 4
    }

    open spec fn sub_scale_of(self, s: int) -> int {
        q3k_level(self.scales@, s) - 32
    }

    fn codes(&self) -> (r: [i8; 256]) {
        let raw = split_crumbs(&self.qs);
        let mut r = [0i8; 256];
        for e in 0..256usize
            invariant
                forall|i: int| 0 <= i < 256 ==> #[trigger] raw@[i] == crumb_code(self.qs@, i),
                forall|i: int| 0 <= i < 256 ==> #[trigger] raw@[i] < 4,
                forall|i: int| 0 <= i < e ==> #[trigger] r@[i] == self.code_of(i),
        {
            r[e] = (raw[e] + 4 * bit(self.hmask[e % 32], e / 32)) as i8 - 4;
        }
        r
    }

    fn sub_scales(&self) -> (r: [i8; 16]) {
        q3k_scales(&self.scales)
    }
}

/// The scale sub-block `g` is fitted to.
pub open spec fn q3k_group_fit<R: Real>(x: Seq<R>, row: Option<Seq<R>>, g: int) -> R {
    signed_fit(4, group_of(x, 16, g), group_weight(x, row, 16, variance_floor(x), g))
}

/// The sixteen fitted scales.
pub open spec fn q3k_fits<R: Real>(x: Seq<R>, row: Option<Seq<R>>) -> Seq<R> {
    Seq::new(16, |g: int| q3k_group_fit(x, row, g))
}

/// The block scale, and the sixteen scales as biased levels.
pub open spec fn q3k_stage<R: Real>(x: Seq<R>, row: Option<Seq<R>>) -> (R, Seq<int>) {
    let fits = q3k_fits(x, row);
    match row {
        Some(_) => {
            let w = stage_carried(x, row, 16, variance_floor(x), 16);
            (
                signed_fit(32, fits, w),
                Seq::new(16, |g: int| signed_fit_levels(32, fits, w)[g] as int),
            )
        },
        None => {
            let top = extreme_of(fits, 16);
            if req(top, rzero::<R>()) {
                (rzero::<R>(), Seq::new(16, |g: int| 0))
            } else {
                let inv = rdiv(rneg(rint::<R>(32)), top);
                (
                    rdiv(rint::<R>(1), inv),
                    Seq::new(16, |g: int| clamped(rround(rmul(inv, fits[g])) as int, -32, 31) + 32),
                )
            }
        },
    }
}

/// The biased code of one value under the step `d`; zero where the step is.
pub open spec fn q3k_code<R: Real>(v: R, d: R) -> int {
    if req(d, rzero::<R>()) {
        0
    } else {
        clamped(rround(rdiv(v, d)) as int, -4, 3) + 4
    }
}

/// The step of value `e`.
pub open spec fn q3k_step<R: Real>(b: BlockQ3K, e: int) -> R {
    rmul(rhalf::<R>(b.d), rint(b.sub_scale_of(e / 16) as i32))
}

/// Block `b` is what `x` encodes to, under a row of importances or none.
pub open spec fn q3k_encodes<R: Real>(x: Seq<R>, row: Option<Seq<R>>, b: BlockQ3K) -> bool {
    &&& b.d == rto_half(q3k_stage(x, row).0)
    &&& forall|i: int|
        0 <= i < 16 ==> #[trigger] q3k_level(b.scales@, i) == q3k_stage(x, row).1[i]
    &&& forall|e: int|
        0 <= e < 256 ==> #[trigger] three_bits(b.hmask@, b.qs@, e) == q3k_code(
            x[e],
            q3k_step::<R>(b, e),
        )
}

/// The third bits of 256 codes below eight, folded into thirty-two bytes.
fn join_thirds(codes: &[u8; 256]) -> (hmask: [u8; 32])
    requires
        forall|e: int| 0 <= e < 256 ==> #[trigger] codes@[e] < 8,
    ensures
        forall|e: int| 0 <= e < 256 ==> plane_bit(hmask@, e) == #[trigger] codes@[e] / 4,
{
    let mut up = [0u8; 256];
    for e in 0..256usize
        invariant
            forall|i: int| 0 <= i < 256 ==> #[trigger] codes@[i] < 8,
            forall|i: int| 0 <= i < e ==> #[trigger] up@[i] == 4 * codes@[i],
    {
        up[e] = 4 * codes[e];
    }
    assert forall|e: int| 0 <= e < 256 implies #[trigger] up@[e] < 32 by {
        assert(codes@[e] < 8);
    }
    let hmask = crate::format::q5_k::join_plane(&up);
    assert forall|e: int| 0 <= e < 256 implies plane_bit(hmask@, e) == #[trigger] codes@[e]
        / 4 by {
        assert(up@[e] == 4 * codes@[e]);
    }
    hmask
}

/// The block scale and biased levels of the sixteen sub-block scales.
fn fit_scales<R: Real>(x: &[R], row: Option<&[R]>) -> (r: (R, [u8; 16]))
    requires
        lawful::<R>(),
        x@.len() == 256,
        row matches Some(m) ==> m@.len() == 256,
    ensures
        r.0 == q3k_stage(x@, view_row(row)).0,
        forall|i: int| 0 <= i < 16 ==> #[trigger] r.1@[i] == q3k_stage(x@, view_row(row)).1[i],
        forall|i: int| 0 <= i < 16 ==> #[trigger] r.1@[i] < 64,
{
    let v = floor_variance(x);
    let mut fits: Vec<R> = Vec::with_capacity(16);
    let mut carried: Vec<R> = Vec::with_capacity(16);
    for g in 0..16usize
        invariant
            lawful::<R>(),
            x@.len() == 256,
            v == variance_floor(x@),
            row matches Some(m) ==> m@.len() == 256,
            fits@.len() == g,
            carried@.len() == g,
            forall|k: int| 0 <= k < g ==> #[trigger] fits@[k] == q3k_group_fit(x@, view_row(row), k),
            forall|k: int|
                0 <= k < g ==> #[trigger] carried@[k] == carried_of(x@, view_row(row), 16, v, k),
    {
        let (xg, w) = take_group(x, row, 16, v, g);
        carried.push(sum_slice(&w));
        let (s, _levels) = fit_signed_scale(4, xg, &w);
        fits.push(s);
    }
    assert(fits@ =~= q3k_fits(x@, view_row(row)));
    assert(carried@ =~= stage_carried(x@, view_row(row), 16, v, 16));
    let mut levels = [0u8; 16];
    match row {
        Some(_) => {
            let (d, ls) = fit_signed_scale(32, &fits, &carried);
            for i in 0..16usize
                invariant
                    ls@.len() == 16,
                    forall|k: int| 0 <= k < 16 ==> 0 <= #[trigger] ls@[k] < 64,
                    forall|k: int| 0 <= k < i ==> #[trigger] levels@[k] == ls@[k],
                    forall|k: int| 0 <= k < i ==> #[trigger] levels@[k] < 64,
            {
                levels[i] = ls[i] as u8;
            }
            (d, levels)
        },
        None => {
            let top = extreme(&fits);
            if eq(top, zero::<R>()) {
                proof {
                    vstd::array::axiom_spec_array_fill_for_copy_type::<u8, 16>(0u8);
                }
                return (zero::<R>(), levels);
            }
            let inv = over(neg(int_to::<R>(32)), top);
            for i in 0..16usize
                invariant
                    lawful::<R>(),
                    fits@.len() == 16,
                    forall|k: int|
                        0 <= k < i ==> #[trigger] levels@[k] == clamped(
                            rround(rmul(inv, fits@[k])) as int,
                            -32,
                            31,
                        ) + 32,
                    forall|k: int| 0 <= k < i ==> #[trigger] levels@[k] < 64,
            {
                levels[i] = (clamp(nearest_int(times(inv, fits[i])), -32, 31) + 32) as u8;
            }
            (over(int_to::<R>(1), inv), levels)
        },
    }
}

/// Quantise one block, optionally against a row of importances.
fn encode<R: Real>(x: &[R], row: Option<&[R]>) -> (b: BlockQ3K)
    requires
        lawful::<R>(),
        x@.len() == 256,
        row matches Some(m) ==> m@.len() == 256,
    ensures
        q3k_encodes(x@, view_row(row), b),
{
    let (d, levels) = fit_scales(x, row);
    let packed = pack_q3k_scales(&levels);
    let scales = q3k_scales(&packed);
    let half = narrow(d);
    let dr = widen::<R>(half);
    let mut codes = [0u8; 256];
    for e in 0..256usize
        invariant
            lawful::<R>(),
            x@.len() == 256,
            dr == rhalf::<R>(half),
            forall|i: int|
                0 <= i < e ==> #[trigger] codes@[i] == q3k_code(
                    x@[i],
                    rmul(dr, rint(scales@[i / 16] as i32)),
                ),
            forall|i: int| 0 <= i < e ==> #[trigger] codes@[i] < 8,
    {
        let step = times(dr, int_to(scales[e / 16] as i32));
        codes[e] = if eq(step, zero::<R>()) {
            0
        } else {
            (clamp(nearest_int(over(x[e], step)), -4, 3) + 4) as u8
        };
    }
    let b = BlockQ3K {
        hmask: join_thirds(&codes),
        qs: join_crumbs(&codes),
        scales: packed,
        d: half,
    };
    assert forall|e: int| 0 <= e < 256 implies #[trigger] three_bits(b.hmask@, b.qs@, e)
        == q3k_code(x@[e], q3k_step::<R>(b, e)) by {
        assert(codes@[e] < 8);
        assert(scales@[e / 16] == q3k_level(packed@, e / 16) - 32);
    }
    assert forall|i: int| 0 <= i < 16 implies #[trigger] q3k_level(b.scales@, i) == q3k_stage(
        x@,
        view_row(row),
    ).1[i] by {
        assert(levels@[i] == q3k_stage(x@, view_row(row)).1[i]);
    }
    b
}

impl<R: Real> Quantized<R> for BlockQ3K {
    open spec fn width() -> nat {
        256
    }

    open spec fn value(self, e: int) -> R {
        rmul(q3k_step::<R>(self, e), rint(self.code_of(e) as i32))
    }

    open spec fn encodes(x: Seq<R>, b: Self) -> bool {
        q3k_encodes(x, None, b)
    }

    open spec fn is_zero(self) -> bool {
        &&& self.d.bits == 0
        &&& forall|t: int| 0 <= t < 12 ==> #[trigger] self.scales@[t] == 0
        &&& forall|j: int| 0 <= j < 32 ==> #[trigger] self.hmask@[j] == 0
        &&& forall|j: int| 0 <= j < 64 ==> #[trigger] self.qs@[j] == 0
    }

    fn block_len() -> usize {
        256
    }

    fn zeros() -> Self {
        proof {
            vstd::array::axiom_spec_array_fill_for_copy_type::<u8, 12>(0u8);
            vstd::array::axiom_spec_array_fill_for_copy_type::<u8, 32>(0u8);
            vstd::array::axiom_spec_array_fill_for_copy_type::<u8, 64>(0u8);
        }
        BlockQ3K { hmask: [0; 32], qs: [0; 64], scales: [0; 12], d: Half::zero() }
    }

    fn decode_into(&self, ys: &mut [R], at: usize) {
        let ghost start = ys@;
        let total: usize = ys.len();
        let d: R = widen(self.d);
        let codes = self.codes();
        let scales = self.sub_scales();
        for e in 0..256usize
            invariant
                lawful::<R>(),
                d == rhalf::<R>(self.d),
                forall|i: int| 0 <= i < 256 ==> #[trigger] codes@[i] == self.code_of(i),
                forall|s: int| 0 <= s < 16 ==> #[trigger] scales@[s] == self.sub_scale_of(s),
                total == ys@.len(),
                start.len() == total,
                at + 256 <= total,
                forall|i: int|
                    0 <= i < total ==> #[trigger] ys@[i] == (if at <= i < at + e {
                        self.value(i - at)
                    } else {
                        start[i]
                    }),
        {
            let step = times(d, int_to(scales[e / 16] as i32));
            ys[at + e] = times(step, int_to(codes[e] as i32));
        }
    }

    fn encode_block(x: &[R]) -> Self {
        encode(x, None)
    }
}

impl<R: Real> Guided<R> for BlockQ3K {
    open spec fn encodes_guided(x: Seq<R>, w: Seq<R>, b: Self) -> bool {
        q3k_encodes(x, Some(w), b)
    }

    fn encode_guided(x: &[R], w: &[R]) -> Self {
        encode(x, Some(w))
    }
}

/// One block of the plain product.
pub open spec fn q3k_term<R: Real>(x: BlockQ3K, y: BlockQ8K<R>) -> R {
    let dot = fsum(
        16,
        |s: int| rmul(rint::<R>(x.sub_scale_of(s) as i32), rint(sub_dot(x, y.qs@, s) as i32)),
    );
    rmul(rmul(dot, rhalf::<R>(x.d)), y.d)
}

fn dot_block<R: Real>(x: &BlockQ3K, y: &BlockQ8K<R>) -> (r: R)
    requires
        lawful::<R>(),
    ensures
        r == q3k_term::<R>(*x, *y),
{
    let dots = sub_dots(x, &y.qs);
    let scales = x.sub_scales();
    let ghost f = |s: int|
        rmul(rint::<R>(x.sub_scale_of(s) as i32), rint(sub_dot(*x, y.qs@, s) as i32));
    let mut dot = zero::<R>();
    for s in 0..16usize
        invariant
            lawful::<R>(),
            forall|k: int| 0 <= k < 16 ==> #[trigger] dots@[k] == sub_dot(*x, y.qs@, k),
            forall|k: int| 0 <= k < 16 ==> #[trigger] scales@[k] == x.sub_scale_of(k),
            f == (|s: int|
                rmul(rint::<R>(x.sub_scale_of(s) as i32), rint(sub_dot(*x, y.qs@, s) as i32))),
            dot == fsum(s as nat, f),
    {
        dot = plus(dot, times(int_to(scales[s] as i32), int_to(dots[s])));
        assert(f(s as int) == rmul(rint::<R>(scales@[s as int] as i32), rint(dots@[s as int])));
    }
    times(times(dot, widen(x.d)), y.d)
}

/// Lane `l` after the first `n` blocks.
pub open spec fn q3k_chain<R: Real>(
    xs: Seq<BlockQ3K>,
    ys: Seq<BlockQ8K<R>>,
    n: nat,
    l: int,
) -> R
    decreases n,
{
    if n == 0 {
        rzero::<R>()
    } else {
        let (x, y) = (xs[n - 1], ys[n - 1]);
        rfma(
            rmul(y.d, rhalf::<R>(x.d)),
            rint(lane_of(x, y.qs@, l) as i32),
            q3k_chain::<R>(xs, ys, (n - 1) as nat, l),
        )
    }
}

/// Three-bit codes with signed six-bit scales against q8_K.
pub fn vec_dot_q3k_q8k<R: Real>(xs: &[BlockQ3K], ys: &[BlockQ8K<R>]) -> (r: R)
    requires
        lawful::<R>(),
    ensures
        r == lanes_total(
            Seq::new(8, |l: int| q3k_chain::<R>(xs@, ys@, shared(xs@.len(), ys@.len()), l)),
        ),
{
    let n: usize = if xs.len() <= ys.len() { xs.len() } else { ys.len() };
    let mut acc = zero_lanes::<R>();
    for b in 0..n
        invariant
            lawful::<R>(),
            n == shared(xs@.len(), ys@.len()),
            forall|l: int|
                0 <= l < 8 ==> #[trigger] acc@[l] == q3k_chain::<R>(xs@, ys@, b as nat, l),
    {
        let x = xs[b];
        let y = &ys[b];
        let ints = lane_sums(&x, &y.qs);
        fma_lanes(times(y.d, widen(x.d)), &ints, &mut acc);
        assert forall|l: int| 0 <= l < 8 implies #[trigger] acc@[l] == q3k_chain::<R>(
            xs@,
            ys@,
            (b + 1) as nat,
            l,
        ) by {
            assert(ints@[l] == lane_of(xs@[b as int], ys@[b as int].qs@, l));
        }
    }
    assert(acc@ =~= Seq::new(8, |l: int| q3k_chain::<R>(xs@, ys@, n as nat, l)));
    lanes_sum(&acc)
}

impl<R: Real> BlockFormat<R> for BlockQ3K {
    type ActivationBlock = BlockQ8K<R>;

    open spec fn dtype_of() -> GgmlDType {
        GgmlDType::Q3K
    }

    open spec fn dot_of(xs: Seq<Self>, ys: Seq<BlockQ8K<R>>) -> R {
        lanes_total(Seq::new(8, |l: int| q3k_chain::<R>(xs, ys, shared(xs.len(), ys.len()), l)))
    }

    open spec fn dot_scalar_of(xs: Seq<Self>, ys: Seq<BlockQ8K<R>>) -> R {
        fsum(shared(xs.len(), ys.len()), |b: int| q3k_term::<R>(xs[b], ys[b]))
    }

    fn dtype() -> GgmlDType {
        GgmlDType::Q3K
    }

    fn dot(xs: &[Self], ys: &[BlockQ8K<R>]) -> R {
        vec_dot_q3k_q8k(xs, ys)
    }

    fn dot_scalar(xs: &[Self], ys: &[BlockQ8K<R>]) -> (r: R) {
        let n: usize = if xs.len() <= ys.len() { xs.len() } else { ys.len() };
        let ghost f = |b: int| q3k_term::<R>(xs@[b], ys@[b]);
        let mut acc = zero::<R>();
        for b in 0..n
            invariant
                lawful::<R>(),
                n == shared(xs@.len(), ys@.len()),
                f == (|b: int| q3k_term::<R>(xs@[b], ys@[b])),
                acc == fsum(b as nat, f),
        {
            let term = dot_block(&xs[b], &ys[b]);
            acc = plus(acc, term);
            assert(f(b as int) == term);
        }
        acc
    }
}

} // verus!
