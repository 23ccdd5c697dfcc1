//! Q4_K weights with their parts in separate arrays.
//!
//! A super-block interleaves two scales and twelve packed bytes with its codes. Here the codes of
//! the whole matrix stand in one array, the sub-block scales and minimums unpacked in two more,
//! and the block scales in the last two: the same weights, reordered without loss.
use vstd::prelude::*;
use crate::arith::{Half, Real, lawful, rhalf, rint, rmul, rsub, int_to, minus, times, widen};
pub use crate::blocks::QK_K;
use crate::blocks::{k_min, k_scale};
use crate::format::q4_k::{BlockQ4K, wide_nibble};
use crate::koffset::minned_value;
use crate::layout::{Stored, word_at};
use crate::repack_q4k::sub_scales_and_mins_bytes;
use crate::superblock::Codes256;
use crate::tiled::{span, span_of};

verus! {

/// Bytes of a q4_K super-block.
pub const Q4K_BLOCK_BYTES: usize = 144;

/// Sub-blocks of a super-block, thirty-two values each.
pub const SUBBLOCKS: usize = 8;

/// A `[n, k]` q4_K weight in parts.
pub struct RepackedQ4K {
    pub n: usize,
    pub k: usize,
    /// The codes, 128 bytes to a super-block.
    pub qs: Vec<u8>,
    /// The sub-block scales, eight to a super-block.
    pub scales: Vec<u8>,
    /// The sub-block minimums, eight to a super-block.
    pub mins: Vec<u8>,
    /// The scale of each super-block.
    pub d: Vec<Half>,
    /// The scale of each super-block's minimums.
    pub dmin: Vec<Half>,
}

impl RepackedQ4K {
    /// The number of super-blocks.
    pub open spec fn blocks(self) -> int {
        self.n * (self.k / 256)
    }

    /// Every part has an entry for every super-block.
    pub open spec fn wf(self) -> bool {
        &&& self.k % 256 == 0
        &&& self.n * self.k <= usize::MAX
        &&& self.qs@.len() == self.blocks() * 128
        &&& self.scales@.len() == self.blocks() * 8
        &&& self.mins@.len() == self.blocks() * 8
        &&& self.d@.len() == self.blocks()
        &&& self.dmin@.len() == self.blocks()
    }
}

/// Part `b` of `r` is the super-block in the bytes `s`.
pub open spec fn part_is(r: RepackedQ4K, b: int, s: Seq<u8>) -> bool {
    &&& r.d@[b].bits == word_at(s, 0)
    &&& r.dmin@[b].bits == word_at(s, 2)
    &&& forall|t: int|
        0 <= t < 8 ==> #[trigger] span(r.scales@, b, 8)[t] == k_scale(s.subrange(4, 16), t)
    &&& forall|t: int|
        0 <= t < 8 ==> #[trigger] span(r.mins@, b, 8)[t] == k_min(s.subrange(4, 16), t)
    &&& span(r.qs@, b, 128) == s.subrange(16, 144)
}

/// Take raw super-blocks apart.
pub fn repack_q4k(data: &[u8], n: usize, k: usize) -> (r: RepackedQ4K)
    requires
        k % 256 == 0,
        data@.len() == n * (k / 256) * 144,
        n * k <= usize::MAX,
    ensures
        r.n == n,
        r.k == k,
        r.wf(),
        forall|b: int|
            0 <= b < r.blocks() ==> #[trigger] part_is(r, b, span(data@, b, 144)),
{
    let per_row: usize = k / QK_K;
    assert(n * per_row <= n * k) by (nonlinear_arith)
        requires
            per_row <= k,
            0 <= n,
    ;
    let nblocks: usize = n * per_row;
    let total: usize = data.len();
    let mut qs: Vec<u8> = Vec::new();
    let mut scales: Vec<u8> = Vec::new();
    let mut mins: Vec<u8> = Vec::new();
    let mut d: Vec<Half> = Vec::new();
    let mut dmin: Vec<Half> = Vec::new();
    for b in 0..nblocks
        invariant
            total == data@.len(),
            total == nblocks * 144,
            qs@.len() == b * 128,
            scales@.len() == b * 8,
            mins@.len() == b * 8,
            d@.len() == b,
            dmin@.len() == b,
            forall|c: int| 0 <= c < b ==> (#[trigger] d@[c]).bits == word_at(span(data@, c, 144), 0),
            forall|c: int|
                0 <= c < b ==> (#[trigger] dmin@[c]).bits == word_at(span(data@, c, 144), 2),
            forall|i: int|
                0 <= i < b * 8 ==> #[trigger] scales@[i] == k_scale(
                    span(data@, i / 8, 144).subrange(4, 16),
                    i % 8,
                ),
            forall|i: int|
                0 <= i < b * 8 ==> #[trigger] mins@[i] == k_min(
                    span(data@, i / 8, 144).subrange(4, 16),
                    i % 8,
                ),
            forall|i: int|
                0 <= i < b * 128 ==> #[trigger] qs@[i] == span(data@, i / 128, 144)[16 + i % 128],
    {
        let blk = span_of(data, b, Q4K_BLOCK_BYTES);
        d.push(Half::from_le_bytes(blk[0], blk[1]));
        dmin.push(Half::from_le_bytes(blk[2], blk[3]));
        let packed = &blk[4..16];
        assert(packed@ =~= span(data@, b as int, 144).subrange(4, 16));
        let sm = sub_scales_and_mins_bytes(packed);
        for t in 0..8usize
            invariant
                scales@.len() == b * 8 + t,
                mins@.len() == b * 8 + t,
                packed@ == span(data@, b as int, 144).subrange(4, 16),
                forall|i: int| 0 <= i < 8 ==> #[trigger] sm@[i] == k_scale(packed@, i),
                forall|i: int| 8 <= i < 16 ==> #[trigger] sm@[i] == k_min(packed@, i - 8),
                forall|i: int|
                    0 <= i < b * 8 + t ==> #[trigger] scales@[i] == k_scale(
                        span(data@, i / 8, 144).subrange(4, 16),
                        i % 8,
                    ),
                forall|i: int|
                    0 <= i < b * 8 + t ==> #[trigger] mins@[i] == k_min(
                        span(data@, i / 8, 144).subrange(4, 16),
                        i % 8,
                    ),
        {
            assert(sm@[t as int] == k_scale(packed@, t as int));
            assert(sm@[t + 8] == k_min(packed@, t as int));
            scales.push(sm[t]);
            mins.push(sm[SUBBLOCKS + t]);
        }
        for p in 0..128usize
            invariant
                qs@.len() == b * 128 + p,
                blk@ == span(data@, b as int, 144),
                blk@.len() == 144,
                forall|i: int|
                    0 <= i < b * 128 + p ==> #[trigger] qs@[i] == span(data@, i / 128, 144)[16 + i
                        % 128],
        {
            qs.push(blk[16 + p]);
        }
    }
    let r = RepackedQ4K { n, k, qs, scales, mins, d, dmin };
    assert forall|b: int| 0 <= b < r.blocks() implies #[trigger] part_is(
        r,
        b,
        span(data@, b, 144),
    ) by {
        let s = span(data@, b, 144);
        assert(r.d@[b].bits == word_at(s, 0));
        assert(r.dmin@[b].bits == word_at(s, 2));
        assert forall|t: int| 0 <= t < 8 implies #[trigger] span(r.scales@, b, 8)[t] == k_scale(
            s.subrange(4, 16),
            t,
        ) by {
            assert((b * 8 + t) / 8 == b && (b * 8 + t) % 8 == t);
            assert(r.scales@[b * 8 + t] == k_scale(s.subrange(4, 16), t));
        }
        assert forall|t: int| 0 <= t < 8 implies #[trigger] span(r.mins@, b, 8)[t] == k_min(
            s.subrange(4, 16),
            t,
        ) by {
            assert((b * 8 + t) / 8 == b && (b * 8 + t) % 8 == t);
            assert(r.mins@[b * 8 + t] == k_min(s.subrange(4, 16), t));
        }
        assert forall|p: int| 0 <= p < 128 implies span(r.qs@, b, 128)[p] == #[trigger] s.subrange(
            16,
            144,
        )[p] by {
            assert((b * 128 + p) / 128 == b && (b * 128 + p) % 128 == p);
            assert(r.qs@[b * 128 + p] == s[16 + p]);
        }
        assert(span(r.qs@, b, 128) =~= s.subrange(16, 144));
    }
    r
}

/// What value `e` of super-block `b` reconstructs to.
pub open spec fn part_value<R: Real>(r: RepackedQ4K, b: int, e: int) -> R {
    rsub(
        rmul(
            rmul(rhalf(r.d@[b]), rint(r.scales@[8 * b + e / 32] as i32)),
            rint(wide_nibble(span(r.qs@, b, 128), e) as i32),
        ),
        rmul(rhalf(r.dmin@[b]), rint(r.mins@[8 * b + e / 32] as i32)),
    )
}

/// The values of a weight in parts, row-major.
pub fn dequant_repacked<R: Real>(r: &RepackedQ4K) -> (out: Vec<R>)
    requires
        lawful::<R>(),
        r.wf(),
    ensures
        out@.len() == r.n * r.k,
        forall|i: int|
            0 <= i < out@.len() ==> #[trigger] out@[i] == part_value::<R>(*r, i / 256, i % 256),
{
    let total: usize = r.n * r.k;
    let per_row: usize = r.k / QK_K;
    assert(r.n * per_row <= r.n * r.k && r.n * per_row * 256 == r.n * r.k) by (nonlinear_arith)
        requires
            per_row * 256 == r.k,
            0 <= per_row,
            0 <= r.n,
    ;
    let nblocks: usize = r.n * per_row;
    let mut out: Vec<R> = Vec::with_capacity(total);
    for b in 0..nblocks
        invariant
            lawful::<R>(),
            r.wf(),
            nblocks == r.blocks(),
            nblocks * 256 == total,
            out@.len() == b * 256,
            forall|i: int|
                0 <= i < out@.len() ==> #[trigger] out@[i] == part_value::<R>(*r, i / 256, i % 256),
    {
        let d = widen::<R>(r.d[b]);
        let dmin = widen::<R>(r.dmin[b]);
        let qs = span_of(&r.qs, b, 128);
        for e in 0..256usize
            invariant
                lawful::<R>(),
                r.wf(),
                nblocks == r.blocks(),
                nblocks * 256 == total,
                b < nblocks,
                d == rhalf::<R>(r.d@[b as int]),
                dmin == rhalf::<R>(r.dmin@[b as int]),
                qs@ == span(r.qs@, b as int, 128),
                qs@.len() == 128,
                out@.len() == b * 256 + e,
                forall|i: int|
                    0 <= i < out@.len() ==> #[trigger] out@[i] == part_value::<R>(
                        *r,
                        i / 256,
                        i % 256,
                    ),
        {
            let step = times(d, int_to(r.scales[8 * b + e / 32] as i32));
            let drop = times(dmin, int_to(r.mins[8 * b + e / 32] as i32));
            let byte: u8 = qs[32 * (e / 64) + e % 32];
            let code: u8 = if (e / 32) % 2 == 0 {
                byte % 16
            } else {
                byte / 16
            };
            let ghost at = b * 256 + e;
            assert(at / 256 == b && at % 256 == e);
            out.push(minus(times(step, int_to(code as i32)), drop));
        }
    }
    out
}

/// Taking a weight apart loses nothing: each value is the one its super-block reconstructs to.
pub proof fn parts_keep_the_values<R: Real>(
    r: RepackedQ4K,
    b: int,
    s: Seq<u8>,
    x: BlockQ4K,
    e: int,
)
    requires
        r.wf(),
        0 <= b < r.blocks(),
        part_is(r, b, s),
        <BlockQ4K as Stored<R>>::laid(x, s),
        0 <= e < 256,
    ensures
        part_value::<R>(r, b, e) == minned_value::<R, BlockQ4K>(x, e),
{
    assert(x.scales@ =~= s.subrange(4, 16)) by {
        assert forall|t: int| 0 <= t < 12 implies x.scales@[t] == s.subrange(4, 16)[t] by {
            assert(s[4 + t] == x.scales@[t]);
        }
    }
    assert(x.qs@ =~= s.subrange(16, 144)) by {
        assert forall|p: int| 0 <= p < 128 implies x.qs@[p] == s.subrange(16, 144)[p] by {
            assert(s[16 + p] == x.qs@[p]);
        }
    }
    assert(x.d.bits == r.d@[b].bits && x.dmin.bits == r.dmin@[b].bits);
    let t = e / 32;
    assert(span(r.scales@, b, 8)[t] == k_scale(x.scales@, t));
    assert(span(r.mins@, b, 8)[t] == k_min(x.scales@, t));
    assert((e / 16) / 2 == t);
    assert(r.scales@[8 * b + t] == span(r.scales@, b, 8)[t]);
    assert(r.mins@[8 * b + t] == span(r.mins@, b, 8)[t]);
}

} // verus!
