//! Q4_K weights interleaved eight columns to a block.
//!
//! One activation super-block feeds eight dot products, and the scales of eight columns are
//! unpacked together. The interleaving moves bytes and changes none: column `j` of an interleaved
//! block is a view of the super-block it came from, and every kernel here is stated over that view.
use vstd::prelude::*;
use crate::arith::{Half, Real, lawful, rhalf, widen, zero};
use crate::blocks::{high4, k_min, k_packed, k_scale, low4};
use crate::coded::{blocks_of, cell, tile};
use crate::format::iq2_xxs::byte_of;
use crate::format::q4_k::BlockQ4K;
use crate::format::q8_k::BlockQ8K;
use crate::kgroup::{
    Gather, alike, interleave_rows, interleaved, runs_alike, single_column, single_dot,
    single_dot_reads_the_column, stepped_column, stepped_dot, stepped_dot_reads_the_column,
    tile_column, tiled_column, tiled_dot, tiled_dot_reads_the_column,
};
use crate::koffset::Minned;
use crate::superblock::Codes256;

verus! {

/// Eight interleaved q4_K super-blocks, one per column.
#[derive(Clone, Copy, Debug)]
pub struct BlockQ4Kx8 {
    pub d: [Half; 8],
    pub dmin: [Half; 8],
    pub scales: [u8; 96],
    pub qs: [u8; 1024],
}

// -- the packed scales, word by word --

/// Four bytes masked and shifted together are the four bytes masked and shifted one by one.
proof fn lemma_words(a: u32, b: u32, c: u32, d: u32)
    by (bit_vector)
    requires
        a < 256,
        b < 256,
        c < 256,
        d < 256,
    ensures
        ((a | (b << 8) | (c << 16) | (d << 24)) & 0x3f3f_3f3f) % 256 == a % 64,
        (((a | (b << 8) | (c << 16) | (d << 24)) & 0x3f3f_3f3f) / 256) % 256 == b % 64,
        (((a | (b << 8) | (c << 16) | (d << 24)) & 0x3f3f_3f3f) / 65536) % 256 == c % 64,
        ((a | (b << 8) | (c << 16) | (d << 24)) & 0x3f3f_3f3f) / 16777216 == d % 64,
{
}

/// A nibble of each byte of one word under two spare bits of each byte of another.
proof fn lemma_low_halves(a: u32, b: u32, c: u32, d: u32, e: u32, f: u32, g: u32, h: u32)
    by (bit_vector)
    requires
        a < 256,
        b < 256,
        c < 256,
        d < 256,
        e < 256,
        f < 256,
        g < 256,
        h < 256,
    ensures
        ((((a | (b << 8) | (c << 16) | (d << 24)) & 0x0f0f_0f0f) | ((((e | (f << 8) | (g << 16) | (h
            << 24)) >> 6) & 0x0303_0303) << 4)) % 256) == a % 16 + 16 * (e / 64),
        (((((a | (b << 8) | (c << 16) | (d << 24)) & 0x0f0f_0f0f) | ((((e | (f << 8) | (g << 16) | (
        h << 24)) >> 6) & 0x0303_0303) << 4)) / 256) % 256) == b % 16 + 16 * (f / 64),
        (((((a | (b << 8) | (c << 16) | (d << 24)) & 0x0f0f_0f0f) | ((((e | (f << 8) | (g << 16) | (
        h << 24)) >> 6) & 0x0303_0303) << 4)) / 65536) % 256) == c % 16 + 16 * (g / 64),
        ((((a | (b << 8) | (c << 16) | (d << 24)) & 0x0f0f_0f0f) | ((((e | (f << 8) | (g << 16) | (h
            << 24)) >> 6) & 0x0303_0303) << 4)) / 16777216) == d % 16 + 16 * (h / 64),
{
}

/// The same with the high nibbles.
proof fn lemma_high_halves(a: u32, b: u32, c: u32, d: u32, e: u32, f: u32, g: u32, h: u32)
    by (bit_vector)
    requires
        a < 256,
        b < 256,
        c < 256,
        d < 256,
        e < 256,
        f < 256,
        g < 256,
        h < 256,
    ensures
        (((((a | (b << 8) | (c << 16) | (d << 24)) >> 4) & 0x0f0f_0f0f) | ((((e | (f << 8) | (g
            << 16) | (h << 24)) >> 6) & 0x0303_0303) << 4)) % 256) == a / 16 + 16 * (e / 64),
        ((((((a | (b << 8) | (c << 16) | (d << 24)) >> 4) & 0x0f0f_0f0f) | ((((e | (f << 8) | (g
            << 16) | (h << 24)) >> 6) & 0x0303_0303) << 4)) / 256) % 256) == b / 16 + 16 * (f / 64),
        ((((((a | (b << 8) | (c << 16) | (d << 24)) >> 4) & 0x0f0f_0f0f) | ((((e | (f << 8) | (g
            << 16) | (h << 24)) >> 6) & 0x0303_0303) << 4)) / 65536) % 256) == c / 16 + 16 * (g
            / 64),
        (((((a | (b << 8) | (c << 16) | (d << 24)) >> 4) & 0x0f0f_0f0f) | ((((e | (f << 8) | (g
            << 16) | (h << 24)) >> 6) & 0x0303_0303) << 4)) / 16777216) == d / 16 + 16 * (h / 64),
{
}

/// The eight scales and eight minimums packed in the first twelve bytes, as four words: scales `0..4`, scales
/// `4..8`, minimums `0..4`, minimums `4..8`, the first of each lowest.
pub fn sub_scales_and_mins(packed: &[u8]) -> (r: [u32; 4])
    requires
        packed@.len() >= 12,
    ensures
        forall|t: int| 0 <= t < 4 ==> #[trigger] byte_of(r@[0] as int, t) == k_scale(packed@, t),
        forall|t: int| 0 <= t < 4 ==> #[trigger] byte_of(r@[1] as int, t) == k_scale(packed@, t + 4),
        forall|t: int| 0 <= t < 4 ==> #[trigger] byte_of(r@[2] as int, t) == k_min(packed@, t),
        forall|t: int| 0 <= t < 4 ==> #[trigger] byte_of(r@[3] as int, t) == k_min(packed@, t + 4),
{
    let (a, b, c, d) = (packed[0] as u32, packed[1] as u32, packed[2] as u32, packed[3] as u32);
    let (e, f, g, h) = (packed[4] as u32, packed[5] as u32, packed[6] as u32, packed[7] as u32);
    let (i, j, k, l) = (packed[8] as u32, packed[9] as u32, packed[10] as u32, packed[11] as u32);
    let scales: u32 = a | (b << 8) | (c << 16) | (d << 24);
    let mins: u32 = e | (f << 8) | (g << 16) | (h << 24);
    let halves: u32 = i | (j << 8) | (k << 16) | (l << 24);
    proof {
        lemma_words(a, b, c, d);
        lemma_words(e, f, g, h);
        lemma_low_halves(i, j, k, l, a, b, c, d);
        lemma_high_halves(i, j, k, l, e, f, g, h);
    }
    [
        scales & 0x3f3f_3f3f,
        (halves & 0x0f0f_0f0f) | (((scales >> 6) & 0x0303_0303) << 4),
        mins & 0x3f3f_3f3f,
        ((halves >> 4) & 0x0f0f_0f0f) | (((mins >> 6) & 0x0303_0303) << 4),
    ]
}

/// The same sixteen values, one byte each: scales `0..8`, then minimums `0..8`.
pub fn sub_scales_and_mins_bytes(packed: &[u8]) -> (r: [u8; 16])
    requires
        packed@.len() >= 12,
    ensures
        forall|i: int| 0 <= i < 8 ==> #[trigger] r@[i] == k_scale(packed@, i),
        forall|i: int| 8 <= i < 16 ==> #[trigger] r@[i] == k_min(packed@, i - 8),
        forall|i: int| 0 <= i < 16 ==> #[trigger] r@[i] < 64,
{
    let words = sub_scales_and_mins(packed);
    let mut r = [0u8; 16];
    for q in 0..4usize
        invariant
            packed@.len() >= 12,
            forall|t: int|
                0 <= t < 4 ==> #[trigger] byte_of(words@[0] as int, t) == k_scale(packed@, t),
            forall|t: int|
                0 <= t < 4 ==> #[trigger] byte_of(words@[1] as int, t) == k_scale(packed@, t + 4),
            forall|t: int|
                0 <= t < 4 ==> #[trigger] byte_of(words@[2] as int, t) == k_min(packed@, t),
            forall|t: int|
                0 <= t < 4 ==> #[trigger] byte_of(words@[3] as int, t) == k_min(packed@, t + 4),
            forall|i: int|
                0 <= i < 4 * q ==> #[trigger] r@[i] == (if i < 8 {
                    k_scale(packed@, i)
                } else {
                    k_min(packed@, i - 8)
                }),
    {
        let w: u32 = words[q];
        r[4 * q] = (w % 256) as u8;
        r[4 * q + 1] = ((w / 256) % 256) as u8;
        r[4 * q + 2] = ((w / 65536) % 256) as u8;
        r[4 * q + 3] = (w / 16777216) as u8;
        proof {
            assert(q == 0 || q == 1 || q == 2 || q == 3);
            let n = w as int;
            assert(byte_of(n, 0) == r@[4 * q as int]);
            assert(byte_of(n, 1) == r@[4 * q + 1]);
            assert(byte_of(n, 2) == r@[4 * q + 2]);
            assert(byte_of(n, 3) == r@[4 * q + 3]);
        }
    }
    assert forall|i: int| 0 <= i < 16 implies #[trigger] r@[i] < 64 by {
        lemma_six_bits(packed@, if i < 8 { i } else { i - 8 });
    }
    r
}

/// A packed scale or minimum is six bits.
proof fn lemma_six_bits(p: Seq<u8>, i: int)
    ensures
        0 <= k_scale(p, i) < 64,
        0 <= k_min(p, i) < 64,
{
}

// -- one column of an interleaved block --

/// Where byte `p` of column `j` lies.
pub open spec fn place(p: int, j: int) -> int {
    (p / 8) * 64 + j * 8 + p % 8
}

/// The twelve bytes that start at `12 * i`.
pub open spec fn twelve(scales: Seq<u8>, i: int) -> Seq<u8> {
    scales.subrange(12 * i, 12 * i + 12)
}

/// The nibble of value `e` of column `j`.
pub open spec fn column_nibble(qs: Seq<u8>, j: int, e: int) -> int {
    let byte = qs[place(32 * (e / 64) + e % 32, j)];
    if (e / 32) % 2 == 0 {
        low4(byte)
    } else {
        high4(byte)
    }
}

/// The 256 codes of column `j`.
fn column_codes(b: &BlockQ4Kx8, j: usize) -> (r: [i8; 256])
    requires
        j < 8,
    ensures
        forall|e: int| 0 <= e < 256 ==> #[trigger] r@[e] == column_nibble(b.qs@, j as int, e),
{
    let mut r = [0i8; 256];
    for e in 0..256usize
        invariant
            j < 8,
            forall|i: int| 0 <= i < e ==> #[trigger] r@[i] == column_nibble(b.qs@, j as int, i),
    {
        let p: usize = 32 * (e / 64) + e % 32;
        let byte: u8 = b.qs[(p / 8) * 64 + j * 8 + p % 8];
        r[e] = if (e / 32) % 2 == 0 {
            (byte % 16) as i8
        } else {
            (byte / 16) as i8
        };
    }
    r
}

/// The sixteen sub-block scales and minimums of column `j`.
fn column_scales(b: &BlockQ4Kx8, j: usize) -> (r: ([i8; 16], [i8; 16]))
    requires
        j < 8,
    ensures
        forall|s: int|
            0 <= s < 16 ==> #[trigger] r.0@[s] == k_scale(twelve(b.scales@, j as int), s / 2),
        forall|s: int|
            0 <= s < 16 ==> #[trigger] r.1@[s] == k_min(twelve(b.scales@, j as int), s / 2),
{
    let all: &[u8] = b.scales.as_slice();
    let part = &all[12 * j..12 * j + 12];
    assert(part@ =~= twelve(b.scales@, j as int));
    let bytes = sub_scales_and_mins_bytes(part);
    let mut scales = [0i8; 16];
    let mut mins = [0i8; 16];
    for s in 0..16usize
        invariant
            part@ == twelve(b.scales@, j as int),
            forall|i: int| 0 <= i < 8 ==> #[trigger] bytes@[i] == k_scale(part@, i),
            forall|i: int| 8 <= i < 16 ==> #[trigger] bytes@[i] == k_min(part@, i - 8),
            forall|i: int| 0 <= i < 16 ==> #[trigger] bytes@[i] < 64,
            forall|k: int| 0 <= k < s ==> #[trigger] scales@[k] == k_scale(part@, k / 2),
            forall|k: int| 0 <= k < s ==> #[trigger] mins@[k] == k_min(part@, k / 2),
    {
        scales[s] = bytes[s / 2] as i8;
        mins[s] = bytes[8 + s / 2] as i8;
    }
    (scales, mins)
}

/// The sixteen sub-block scales and minimums of column `j`, from the sub-block-major packing.
fn column_scales_v2(b: &BlockQ4Kx8, j: usize) -> (r: ([i8; 16], [i8; 16]))
    requires
        j < 8,
    ensures
        forall|s: int|
            0 <= s < 16 ==> #[trigger] r.0@[s] == k_scale(twelve(b.scales@, s / 2), j as int),
        forall|s: int|
            0 <= s < 16 ==> #[trigger] r.1@[s] == k_min(twelve(b.scales@, s / 2), j as int),
{
    let all: &[u8] = b.scales.as_slice();
    let mut scales = [0i8; 16];
    let mut mins = [0i8; 16];
    for t in 0..8usize
        invariant
            j < 8,
            all@ == b.scales@,
            forall|k: int|
                0 <= k < 2 * t ==> #[trigger] scales@[k] == k_scale(
                    twelve(b.scales@, k / 2),
                    j as int,
                ),
            forall|k: int|
                0 <= k < 2 * t ==> #[trigger] mins@[k] == k_min(twelve(b.scales@, k / 2), j as int),
    {
        let part = &all[12 * t..12 * t + 12];
        assert(part@ =~= twelve(b.scales@, t as int));
        let bytes = sub_scales_and_mins_bytes(part);
        assert(bytes@[j as int] == k_scale(part@, j as int));
        assert(bytes@[j + 8] == k_min(part@, j as int));
        scales[2 * t] = bytes[j] as i8;
        scales[2 * t + 1] = bytes[j] as i8;
        mins[2 * t] = bytes[8 + j] as i8;
        mins[2 * t + 1] = bytes[8 + j] as i8;
    }
    (scales, mins)
}

// -- interleaving --

/// Column `j` of `b` holds the codes and block scales of `src`.
pub open spec fn holds_codes(b: BlockQ4Kx8, j: int, src: BlockQ4K) -> bool {
    &&& b.d@[j] == src.d
    &&& b.dmin@[j] == src.dmin
    &&& forall|p: int| 0 <= p < 128 ==> b.qs@[#[trigger] place(p, j)] == src.qs@[p]
}

/// Column `j` of `b` is `src`, its scales standing column by column.
pub open spec fn holds(b: BlockQ4Kx8, j: int, src: BlockQ4K) -> bool {
    &&& holds_codes(b, j, src)
    &&& twelve(b.scales@, j) == src.scales@
}

/// Column `j` of `b` is `src`, its scales standing sub-block by sub-block.
pub open spec fn holds_v2(b: BlockQ4Kx8, j: int, src: BlockQ4K) -> bool {
    &&& holds_codes(b, j, src)
    &&& forall|t: int|
        0 <= t < 8 ==> #[trigger] k_scale(twelve(b.scales@, t), j) == k_scale(src.scales@, t)
    &&& forall|t: int|
        0 <= t < 8 ==> #[trigger] k_min(twelve(b.scales@, t), j) == k_min(src.scales@, t)
}

/// The interleaved codes and block scales of eight super-blocks, one every `stride`.
fn interleave_codes(rhs: &[BlockQ4K], base: usize, stride: usize) -> (r: (
    [Half; 8],
    [Half; 8],
    [u8; 1024],
))
    requires
        base + 7 * stride < rhs@.len(),
    ensures
        forall|j: int| 0 <= j < 8 ==> #[trigger] r.0@[j] == rhs@[base + j * stride].d,
        forall|j: int| 0 <= j < 8 ==> #[trigger] r.1@[j] == rhs@[base + j * stride].dmin,
        forall|p: int, j: int|
            0 <= p < 128 && 0 <= j < 8 ==> r.2@[#[trigger] place(p, j)] == rhs@[base + j
                * stride].qs@[p],
{
    let total: usize = rhs.len();
    let mut d = [Half::zero(); 8];
    let mut dmin = [Half::zero(); 8];
    let mut qs = [0u8; 1024];
    for j in 0..8usize
        invariant
            total == rhs@.len(),
            base + 7 * stride < total,
            forall|k: int| 0 <= k < j ==> #[trigger] d@[k] == rhs@[base + k * stride].d,
            forall|k: int| 0 <= k < j ==> #[trigger] dmin@[k] == rhs@[base + k * stride].dmin,
            forall|p: int, k: int|
                0 <= p < 128 && 0 <= k < j ==> qs@[#[trigger] place(p, k)] == rhs@[base + k
                    * stride].qs@[p],
    {
        assert(0 <= j * stride <= 7 * stride) by (nonlinear_arith)
            requires
                0 <= j <= 7,
                0 <= stride,
        ;
        let src: &BlockQ4K = &rhs[base + j * stride];
        d[j] = src.d;
        dmin[j] = src.dmin;
        for p in 0..128usize
            invariant
                j < 8,
                *src == rhs@[base + j * stride],
                forall|q: int, k: int|
                    0 <= q < 128 && 0 <= k < j ==> qs@[#[trigger] place(q, k)] == rhs@[base + k
                        * stride].qs@[q],
                forall|q: int| 0 <= q < p ==> qs@[#[trigger] place(q, j as int)] == src.qs@[q],
        {
            let at: usize = (p / 8) * 64 + j * 8 + p % 8;
            qs[at] = src.qs[p];
            proof {
                assert forall|q: int, k: int| 0 <= q < 128 && 0 <= k < j implies qs@[
                #[trigger] place(q, k)] == rhs@[base + k * stride].qs@[q] by {
                    lemma_places(q, k, p as int, j as int);
                }
                assert forall|q: int| 0 <= q < p + 1 implies qs@[#[trigger] place(q, j as int)]
                    == src.qs@[q] by {
                    if q < p {
                        lemma_places(q, j as int, p as int, j as int);
                    }
                }
            }
        }
    }
    (d, dmin, qs)
}

/// Different bytes of different columns lie in different places.
proof fn lemma_places(p: int, j: int, q: int, k: int)
    requires
        0 <= p < 128,
        0 <= q < 128,
        0 <= j < 8,
        0 <= k < 8,
    ensures
        0 <= place(p, j) < 1024,
        place(p, j) == place(q, k) ==> p == q && j == k,
{
    let a = place(p, j);
    let b = place(q, k);
    assert(a / 64 == p / 8 && (a % 64) / 8 == j && a % 8 == p % 8);
    assert(b / 64 == q / 8 && (b % 64) / 8 == k && b % 8 == q % 8);
}

/// Eight super-blocks, one every `stride`, interleaved with their scales column by column.
fn interleave(rhs: &[BlockQ4K], base: usize, stride: usize) -> (b: BlockQ4Kx8)
    requires
        base + 7 * stride < rhs@.len(),
    ensures
        forall|j: int| 0 <= j < 8 ==> #[trigger] holds(b, j, rhs@[base + j * stride]),
{
    let total: usize = rhs.len();
    let (d, dmin, qs) = interleave_codes(rhs, base, stride);
    let mut scales = [0u8; 96];
    for j in 0..8usize
        invariant
            total == rhs@.len(),
            base + 7 * stride < total,
            forall|k: int, t: int|
                0 <= k < j && 0 <= t < 12 ==> scales@[#[trigger] (12 * k + t)] == rhs@[base + k
                    * stride].scales@[t],
    {
        assert(0 <= j * stride <= 7 * stride) by (nonlinear_arith)
            requires
                0 <= j <= 7,
                0 <= stride,
        ;
        let src: &BlockQ4K = &rhs[base + j * stride];
        for t in 0..12usize
            invariant
                j < 8,
                *src == rhs@[base + j * stride],
                forall|k: int, u: int|
                    0 <= k < j && 0 <= u < 12 ==> scales@[#[trigger] (12 * k + u)] == rhs@[base + k
                        * stride].scales@[u],
                forall|u: int| 0 <= u < t ==> scales@[#[trigger] (12 * j + u)] == src.scales@[u],
        {
            scales[12 * j + t] = src.scales[t];
        }
    }
    let b = BlockQ4Kx8 { d, dmin, scales, qs };
    assert forall|j: int| 0 <= j < 8 implies #[trigger] holds(b, j, rhs@[base + j * stride]) by {
        let src = rhs@[base + j * stride];
        assert forall|t: int| 0 <= t < 12 implies twelve(b.scales@, j)[t] == #[trigger] src.scales@[
        t] by {
            assert(scales@[12 * j + t] == src.scales@[t]);
        }
        assert(twelve(b.scales@, j) =~= src.scales@);
        assert(b.d@[j] == src.d);
        assert(b.dmin@[j] == src.dmin);
    }
    b
}

/// Eight super-blocks, one every `stride`, interleaved with their scales sub-block by sub-block.
fn interleave_v2(rhs: &[BlockQ4K], base: usize, stride: usize) -> (b: BlockQ4Kx8)
    requires
        base + 7 * stride < rhs@.len(),
    ensures
        forall|j: int| 0 <= j < 8 ==> #[trigger] holds_v2(b, j, rhs@[base + j * stride]),
{
    let total: usize = rhs.len();
    let (d, dmin, qs) = interleave_codes(rhs, base, stride);
    let mut fields: Vec<[u8; 16]> = Vec::with_capacity(8);
    for j in 0..8usize
        invariant
            total == rhs@.len(),
            base + 7 * stride < total,
            fields@.len() == j,
            forall|k: int, t: int|
                0 <= k < j && 0 <= t < 8 ==> #[trigger] fields@[k]@[t] == k_scale(
                    rhs@[base + k * stride].scales@,
                    t,
                ),
            forall|k: int, t: int|
                0 <= k < j && 8 <= t < 16 ==> #[trigger] fields@[k]@[t] == k_min(
                    rhs@[base + k * stride].scales@,
                    t - 8,
                ),
            forall|k: int, t: int|
                0 <= k < j && 0 <= t < 16 ==> #[trigger] fields@[k]@[t] < 64,
    {
        assert(0 <= j * stride <= 7 * stride) by (nonlinear_arith)
            requires
                0 <= j <= 7,
                0 <= stride,
        ;
        let bytes = sub_scales_and_mins_bytes(rhs[base + j * stride].scales.as_slice());
        fields.push(bytes);
    }
    let mut scales = [0u8; 96];
    for t in 0..8usize
        invariant
            fields@.len() == 8,
            forall|k: int, u: int|
                0 <= k < t && 0 <= u < 12 ==> scales@[#[trigger] (12 * k + u)] == k_packed(
                    Seq::new(8, |j: int| fields@[j]@[k]),
                    Seq::new(8, |j: int| fields@[j]@[k + 8]),
                    u,
                ),
    {
        let s: [u8; 8] = [
            fields[0][t],
            fields[1][t],
            fields[2][t],
            fields[3][t],
            fields[4][t],
            fields[5][t],
            fields[6][t],
            fields[7][t],
        ];
        let m: [u8; 8] = [
            fields[0][8 + t],
            fields[1][8 + t],
            fields[2][8 + t],
            fields[3][8 + t],
            fields[4][8 + t],
            fields[5][8 + t],
            fields[6][8 + t],
            fields[7][8 + t],
        ];
        assert(s@ =~= Seq::new(8, |j: int| fields@[j]@[t as int]));
        assert(m@ =~= Seq::new(8, |j: int| fields@[j]@[t + 8]));
        let packed = crate::blocks::pack_kquant_scales_and_mins(&s, &m);
        for u in 0..12usize
            invariant
                t < 8,
                forall|k: int, v: int|
                    0 <= k < t && 0 <= v < 12 ==> scales@[#[trigger] (12 * k + v)] == k_packed(
                        Seq::new(8, |j: int| fields@[j]@[k]),
                        Seq::new(8, |j: int| fields@[j]@[k + 8]),
                        v,
                    ),
                forall|v: int| 0 <= v < u ==> scales@[#[trigger] (12 * t + v)] == packed@[v],
        {
            scales[12 * t + u] = packed[u];
        }
        assert forall|k: int, u: int| 0 <= k < t + 1 && 0 <= u < 12 implies scales@[#[trigger] (12
            * k + u)] == k_packed(
            Seq::new(8, |j: int| fields@[j]@[k]),
            Seq::new(8, |j: int| fields@[j]@[k + 8]),
            u,
        ) by {
            if k == t {
                assert(scales@[12 * t + u] == packed@[u]);
            }
        }
    }
    let b = BlockQ4Kx8 { d, dmin, scales, qs };
    assert forall|j: int| 0 <= j < 8 implies #[trigger] holds_v2(b, j, rhs@[base + j * stride]) by {
        let src = rhs@[base + j * stride];
        assert(b.d@[j] == src.d);
        assert(b.dmin@[j] == src.dmin);
        assert forall|t: int| 0 <= t < 8 implies #[trigger] k_scale(twelve(b.scales@, t), j)
            == k_scale(src.scales@, t) && k_min(twelve(b.scales@, t), j) == k_min(src.scales@, t) by {
            let s = Seq::new(8, |j: int| fields@[j]@[t]);
            let m = Seq::new(8, |j: int| fields@[j]@[t + 8]);
            let p = twelve(b.scales@, t);
            assert forall|u: int| 0 <= u < 12 implies #[trigger] p[u] == k_packed(s, m, u) by {
                assert(scales@[12 * t + u] == k_packed(s, m, u));
            }
            crate::blocks::kquant_unpack_of_pack(s, m, p);
            assert(k_scale(p, j) == s[j] % 64);
            assert(k_min(p, j) == m[j] % 64);
            assert(fields@[j]@[t] < 64);
            assert(fields@[j]@[t + 8] < 64);
        }
        assert forall|t: int| 0 <= t < 8 implies #[trigger] k_min(twelve(b.scales@, t), j) == k_min(
            src.scales@,
            t,
        ) by {
            assert(k_scale(twelve(b.scales@, t), j) == k_scale(src.scales@, t));
        }
    }
    b
}

/// Column `j` of an interleaved block whose scales stand column by column.
#[derive(Clone, Copy, Debug)]
pub struct Column<'a> {
    b: &'a BlockQ4Kx8,
    j: usize,
}

impl<'a> Column<'a> {
    #[verifier::type_invariant]
    spec fn wf(self) -> bool {
        self.j < 8
    }

    pub closed spec fn at(b: BlockQ4Kx8, j: int) -> Column<'a> {
        Column { b: &b, j: j as usize }
    }

    /// Column `j` of `b`.
    pub fn new(b: &'a BlockQ4Kx8, j: usize) -> (r: Column<'a>)
        requires
            j < 8,
        ensures
            r == Column::at(*b, j as int),
    {
        Column { b, j }
    }
}

impl<'a> Codes256 for Column<'a> {
    closed spec fn code_of(self, e: int) -> int {
        column_nibble(self.b.qs@, self.j as int, e)
    }

    closed spec fn sub_scale_of(self, s: int) -> int {
        k_scale(twelve(self.b.scales@, self.j as int), s / 2)
    }

    fn codes(&self) -> [i8; 256] {
        proof {
            use_type_invariant(self);
        }
        column_codes(self.b, self.j)
    }

    fn sub_scales(&self) -> [i8; 16] {
        proof {
            use_type_invariant(self);
        }
        column_scales(self.b, self.j).0
    }
}

impl<'a, R: Real> Minned<R> for Column<'a> {
    closed spec fn d_of(self) -> R {
        rhalf(self.b.d@[self.j as int])
    }

    closed spec fn dmin_of(self) -> R {
        rhalf(self.b.dmin@[self.j as int])
    }

    closed spec fn sub_min_of(self, s: int) -> int {
        k_min(twelve(self.b.scales@, self.j as int), s / 2)
    }

    fn d(&self) -> R {
        proof {
            use_type_invariant(self);
        }
        widen(self.b.d[self.j])
    }

    fn dmin(&self) -> R {
        proof {
            use_type_invariant(self);
        }
        widen(self.b.dmin[self.j])
    }

    fn sub_mins(&self) -> [i8; 16] {
        proof {
            use_type_invariant(self);
        }
        column_scales(self.b, self.j).1
    }
}

/// Column `j` of each of a run of interleaved blocks.
pub open spec fn columns_of<'a>(b: Seq<BlockQ4Kx8>, j: int) -> Seq<Column<'a>> {
    Seq::new(b.len(), |l: int| Column::at(b[l], j))
}

/// Column `j` of the first `nb` interleaved blocks.
fn columns<'a>(b: &'a [BlockQ4Kx8], nb: usize, j: usize) -> (r: Vec<Column<'a>>)
    requires
        j < 8,
        nb <= b@.len(),
    ensures
        forall|l: int| 0 <= l < nb ==> #[trigger] r@[l] == columns_of(b@, j as int)[l],
        r@.len() == nb,
{
    let mut r: Vec<Column<'a>> = Vec::new();
    for l in 0..nb
        invariant
            j < 8,
            nb <= b@.len(),
            r@.len() == l,
            forall|i: int| 0 <= i < l ==> #[trigger] r@[i] == Column::at(b@[i], j as int),
    {
        r.push(Column::new(&b[l], j));
    }
    r
}

/// Column `j` of an interleaved block whose scales stand sub-block by sub-block.
#[derive(Clone, Copy, Debug)]
pub struct ColumnV2<'a> {
    b: &'a BlockQ4Kx8,
    j: usize,
}

impl<'a> ColumnV2<'a> {
    #[verifier::type_invariant]
    spec fn wf(self) -> bool {
        self.j < 8
    }

    pub closed spec fn at(b: BlockQ4Kx8, j: int) -> ColumnV2<'a> {
        ColumnV2 { b: &b, j: j as usize }
    }

    /// Column `j` of `b`.
    pub fn new(b: &'a BlockQ4Kx8, j: usize) -> (r: ColumnV2<'a>)
        requires
            j < 8,
        ensures
            r == ColumnV2::at(*b, j as int),
    {
        ColumnV2 { b, j }
    }
}

impl<'a> Codes256 for ColumnV2<'a> {
    closed spec fn code_of(self, e: int) -> int {
        column_nibble(self.b.qs@, self.j as int, e)
    }

    closed spec fn sub_scale_of(self, s: int) -> int {
        k_scale(twelve(self.b.scales@, s / 2), self.j as int)
    }

    fn codes(&self) -> [i8; 256] {
        proof {
            use_type_invariant(self);
        }
        column_codes(self.b, self.j)
    }

    fn sub_scales(&self) -> [i8; 16] {
        proof {
            use_type_invariant(self);
        }
        column_scales_v2(self.b, self.j).0
    }
}

impl<'a, R: Real> Minned<R> for ColumnV2<'a> {
    closed spec fn d_of(self) -> R {
        rhalf(self.b.d@[self.j as int])
    }

    closed spec fn dmin_of(self) -> R {
        rhalf(self.b.dmin@[self.j as int])
    }

    closed spec fn sub_min_of(self, s: int) -> int {
        k_min(twelve(self.b.scales@, s / 2), self.j as int)
    }

    fn d(&self) -> R {
        proof {
            use_type_invariant(self);
        }
        widen(self.b.d[self.j])
    }

    fn dmin(&self) -> R {
        proof {
            use_type_invariant(self);
        }
        widen(self.b.dmin[self.j])
    }

    fn sub_mins(&self) -> [i8; 16] {
        proof {
            use_type_invariant(self);
        }
        column_scales_v2(self.b, self.j).1
    }
}

/// Column `j` of each of a run of interleaved blocks.
pub open spec fn columnv2s_of<'a>(b: Seq<BlockQ4Kx8>, j: int) -> Seq<ColumnV2<'a>> {
    Seq::new(b.len(), |l: int| ColumnV2::at(b[l], j))
}

/// Column `j` of the first `nb` interleaved blocks.
fn columnv2s<'a>(b: &'a [BlockQ4Kx8], nb: usize, j: usize) -> (r: Vec<ColumnV2<'a>>)
    requires
        j < 8,
        nb <= b@.len(),
    ensures
        forall|l: int| 0 <= l < nb ==> #[trigger] r@[l] == columnv2s_of(b@, j as int)[l],
        r@.len() == nb,
{
    let mut r: Vec<ColumnV2<'a>> = Vec::new();
    for l in 0..nb
        invariant
            j < 8,
            nb <= b@.len(),
            r@.len() == l,
            forall|i: int| 0 <= i < l ==> #[trigger] r@[i] == ColumnV2::at(b@[i], j as int),
    {
        r.push(ColumnV2::new(&b[l], j));
    }
    r
}

/// What `Column` reads of an interleaved block.
pub proof fn column_reads<R: Real>(b: BlockQ4Kx8, j: int)
    requires
        0 <= j < 8,
    ensures
        forall|e: int| #[trigger] Column::at(b, j).code_of(e) == column_nibble(b.qs@, j, e),
        forall|s: int| #[trigger] Column::at(b, j).sub_scale_of(s) == k_scale(twelve(b.scales@, j), s / 2),
        forall|s: int|
            #[trigger] <Column as Minned<R>>::sub_min_of(Column::at(b, j), s) == k_min(twelve(b.scales@, j), s / 2),
        <Column as Minned<R>>::d_of(Column::at(b, j)) == rhalf::<R>(b.d@[j]),
        <Column as Minned<R>>::dmin_of(Column::at(b, j)) == rhalf::<R>(b.dmin@[j]),
{
}

/// What `ColumnV2` reads of an interleaved block.
pub proof fn columnv2_reads<R: Real>(b: BlockQ4Kx8, j: int)
    requires
        0 <= j < 8,
    ensures
        forall|e: int| #[trigger] ColumnV2::at(b, j).code_of(e) == column_nibble(b.qs@, j, e),
        forall|s: int| #[trigger] ColumnV2::at(b, j).sub_scale_of(s) == k_scale(twelve(b.scales@, s / 2), j),
        forall|s: int|
            #[trigger] <ColumnV2 as Minned<R>>::sub_min_of(ColumnV2::at(b, j), s) == k_min(twelve(b.scales@, s / 2), j),
        <ColumnV2 as Minned<R>>::d_of(ColumnV2::at(b, j)) == rhalf::<R>(b.d@[j]),
        <ColumnV2 as Minned<R>>::dmin_of(ColumnV2::at(b, j)) == rhalf::<R>(b.dmin@[j]),
{
}

// -- scales built once for a group --

/// The scales of the eight columns of one interleaved block, unpacked.
///
/// They depend only on the weights, so a group's can be built once and serve every tile of rows.
#[derive(Debug)]
pub struct GroupScales<R> {
    pub scales: [[i8; 16]; 8],
    pub mins: [[i8; 16]; 8],
    pub d: [R; 8],
    pub dmin: [R; 8],
}

impl<R: Copy> Copy for GroupScales<R> {

}

impl<R: Copy> Clone for GroupScales<R> {
    fn clone(&self) -> (r: Self)
        ensures
            r == *self,
    {
        *self
    }
}

/// `g` holds the scales of `b`.
pub open spec fn scales_hold<R: Real>(g: GroupScales<R>, b: BlockQ4Kx8) -> bool {
    &&& forall|j: int| 0 <= j < 8 ==> #[trigger] g.d@[j] == rhalf::<R>(b.d@[j])
    &&& forall|j: int| 0 <= j < 8 ==> #[trigger] g.dmin@[j] == rhalf::<R>(b.dmin@[j])
    &&& forall|j: int, s: int|
        0 <= j < 8 && 0 <= s < 16 ==> #[trigger] g.scales@[j]@[s] == k_scale(
            twelve(b.scales@, j),
            s / 2,
        )
    &&& forall|j: int, s: int|
        0 <= j < 8 && 0 <= s < 16 ==> #[trigger] g.mins@[j]@[s] == k_min(
            twelve(b.scales@, j),
            s / 2,
        )
}

/// The unpacked scales of one interleaved block.
fn unpack_group<R: Real>(b: &BlockQ4Kx8) -> (g: GroupScales<R>)
    requires
        lawful::<R>(),
    ensures
        scales_hold(g, *b),
{
    let mut scales = [[0i8; 16]; 8];
    let mut mins = [[0i8; 16]; 8];
    let mut d = [zero::<R>(); 8];
    let mut dmin = [zero::<R>(); 8];
    for j in 0..8usize
        invariant
            lawful::<R>(),
            forall|k: int| 0 <= k < j ==> #[trigger] d@[k] == rhalf::<R>(b.d@[k]),
            forall|k: int| 0 <= k < j ==> #[trigger] dmin@[k] == rhalf::<R>(b.dmin@[k]),
            forall|k: int, s: int|
                0 <= k < j && 0 <= s < 16 ==> #[trigger] scales@[k]@[s] == k_scale(
                    twelve(b.scales@, k),
                    s / 2,
                ),
            forall|k: int, s: int|
                0 <= k < j && 0 <= s < 16 ==> #[trigger] mins@[k]@[s] == k_min(
                    twelve(b.scales@, k),
                    s / 2,
                ),
    {
        let (sc, mn) = column_scales(b, j);
        scales[j] = sc;
        mins[j] = mn;
        d[j] = widen(b.d[j]);
        dmin[j] = widen(b.dmin[j]);
    }
    GroupScales { scales, mins, d, dmin }
}

/// The scales of every block of one group.
pub fn prep_group_scales<R: Real>(b: &[BlockQ4Kx8], nb: usize) -> (gs: Vec<GroupScales<R>>)
    requires
        lawful::<R>(),
        nb <= b@.len(),
    ensures
        gs@.len() == nb,
        forall|l: int| 0 <= l < nb ==> scales_hold(#[trigger] gs@[l], b@[l]),
{
    let mut gs: Vec<GroupScales<R>> = Vec::with_capacity(nb);
    for l in 0..nb
        invariant
            lawful::<R>(),
            nb <= b@.len(),
            gs@.len() == l,
            forall|i: int| 0 <= i < l ==> scales_hold(#[trigger] gs@[i], b@[i]),
    {
        gs.push(unpack_group(&b[l]));
    }
    gs
}

/// Column `j` of an interleaved block, its scales taken from a prepared group.
#[derive(Debug)]
pub struct Prepared<'a, R> {
    b: &'a BlockQ4Kx8,
    g: &'a GroupScales<R>,
    j: usize,
}

impl<'a, R> Copy for Prepared<'a, R> {

}

impl<'a, R> Clone for Prepared<'a, R> {
    fn clone(&self) -> (r: Self)
        ensures
            r == *self,
    {
        *self
    }
}

impl<'a, R> Prepared<'a, R> {
    #[verifier::type_invariant]
    spec fn wf(self) -> bool {
        self.j < 8
    }

    pub closed spec fn at(b: BlockQ4Kx8, g: GroupScales<R>, j: int) -> Prepared<'a, R> {
        Prepared { b: &b, g: &g, j: j as usize }
    }

    /// Column `j` of `b` under the scales `g`.
    pub fn new(b: &'a BlockQ4Kx8, g: &'a GroupScales<R>, j: usize) -> (r: Prepared<'a, R>)
        requires
            j < 8,
        ensures
            r == Prepared::at(*b, *g, j as int),
    {
        Prepared { b, g, j }
    }
}

impl<'a, R> Codes256 for Prepared<'a, R> {
    closed spec fn code_of(self, e: int) -> int {
        column_nibble(self.b.qs@, self.j as int, e)
    }

    closed spec fn sub_scale_of(self, s: int) -> int {
        self.g.scales@[self.j as int]@[s] as int
    }

    fn codes(&self) -> [i8; 256] {
        proof {
            use_type_invariant(self);
        }
        column_codes(self.b, self.j)
    }

    fn sub_scales(&self) -> [i8; 16] {
        proof {
            use_type_invariant(self);
        }
        self.g.scales[self.j]
    }
}

impl<'a, R: Real> Minned<R> for Prepared<'a, R> {
    closed spec fn d_of(self) -> R {
        self.g.d@[self.j as int]
    }

    closed spec fn dmin_of(self) -> R {
        self.g.dmin@[self.j as int]
    }

    closed spec fn sub_min_of(self, s: int) -> int {
        self.g.mins@[self.j as int]@[s] as int
    }

    fn d(&self) -> R {
        proof {
            use_type_invariant(self);
        }
        self.g.d[self.j]
    }

    fn dmin(&self) -> R {
        proof {
            use_type_invariant(self);
        }
        self.g.dmin[self.j]
    }

    fn sub_mins(&self) -> [i8; 16] {
        proof {
            use_type_invariant(self);
        }
        self.g.mins[self.j]
    }
}

/// What `Prepared` reads of an interleaved block and a group's scales.
pub proof fn prepared_reads<R: Real>(b: BlockQ4Kx8, g: GroupScales<R>, j: int)
    requires
        0 <= j < 8,
    ensures
        forall|e: int| #[trigger] Prepared::at(b, g, j).code_of(e) == column_nibble(b.qs@, j, e),
        forall|s: int| #[trigger] Prepared::at(b, g, j).sub_scale_of(s) == g.scales@[j]@[s],
        forall|s: int| #[trigger] Prepared::at(b, g, j).sub_min_of(s) == g.mins@[j]@[s],
        Prepared::at(b, g, j).d_of() == g.d@[j],
        Prepared::at(b, g, j).dmin_of() == g.dmin@[j],
{
}

/// Column `j` of each of a run of interleaved blocks, under prepared scales.
pub open spec fn prepared_of<'a, R>(
    b: Seq<BlockQ4Kx8>,
    gs: Seq<GroupScales<R>>,
    j: int,
) -> Seq<Prepared<'a, R>> {
    Seq::new(b.len(), |l: int| Prepared::at(b[l], gs[l], j))
}

/// Column `j` of the first `nb` interleaved blocks, under prepared scales.
fn prepared<'a, R>(
    b: &'a [BlockQ4Kx8],
    gs: &'a [GroupScales<R>],
    nb: usize,
    j: usize,
) -> (r: Vec<Prepared<'a, R>>)
    requires
        j < 8,
        nb <= b@.len(),
        nb <= gs@.len(),
    ensures
        forall|l: int| 0 <= l < nb ==> #[trigger] r@[l] == prepared_of(b@, gs@, j as int)[l],
        r@.len() == nb,
{
    let mut r: Vec<Prepared<'a, R>> = Vec::new();
    for l in 0..nb
        invariant
            j < 8,
            nb <= b@.len(),
            nb <= gs@.len(),
            r@.len() == l,
            forall|i: int| 0 <= i < l ==> #[trigger] r@[i] == Prepared::at(b@[i], gs@[i], j as int),
    {
        r.push(Prepared::new(&b[l], &gs[l], j));
    }
    r
}

// -- the two interleavings --

/// Interleaving with the scales column by column.
pub struct Plain {}

impl Gather for Plain {
    type Row = BlockQ4K;

    type Out = BlockQ4Kx8;

    open spec fn holds(out: BlockQ4Kx8, j: int, row: BlockQ4K) -> bool {
        holds(out, j, row)
    }

    fn gather(rhs: &[BlockQ4K], base: usize, stride: usize) -> BlockQ4Kx8 {
        interleave(rhs, base, stride)
    }
}

/// Interleaving with the scales sub-block by sub-block.
pub struct V2 {}

impl Gather for V2 {
    type Row = BlockQ4K;

    type Out = BlockQ4Kx8;

    open spec fn holds(out: BlockQ4Kx8, j: int, row: BlockQ4K) -> bool {
        holds_v2(out, j, row)
    }

    fn gather(rhs: &[BlockQ4K], base: usize, stride: usize) -> BlockQ4Kx8 {
        interleave_v2(rhs, base, stride)
    }
}

/// Interleave `[n, nb]` row-major blocks into `[n/8][nb]`.
pub fn repack(rhs: &[BlockQ4K], n: usize, nb: usize) -> (out: Vec<BlockQ4Kx8>)
    requires
        n % 8 == 0,
        rhs@.len() == n * nb,
    ensures
        interleaved::<Plain>(rhs@, out@, n as int, nb as int),
{
    interleave_rows::<Plain>(rhs, n, nb)
}

/// Interleave `[n, nb]` row-major blocks into `[n/8][nb]`, the scales sub-block by sub-block.
pub fn repack_v2(rhs: &[BlockQ4K], n: usize, nb: usize) -> (out: Vec<BlockQ4Kx8>)
    requires
        n % 8 == 0,
        rhs@.len() == n * nb,
    ensures
        interleaved::<V2>(rhs@, out@, n as int, nb as int),
{
    interleave_rows::<V2>(rhs, n, nb)
}

proof fn lemma_holds_codes<R: Real>(b: BlockQ4Kx8, j: int, src: BlockQ4K)
    requires
        0 <= j < 8,
        holds_codes(b, j, src),
    ensures
        forall|e: int|
            0 <= e < 256 ==> #[trigger] column_nibble(b.qs@, j, e) == <BlockQ4K as Codes256>::code_of(
                src,
                e,
            ),
{
    assert forall|e: int| 0 <= e < 256 implies #[trigger] column_nibble(b.qs@, j, e)
        == <BlockQ4K as Codes256>::code_of(src, e) by {
        let p = 32 * (e / 64) + e % 32;
        assert(b.qs@[place(p, j)] == src.qs@[p]);
    }
}

/// A column of an interleaved block reads as the super-block it came from.
pub proof fn column_is_its_row<R: Real>(b: BlockQ4Kx8, j: int, src: BlockQ4K)
    requires
        0 <= j < 8,
        holds(b, j, src),
    ensures
        alike::<R, Column, BlockQ4K>(Column::at(b, j), src),
{
    lemma_holds_codes::<R>(b, j, src);
    column_reads::<R>(b, j);
}

/// A column whose scales stand sub-block by sub-block reads as the super-block it came from.
pub proof fn column_v2_is_its_row<R: Real>(b: BlockQ4Kx8, j: int, src: BlockQ4K)
    requires
        0 <= j < 8,
        holds_v2(b, j, src),
    ensures
        alike::<R, ColumnV2, BlockQ4K>(ColumnV2::at(b, j), src),
{
    lemma_holds_codes::<R>(b, j, src);
    columnv2_reads::<R>(b, j);
}

/// Interleaving loses nothing: column `j` of group `g` reads as row `8 * g + j`, so every kernel
/// gives for the column what it gives for the row.
pub proof fn interleaved_columns_are_rows<R: Real>(
    rhs: Seq<BlockQ4K>,
    out: Seq<BlockQ4Kx8>,
    n: int,
    nb: int,
    g: int,
    j: int,
)
    requires
        interleaved::<Plain>(rhs, out, n, nb),
        0 <= g < n / 8,
        0 <= j < 8,
        0 <= nb,
    ensures
        runs_alike::<R, Column, BlockQ4K>(
            columns_of(blocks_of(out, g, nb), j),
            blocks_of(rhs, tile(g, j), nb),
            nb as nat,
        ),
{
    assert forall|l: int| 0 <= l < nb implies #[trigger] alike::<R, Column, BlockQ4K>(
        columns_of(blocks_of(out, g, nb), j)[l],
        blocks_of(rhs, tile(g, j), nb)[l],
    ) by {
        assert(Plain::holds(out[cell(nb, g, l)], j, rhs[cell(nb, tile(g, j), l)]));
        column_is_its_row::<R>(out[cell(nb, g, l)], j, rhs[cell(nb, tile(g, j), l)]);
    }
}

/// The same of the interleaving with the scales sub-block by sub-block.
pub proof fn interleaved_columns_are_rows_v2<R: Real>(
    rhs: Seq<BlockQ4K>,
    out: Seq<BlockQ4Kx8>,
    n: int,
    nb: int,
    g: int,
    j: int,
)
    requires
        interleaved::<V2>(rhs, out, n, nb),
        0 <= g < n / 8,
        0 <= j < 8,
        0 <= nb,
    ensures
        runs_alike::<R, ColumnV2, BlockQ4K>(
            columnv2s_of(blocks_of(out, g, nb), j),
            blocks_of(rhs, tile(g, j), nb),
            nb as nat,
        ),
{
    assert forall|l: int| 0 <= l < nb implies #[trigger] alike::<R, ColumnV2, BlockQ4K>(
        columnv2s_of(blocks_of(out, g, nb), j)[l],
        blocks_of(rhs, tile(g, j), nb)[l],
    ) by {
        assert(V2::holds(out[cell(nb, g, l)], j, rhs[cell(nb, tile(g, j), l)]));
        column_v2_is_its_row::<R>(out[cell(nb, g, l)], j, rhs[cell(nb, tile(g, j), l)]);
    }
}

/// The two interleavings of one weight give the same single-row products.
pub proof fn plain_and_v2_agree<R: Real>(
    rhs: Seq<BlockQ4K>,
    plain: Seq<BlockQ4Kx8>,
    v2: Seq<BlockQ4Kx8>,
    ys: Seq<BlockQ8K<R>>,
    n: int,
    nb: int,
    g: int,
    j: int,
)
    requires
        interleaved::<Plain>(rhs, plain, n, nb),
        interleaved::<V2>(rhs, v2, n, nb),
        0 <= g < n / 8,
        0 <= j < 8,
        0 <= nb,
    ensures
        single_dot::<R, Column>(columns_of(blocks_of(plain, g, nb), j), ys, nb as nat)
            == single_dot::<R, ColumnV2>(columnv2s_of(blocks_of(v2, g, nb), j), ys, nb as nat),
{
    let row = blocks_of(rhs, tile(g, j), nb);
    interleaved_columns_are_rows::<R>(rhs, plain, n, nb, g, j);
    interleaved_columns_are_rows_v2::<R>(rhs, v2, n, nb, g, j);
    single_dot_reads_the_column::<R, Column, BlockQ4K>(
        columns_of(blocks_of(plain, g, nb), j),
        row,
        ys,
        nb as nat,
    );
    single_dot_reads_the_column::<R, ColumnV2, BlockQ4K>(
        columnv2s_of(blocks_of(v2, g, nb), j),
        row,
        ys,
        nb as nat,
    );
}

/// Preparing a group's scales changes no product.
pub proof fn prepared_scales_change_nothing<R: Real>(
    b: Seq<BlockQ4Kx8>,
    gs: Seq<GroupScales<R>>,
    ys: Seq<BlockQ8K<R>>,
    nb: nat,
    j: int,
)
    requires
        nb <= b.len(),
        0 <= j < 8,
        forall|l: int| 0 <= l < nb ==> scales_hold(#[trigger] gs[l], b[l]),
    ensures
        tiled_dot::<R, Prepared<R>>(prepared_of(b, gs, j), ys, nb) == tiled_dot::<R, Column>(
            columns_of(b, j),
            ys,
            nb,
        ),
{
    assert forall|l: int| 0 <= l < nb implies #[trigger] alike::<R, Prepared<R>, Column>(
        prepared_of(b, gs, j)[l],
        columns_of(b, j)[l],
    ) by {
        assert(scales_hold(gs[l], b[l]));
        prepared_reads::<R>(b[l], gs[l], j);
        column_reads::<R>(b[l], j);
    }
    tiled_dot_reads_the_column::<R, Prepared<R>, Column>(
        prepared_of(b, gs, j),
        columns_of(b, j),
        ys,
        nb,
    );
}

// -- the kernels --

/// A run of blocks reads as itself.
proof fn lemma_runs_same<R: Real, C: Minned<R>>(xs: Seq<C>, zs: Seq<C>, n: nat)
    requires
        forall|l: int| 0 <= l < n ==> #[trigger] xs[l] == zs[l],
    ensures
        runs_alike::<R, C, C>(xs, zs, n),
{
    assert forall|l: int| 0 <= l < n implies #[trigger] alike::<R, C, C>(xs[l], zs[l]) by {}
}

/// One group of eight columns against one activation row, one rounding per eight bytes.
pub fn gemv_group_scalar<R: Real>(b: &[BlockQ4Kx8], a: &[BlockQ8K<R>], nb: usize, out: &mut [R])
    requires
        lawful::<R>(),
        nb <= b@.len(),
        nb <= a@.len(),
        8 <= old(out)@.len(),
    ensures
        final(out)@.len() == old(out)@.len(),
        forall|j: int|
            0 <= j < 8 ==> #[trigger] final(out)@[j] == stepped_dot::<R, Column>(
                columns_of(b@, j),
                a@,
                nb as nat,
            ),
        forall|i: int| 8 <= i < final(out)@.len() ==> #[trigger] final(out)@[i] == old(out)@[i],
{
    let ghost start = out@;
    for j in 0..8usize
        invariant
            lawful::<R>(),
            nb <= b@.len(),
            nb <= a@.len(),
            8 <= out@.len(),
            out@.len() == start.len(),
            forall|k: int|
                0 <= k < j ==> #[trigger] out@[k] == stepped_dot::<R, Column>(
                    columns_of(b@, k),
                    a@,
                    nb as nat,
                ),
            forall|i: int| 8 <= i < out@.len() ==> #[trigger] out@[i] == start[i],
    {
        let xs = columns(b, nb, j);
        proof {
            lemma_runs_same::<R, Column>(xs@, columns_of(b@, j as int), nb as nat);
            stepped_dot_reads_the_column::<R, Column, Column>(
                xs@,
                columns_of(b@, j as int),
                a@,
                nb as nat,
            );
        }
        out[j] = stepped_column(&xs, a, nb);
    }
}

/// One group of eight columns against one activation row, one fused step per block.
pub fn gemv_group_avx2<R: Real>(b: &[BlockQ4Kx8], a: &[BlockQ8K<R>], nb: usize, out: &mut [R])
    requires
        lawful::<R>(),
        nb <= b@.len(),
        nb <= a@.len(),
        8 <= old(out)@.len(),
    ensures
        final(out)@.len() == old(out)@.len(),
        forall|j: int|
            0 <= j < 8 ==> #[trigger] final(out)@[j] == tiled_dot::<R, Column>(
                columns_of(b@, j),
                a@,
                nb as nat,
            ),
        forall|i: int| 8 <= i < final(out)@.len() ==> #[trigger] final(out)@[i] == old(out)@[i],
{
    let ghost start = out@;
    for j in 0..8usize
        invariant
            lawful::<R>(),
            nb <= b@.len(),
            nb <= a@.len(),
            8 <= out@.len(),
            out@.len() == start.len(),
            forall|k: int|
                0 <= k < j ==> #[trigger] out@[k] == tiled_dot::<R, Column>(
                    columns_of(b@, k),
                    a@,
                    nb as nat,
                ),
            forall|i: int| 8 <= i < out@.len() ==> #[trigger] out@[i] == start[i],
    {
        let xs = columns(b, nb, j);
        proof {
            lemma_runs_same::<R, Column>(xs@, columns_of(b@, j as int), nb as nat);
            tiled_dot_reads_the_column::<R, Column, Column>(
                xs@,
                columns_of(b@, j as int),
                a@,
                nb as nat,
            );
        }
        out[j] = tiled_column(&xs, a, nb);
    }
}

/// One group of eight columns against one activation row, codes and minimums both exact integers
/// within a block; the scales stand column by column.
pub fn gemv_group_avx2_plain<R: Real>(b: &[BlockQ4Kx8], a: &[BlockQ8K<R>], nb: usize, out: &mut [R])
    requires
        lawful::<R>(),
        nb <= b@.len(),
        nb <= a@.len(),
        8 <= old(out)@.len(),
    ensures
        final(out)@.len() == old(out)@.len(),
        forall|j: int|
            0 <= j < 8 ==> #[trigger] final(out)@[j] == single_dot::<R, Column>(
                columns_of(b@, j),
                a@,
                nb as nat,
            ),
        forall|i: int| 8 <= i < final(out)@.len() ==> #[trigger] final(out)@[i] == old(out)@[i],
{
    let ghost start = out@;
    for j in 0..8usize
        invariant
            lawful::<R>(),
            nb <= b@.len(),
            nb <= a@.len(),
            8 <= out@.len(),
            out@.len() == start.len(),
            forall|k: int|
                0 <= k < j ==> #[trigger] out@[k] == single_dot::<R, Column>(
                    columns_of(b@, k),
                    a@,
                    nb as nat,
                ),
            forall|i: int| 8 <= i < out@.len() ==> #[trigger] out@[i] == start[i],
    {
        let xs = columns(b, nb, j);
        proof {
            lemma_runs_same::<R, Column>(xs@, columns_of(b@, j as int), nb as nat);
            single_dot_reads_the_column::<R, Column, Column>(
                xs@,
                columns_of(b@, j as int),
                a@,
                nb as nat,
            );
        }
        out[j] = single_column(&xs, a, nb);
    }
}

/// One group of eight columns against one activation row, codes and minimums both exact integers
/// within a block; the scales stand sub-block by sub-block.
pub fn gemv_group_avx2_v2<R: Real>(b: &[BlockQ4Kx8], a: &[BlockQ8K<R>], nb: usize, out: &mut [R])
    requires
        lawful::<R>(),
        nb <= b@.len(),
        nb <= a@.len(),
        8 <= old(out)@.len(),
    ensures
        final(out)@.len() == old(out)@.len(),
        forall|j: int|
            0 <= j < 8 ==> #[trigger] final(out)@[j] == single_dot::<R, ColumnV2>(
                columnv2s_of(b@, j),
                a@,
                nb as nat,
            ),
        forall|i: int| 8 <= i < final(out)@.len() ==> #[trigger] final(out)@[i] == old(out)@[i],
{
    let ghost start = out@;
    for j in 0..8usize
        invariant
            lawful::<R>(),
            nb <= b@.len(),
            nb <= a@.len(),
            8 <= out@.len(),
            out@.len() == start.len(),
            forall|k: int|
                0 <= k < j ==> #[trigger] out@[k] == single_dot::<R, ColumnV2>(
                    columnv2s_of(b@, k),
                    a@,
                    nb as nat,
                ),
            forall|i: int| 8 <= i < out@.len() ==> #[trigger] out@[i] == start[i],
    {
        let xs = columnv2s(b, nb, j);
        proof {
            lemma_runs_same::<R, ColumnV2>(xs@, columnv2s_of(b@, j as int), nb as nat);
            single_dot_reads_the_column::<R, ColumnV2, ColumnV2>(
                xs@,
                columnv2s_of(b@, j as int),
                a@,
                nb as nat,
            );
        }
        out[j] = single_column(&xs, a, nb);
    }
}

/// One group of eight columns against a tile of activation rows: row `r` fills
/// `out[r * 8 .. r * 8 + 8]`.
pub fn gemm_group_avx2<R: Real>(
    b: &[BlockQ4Kx8],
    acts: &[&[BlockQ8K<R>]],
    nb: usize,
    out: &mut [R],
)
    requires
        lawful::<R>(),
        acts@.len() <= 8,
        nb <= b@.len(),
        forall|r: int| 0 <= r < acts@.len() ==> nb <= #[trigger] acts@[r]@.len(),
        acts@.len() * 8 <= old(out)@.len(),
    ensures
        final(out)@.len() == old(out)@.len(),
        forall|r: int, j: int|
            0 <= r < acts@.len() && 0 <= j < 8 ==> final(out)@[#[trigger] tile(r, j)] == tiled_dot::<
                R,
                Column,
            >(columns_of(b@, j), acts@[r]@, nb as nat),
        forall|i: int|
            acts@.len() * 8 <= i < final(out)@.len() ==> #[trigger] final(out)@[i] == old(out)@[i],
{
    let ghost start = out@;
    let mt: usize = acts.len();
    for j in 0..8usize
        invariant
            lawful::<R>(),
            mt == acts@.len(),
            nb <= b@.len(),
            forall|r: int| 0 <= r < mt ==> nb <= #[trigger] acts@[r]@.len(),
            mt * 8 <= out@.len(),
            out@.len() == start.len(),
            forall|r: int, k: int|
                0 <= r < mt && 0 <= k < j ==> out@[#[trigger] tile(r, k)] == tiled_dot::<R, Column>(
                    columns_of(b@, k),
                    acts@[r]@,
                    nb as nat,
                ),
            forall|i: int| mt * 8 <= i < out@.len() ==> #[trigger] out@[i] == start[i],
    {
        let xs = columns(b, nb, j);
        tile_column(&xs, acts, nb, j, 0, mt, out);
        proof {
            let whole = columns_of(b@, j as int);
            lemma_runs_same::<R, Column>(xs@, whole, nb as nat);
            assert forall|r: int, k: int| 0 <= r < mt && 0 <= k < j + 1 implies out@[#[trigger] tile(
                r,
                k,
            )] == tiled_dot::<R, Column>(columns_of(b@, k), acts@[r]@, nb as nat) by {
                if k == j {
                    tiled_dot_reads_the_column::<R, Column, Column>(
                        xs@,
                        whole,
                        acts@[r]@,
                        nb as nat,
                    );
                }
            }
        }
    }
}

/// The same tile, its rows taken in strips of `RT`.
pub fn gemm_group_avx2_rt<R: Real, const RT: usize>(
    b: &[BlockQ4Kx8],
    acts: &[&[BlockQ8K<R>]],
    nb: usize,
    out: &mut [R],
)
    requires
        lawful::<R>(),
        acts@.len() <= 8,
        RT > 0 || acts@.len() == 0,
        nb <= b@.len(),
        forall|r: int| 0 <= r < acts@.len() ==> nb <= #[trigger] acts@[r]@.len(),
        acts@.len() * 8 <= old(out)@.len(),
    ensures
        final(out)@.len() == old(out)@.len(),
        forall|r: int, j: int|
            0 <= r < acts@.len() && 0 <= j < 8 ==> final(out)@[#[trigger] tile(r, j)] == tiled_dot::<
                R,
                Column,
            >(columns_of(b@, j), acts@[r]@, nb as nat),
        forall|i: int|
            acts@.len() * 8 <= i < final(out)@.len() ==> #[trigger] final(out)@[i] == old(out)@[i],
{
    let ghost start = out@;
    let mt: usize = acts.len();
    for j in 0..8usize
        invariant
            lawful::<R>(),
            mt == acts@.len(),
        RT > 0 || mt == 0,
            nb <= b@.len(),
            forall|r: int| 0 <= r < mt ==> nb <= #[trigger] acts@[r]@.len(),
            mt * 8 <= out@.len(),
            out@.len() == start.len(),
            forall|r: int, k: int|
                0 <= r < mt && 0 <= k < j ==> out@[#[trigger] tile(r, k)] == tiled_dot::<R, Column>(
                    columns_of(b@, k),
                    acts@[r]@,
                    nb as nat,
                ),
            forall|i: int| mt * 8 <= i < out@.len() ==> #[trigger] out@[i] == start[i],
    {
        let xs = columns(b, nb, j);
        let ghost before = out@;
        let mut first: usize = 0;
        while first < mt
            invariant
                lawful::<R>(),
                j < 8,
                first <= mt,
                mt == acts@.len(),
                RT > 0 || mt == 0,
                nb <= xs@.len(),
                forall|r: int| 0 <= r < mt ==> nb <= #[trigger] acts@[r]@.len(),
                mt * 8 <= out@.len(),
                out@.len() == before.len(),
                forall|r: int, k: int|
                    0 <= r < first && k == j ==> out@[#[trigger] tile(r, k)] == tiled_dot::<R, Column>(
                        xs@,
                        acts@[r]@,
                        nb as nat,
                    ),
                forall|i: int|
                    0 <= i < out@.len() && !(i % 8 == j && i / 8 < first) ==> #[trigger] out@[i]
                        == before[i],
            decreases mt - first,
        {
            let left: usize = mt - first;
            let count: usize = if RT < left {
                RT
            } else {
                left
            };
            tile_column(&xs, acts, nb, j, first, count, out);
            first = first + count;
        }
        proof {
            let whole = columns_of(b@, j as int);
            lemma_runs_same::<R, Column>(xs@, whole, nb as nat);
            assert forall|r: int, k: int| 0 <= r < mt && 0 <= k < j + 1 implies out@[#[trigger] tile(
                r,
                k,
            )] == tiled_dot::<R, Column>(columns_of(b@, k), acts@[r]@, nb as nat) by {
                if k == j {
                    tiled_dot_reads_the_column::<R, Column, Column>(
                        xs@,
                        whole,
                        acts@[r]@,
                        nb as nat,
                    );
                }
            }
        }
    }
}

/// The same strips, the scales taken from a prepared group.
pub fn gemm_group_avx2_pre_rt<R: Real, const RT: usize>(
    b: &[BlockQ4Kx8],
    acts: &[&[BlockQ8K<R>]],
    nb: usize,
    gs: &[GroupScales<R>],
    out: &mut [R],
)
    requires
        lawful::<R>(),
        acts@.len() <= 8,
        RT > 0 || acts@.len() == 0,
        nb <= gs@.len(),
        nb <= b@.len(),
        forall|r: int| 0 <= r < acts@.len() ==> nb <= #[trigger] acts@[r]@.len(),
        acts@.len() * 8 <= old(out)@.len(),
    ensures
        final(out)@.len() == old(out)@.len(),
        forall|r: int, j: int|
            0 <= r < acts@.len() && 0 <= j < 8 ==> final(out)@[#[trigger] tile(r, j)] == tiled_dot::<
                R,
                Prepared<R>,
            >(prepared_of(b@, gs@, j), acts@[r]@, nb as nat),
        forall|i: int|
            acts@.len() * 8 <= i < final(out)@.len() ==> #[trigger] final(out)@[i] == old(out)@[i],
{
    let ghost start = out@;
    let mt: usize = acts.len();
    for j in 0..8usize
        invariant
            lawful::<R>(),
            mt == acts@.len(),
        RT > 0 || mt == 0,
        nb <= gs@.len(),
            nb <= b@.len(),
            forall|r: int| 0 <= r < mt ==> nb <= #[trigger] acts@[r]@.len(),
            mt * 8 <= out@.len(),
            out@.len() == start.len(),
            forall|r: int, k: int|
                0 <= r < mt && 0 <= k < j ==> out@[#[trigger] tile(r, k)] == tiled_dot::<R, Prepared<R>>(
                    prepared_of(b@, gs@, k),
                    acts@[r]@,
                    nb as nat,
                ),
            forall|i: int| mt * 8 <= i < out@.len() ==> #[trigger] out@[i] == start[i],
    {
        let xs = prepared(b, gs, nb, j);
        let ghost before = out@;
        let mut first: usize = 0;
        while first < mt
            invariant
                lawful::<R>(),
                j < 8,
                first <= mt,
                mt == acts@.len(),
                RT > 0 || mt == 0,
                nb <= xs@.len(),
                forall|r: int| 0 <= r < mt ==> nb <= #[trigger] acts@[r]@.len(),
                mt * 8 <= out@.len(),
                out@.len() == before.len(),
                forall|r: int, k: int|
                    0 <= r < first && k == j ==> out@[#[trigger] tile(r, k)] == tiled_dot::<R, Prepared<R>>(
                        xs@,
                        acts@[r]@,
                        nb as nat,
                    ),
                forall|i: int|
                    0 <= i < out@.len() && !(i % 8 == j && i / 8 < first) ==> #[trigger] out@[i]
                        == before[i],
            decreases mt - first,
        {
            let left: usize = mt - first;
            let count: usize = if RT < left {
                RT
            } else {
                left
            };
            tile_column(&xs, acts, nb, j, first, count, out);
            first = first + count;
        }
        proof {
            let whole = prepared_of(b@, gs@, j as int);
            lemma_runs_same::<R, Prepared<R>>(xs@, whole, nb as nat);
            assert forall|r: int, k: int| 0 <= r < mt && 0 <= k < j + 1 implies out@[#[trigger] tile(
                r,
                k,
            )] == tiled_dot::<R, Prepared<R>>(prepared_of(b@, gs@, k), acts@[r]@, nb as nat) by {
                if k == j {
                    tiled_dot_reads_the_column::<R, Prepared<R>, Prepared<R>>(
                        xs@,
                        whole,
                        acts@[r]@,
                        nb as nat,
                    );
                }
            }
        }
    }
}

} // verus!
