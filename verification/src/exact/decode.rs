//! What the bytes of a block stand for, in numbers: each format's values written out from its
//! fields, byte by byte.
use vstd::prelude::*;
use crate::arith::{Half, Real, rbits, rhalf, rint, rmul};
use crate::blocks::Quantized;
use crate::exact::numbers::exact;
use crate::format::iq2_grid::IQ2XXS_GRID;
use crate::format::iq2_xxs::{
    BlockIq2Xxs, byte_of, grid_of, index_of, level_of, selector_of, seven_of, sign_bit, sign_r,
    sub_step, word_of,
};
use crate::format::mxfp4::BlockMxFp4;
use crate::format::q2_k::BlockQ2K;
use crate::format::q3_k::BlockQ3K;
use crate::format::q4_0::BlockQ4_0;
use crate::format::q4_1::BlockQ4_1;
use crate::format::q4_k::BlockQ4K;
use crate::format::q5_0::BlockQ5_0;
use crate::format::q5_1::BlockQ5_1;
use crate::format::q5_k::BlockQ5K;
use crate::format::q6_k::BlockQ6K;
use crate::format::q8_0::BlockQ8_0;
use crate::format::q8_1::BlockQ8_1;
use crate::format::q8_k::BlockQ8K;

verus! {

/// `2^k`, for the bits of a byte.
pub open spec fn two_to(k: int) -> int {
    if k <= 0 {
        1
    } else if k == 1 {
        2
    } else if k == 2 {
        4
    } else if k == 3 {
        8
    } else if k == 4 {
        16
    } else if k == 5 {
        32
    } else if k == 6 {
        64
    } else if k == 7 {
        128
    } else {
        256
    }
}

/// The `n` bits of a byte from bit `at` on, as a number.
pub open spec fn field(b: u8, at: int, n: int) -> int {
    (b as int / two_to(at)) % two_to(n)
}

/// Four bits of sixteen bytes: the low halves are the first sixteen codes, the high halves the
/// last.
pub open spec fn four_bits_at(qs: Seq<u8>, e: int) -> int {
    field(qs[e % 16], 4 * (e / 16), 4)
}

/// Bit `e` of four bytes, the first lowest.
pub open spec fn bit_at(qh: Seq<u8>, e: int) -> int {
    field(qh[e / 8], e % 8, 1)
}

/// Value `e` of a q4_0 block: the four-bit code, eight taken off, times the scale.
pub proof fn q4_0_reads<R: Real>(val: spec_fn(R) -> real, b: BlockQ4_0, e: int)
    requires
        exact(val),
        0 <= e < 32,
    ensures
        val(<BlockQ4_0 as Quantized<R>>::value(b, e)) == (four_bits_at(b.qs@, e) - 8) as real
            * val(rhalf::<R>(b.d)),
{
}

/// Value `e` of a q4_1 block: the four-bit code times the scale, and the minimum.
pub proof fn q4_1_reads<R: Real>(val: spec_fn(R) -> real, b: BlockQ4_1, e: int)
    requires
        exact(val),
        0 <= e < 32,
    ensures
        val(<BlockQ4_1 as Quantized<R>>::value(b, e)) == four_bits_at(b.qs@, e) as real * val(
            rhalf::<R>(b.d),
        ) + val(rhalf::<R>(b.m)),
{
}

/// Value `e` of a q5_0 block: four bits and the fifth from its own bytes, sixteen taken off, times
/// the scale.
pub proof fn q5_0_reads<R: Real>(val: spec_fn(R) -> real, b: BlockQ5_0, e: int)
    requires
        exact(val),
        0 <= e < 32,
    ensures
        val(<BlockQ5_0 as Quantized<R>>::value(b, e)) == (four_bits_at(b.qs@, e) + 16 * bit_at(
            b.qh@,
            e,
        ) - 16) as real * val(rhalf::<R>(b.d)),
{
}

/// Value `e` of a q5_1 block: the five-bit code times the scale, and the minimum.
pub proof fn q5_1_reads<R: Real>(val: spec_fn(R) -> real, b: BlockQ5_1, e: int)
    requires
        exact(val),
        0 <= e < 32,
    ensures
        val(<BlockQ5_1 as Quantized<R>>::value(b, e)) == (four_bits_at(b.qs@, e) + 16 * bit_at(
            b.qh@,
            e,
        )) as real * val(rhalf::<R>(b.d)) + val(rhalf::<R>(b.m)),
{
}

/// Value `e` of a q8_0 block: its byte times the scale.
pub proof fn q8_0_reads<R: Real>(val: spec_fn(R) -> real, b: BlockQ8_0, e: int)
    requires
        exact(val),
        0 <= e < 32,
    ensures
        val(<BlockQ8_0 as Quantized<R>>::value(b, e)) == b.qs@[e] as real * val(rhalf::<R>(b.d)),
{
}

/// Value `e` of a q8_1 block: its byte times the scale.
pub proof fn q8_1_reads<R: Real>(val: spec_fn(R) -> real, b: BlockQ8_1, e: int)
    requires
        exact(val),
        0 <= e < 32,
    ensures
        val(<BlockQ8_1 as Quantized<R>>::value(b, e)) == b.qs@[e] as real * val(rhalf::<R>(b.d)),
{
}

/// Value `e` of a q8_K block: its byte times the scale.
pub proof fn q8k_reads<R: Real>(val: spec_fn(R) -> real, b: BlockQ8K<R>, e: int)
    requires
        exact(val),
        0 <= e < 256,
    ensures
        val(b.value(e)) == b.qs@[e] as real * val(b.d),
{
}

/// The number a four-bit table code stands for: a sign, and one of eight magnitudes.
pub open spec fn table_at(code: int) -> int {
    let m = code % 8;
    let size: int = if m <= 4 {
        m
    } else if m == 5 {
        6
    } else if m == 6 {
        8
    } else {
        12
    };
    if code < 8 {
        size
    } else {
        -size
    }
}

/// Value `e` of an mxfp4 block: its table number times the power of two the exponent names, which
/// in single precision is an exponent field, or a denormal where that runs out.
pub proof fn mxfp4_reads<R: Real>(val: spec_fn(R) -> real, b: BlockMxFp4, e: int)
    requires
        exact(val),
        0 <= e < 32,
    ensures
        val(<BlockMxFp4 as Quantized<R>>::value(b, e)) == table_at(four_bits_at(b.qs@, e)) as real
            * val(
            rbits::<R>(
                (if b.e == 0 {
                    0x0020_0000
                } else if b.e == 1 {
                    0x0040_0000
                } else {
                    (b.e - 1) * 0x0080_0000
                }) as u32,
            ),
        ),
{
    let c = four_bits_at(b.qs@, e);
    assert(0 <= c < 16);
    assert(crate::blocks::KVALUES_MXFP4@[c] == table_at(c));
}

/// Two bits of sixty-four bytes: each run of 128 values takes 32 bytes, a pair of bits to each
/// thirty-two of them.
pub open spec fn two_bits_at(qs: Seq<u8>, e: int) -> int {
    field(qs[32 * (e / 128) + e % 32], 2 * ((e % 128) / 32), 2)
}

/// Four bits of 128 bytes: each run of 64 values takes 32 bytes, the low halves first.
pub open spec fn wide_four_bits_at(qs: Seq<u8>, e: int) -> int {
    field(qs[32 * (e / 64) + e % 32], 4 * ((e % 64) / 32), 4)
}

/// One bit of thirty-two bytes: bit `e / 32` of byte `e % 32`.
pub open spec fn plane_at(qh: Seq<u8>, e: int) -> int {
    field(qh[e % 32], e / 32, 1)
}

/// The two bits of value `e`, found by the sixteen values it belongs to.
pub(crate) proof fn lemma_two_bits(qs: Seq<u8>, e: int)
    requires
        0 <= e < 256,
    ensures
        crate::format::q2_k::crumb_code(qs, e) == two_bits_at(qs, e),
        0 <= two_bits_at(qs, e) < 4,
{
    let s = e / 16;
    assert(s / 8 == e / 128);
    assert(16 * (s % 2) + e % 16 == e % 32);
    assert((s % 8) / 2 == (e % 128) / 32);
    let k = 2 * ((e % 128) / 32);
    assert(k == 0 || k == 2 || k == 4 || k == 6);
}

/// The six bits of value `e`.
pub(crate) proof fn lemma_six_bits(ql: Seq<u8>, qh: Seq<u8>, e: int)
    requires
        0 <= e < 256,
    ensures
        crate::format::q6_k::six_bits(ql, qh, e) == field(
            ql[64 * (e / 128) + e % 64],
            4 * ((e % 128) / 64),
            4,
        ) + 16 * field(qh[32 * (e / 128) + e % 32], 2 * ((e % 128) / 32), 2),
        0 <= crate::format::q6_k::six_bits(ql, qh, e) < 64,
{
    lemma_places(e);
    lemma_fields(ql[64 * (e / 128) + e % 64]);
    lemma_fields(qh[32 * (e / 128) + e % 32]);
}

/// Where value `e` of 256 lies in its run of 128.
proof fn lemma_places(e: int)
    requires
        0 <= e < 256,
    ensures
        32 * (((e % 128) / 32) % 2) + e % 32 == e % 64,
        0 <= (e % 128) / 32 < 4,
        (e % 128) / 64 == (if (e % 128) / 32 < 2 {
            0int
        } else {
            1
        }),
{
    let m = e % 128;
    assert(e == 128 * (e / 128) + m);
    assert(m % 64 == e % 64);
    assert(m % 32 == e % 32);
    lemma_quarters(m);
}

/// The same, inside the run.
proof fn lemma_quarters(m: int)
    requires
        0 <= m < 128,
    ensures
        32 * ((m / 32) % 2) + m % 32 == m % 64,
        m / 64 == (if m / 32 < 2 {
            0int
        } else {
            1
        }),
{
    if m < 32 {
    } else if m < 64 {
    } else if m < 96 {
    } else {
    }
}

/// The fields of a byte, written as quotients.
proof fn lemma_fields(b: u8)
    ensures
        field(b, 0, 4) == b as int % 16,
        field(b, 4, 4) == b as int / 16,
        field(b, 0, 2) == crate::blocks::crumb_of(b, 0),
        field(b, 2, 2) == crate::blocks::crumb_of(b, 2),
        field(b, 4, 2) == crate::blocks::crumb_of(b, 4),
        field(b, 6, 2) == crate::blocks::crumb_of(b, 6),
        0 <= crate::blocks::crumb_of(b, 0) < 4,
        0 <= crate::blocks::crumb_of(b, 2) < 4,
        0 <= crate::blocks::crumb_of(b, 4) < 4,
        0 <= crate::blocks::crumb_of(b, 6) < 4,
{
}

/// Value `e` of a q2_K block: `d` times the scale of its sixteen times its code, less `dmin` times
/// their minimum.
pub proof fn q2k_reads<R: Real>(val: spec_fn(R) -> real, b: BlockQ2K, e: int)
    requires
        exact(val),
        0 <= e < 256,
    ensures
        val(<BlockQ2K as Quantized<R>>::value(b, e)) == (val(rhalf::<R>(b.d)) * field(
            b.scales@[e / 16],
            0,
            4,
        ) as real) * two_bits_at(b.qs@, e) as real - val(rhalf::<R>(b.dmin)) * field(
            b.scales@[e / 16],
            4,
            4,
        ) as real,
{
    lemma_two_bits(b.qs@, e);
}

/// Six bits of twelve bytes: the low four of scale `s` from bytes `0..8`, the high two from bytes
/// `8..12`.
pub open spec fn six_bit_scale(p: Seq<u8>, s: int) -> int {
    field(p[s % 8], 4 * (s / 8), 4) + 16 * field(p[8 + s % 4], 2 * (s / 4), 2)
}

/// Value `e` of a q3_K block: `d` times the scale of its sixteen, thirty-two taken off, times its
/// three-bit code, four taken off.
pub proof fn q3k_reads<R: Real>(val: spec_fn(R) -> real, b: BlockQ3K, e: int)
    requires
        exact(val),
        0 <= e < 256,
    ensures
        val(<BlockQ3K as Quantized<R>>::value(b, e)) == (val(rhalf::<R>(b.d)) * (six_bit_scale(
            b.scales@,
            e / 16,
        ) - 32) as real) * (two_bits_at(b.qs@, e) + 4 * plane_at(b.hmask@, e) - 4) as real,
{
    lemma_two_bits(b.qs@, e);
}

/// Scale `i` of eight six-bit pairs in twelve bytes: the low six bits of byte `i` for the first
/// four; for the last four, the low four bits of byte `i + 4` under the two highest of byte
/// `i - 4`.
pub open spec fn packed_scale(p: Seq<u8>, i: int) -> int {
    if i < 4 {
        field(p[i], 0, 6)
    } else {
        field(p[i + 4], 0, 4) + 16 * field(p[i - 4], 6, 2)
    }
}

/// Minimum `i` of eight: four bytes on, and from the high halves.
pub open spec fn packed_min(p: Seq<u8>, i: int) -> int {
    if i < 4 {
        field(p[i + 4], 0, 6)
    } else {
        field(p[i + 4], 4, 4) + 16 * field(p[i], 6, 2)
    }
}

/// The four bits of value `e` of 256, and where its thirty-two are.
pub(crate) proof fn lemma_wide(qs: Seq<u8>, e: int)
    requires
        0 <= e < 256,
    ensures
        crate::format::q4_k::wide_nibble(qs, e) == wide_four_bits_at(qs, e),
        0 <= wide_four_bits_at(qs, e) < 16,
        (e / 16) / 2 == e / 32,
{
    assert((e / 32) % 2 == (e % 64) / 32);
    lemma_fields(qs[32 * (e / 64) + e % 32]);
}

/// The packed scales and minimums are six-bit numbers.
pub(crate) proof fn lemma_packed(p: Seq<u8>, i: int)
    requires
        0 <= i < 8,
    ensures
        crate::blocks::k_scale(p, i) == packed_scale(p, i),
        crate::blocks::k_min(p, i) == packed_min(p, i),
        0 <= packed_scale(p, i) < 64,
        0 <= packed_min(p, i) < 64,
{
}

/// Value `e` of a q4_K block: `d` times the scale of its thirty-two times its code, less `dmin`
/// times their minimum.
pub proof fn q4k_reads<R: Real>(val: spec_fn(R) -> real, b: BlockQ4K, e: int)
    requires
        exact(val),
        0 <= e < 256,
    ensures
        val(<BlockQ4K as Quantized<R>>::value(b, e)) == (val(rhalf::<R>(b.d)) * packed_scale(
            b.scales@,
            e / 32,
        ) as real) * wide_four_bits_at(b.qs@, e) as real - val(rhalf::<R>(b.dmin)) * packed_min(
            b.scales@,
            e / 32,
        ) as real,
{
    assert((e / 16) / 2 == e / 32 && (e / 32) % 2 == (e % 64) / 32);
}

/// Value `e` of a q5_K block: `d` times the scale of its thirty-two times its five-bit code, less
/// `dmin` times their minimum.
pub proof fn q5k_reads<R: Real>(val: spec_fn(R) -> real, b: BlockQ5K, e: int)
    requires
        exact(val),
        0 <= e < 256,
    ensures
        val(<BlockQ5K as Quantized<R>>::value(b, e)) == (val(rhalf::<R>(b.d)) * packed_scale(
            b.scales@,
            e / 32,
        ) as real) * (wide_four_bits_at(b.qs@, e) + 16 * plane_at(b.qh@, e)) as real - val(
            rhalf::<R>(b.dmin),
        ) * packed_min(b.scales@, e / 32) as real,
{
    assert((e / 16) / 2 == e / 32 && (e / 32) % 2 == (e % 64) / 32);
}

/// Value `e` of a q6_K block: `d` times the scale of its sixteen times its six-bit code, thirty-two
/// taken off. Each run of 128 values takes 64 bytes of low halves and 32 bytes of high pairs.
pub proof fn q6k_reads<R: Real>(val: spec_fn(R) -> real, b: BlockQ6K, e: int)
    requires
        exact(val),
        0 <= e < 256,
    ensures
        val(<BlockQ6K as Quantized<R>>::value(b, e)) == (val(rhalf::<R>(b.d)) * b.scales@[e / 16]
            as real) * (field(b.ql@[64 * (e / 128) + e % 64], 4 * ((e % 128) / 64), 4) + 16 * field(
            b.qh@[32 * (e / 128) + e % 32],
            2 * ((e % 128) / 32),
            2,
        ) - 32) as real,
{
    lemma_six_bits(b.ql@, b.qh@, e);
}

/// The byte of `w` from bit `8 * k` on.
pub open spec fn eighth(w: int, k: int) -> int {
    if k == 0 {
        w % 256
    } else if k == 1 {
        (w / 256) % 256
    } else if k == 2 {
        (w / 65536) % 256
    } else if k == 3 {
        (w / 16777216) % 256
    } else if k == 4 {
        (w / 4294967296) % 256
    } else if k == 5 {
        (w / 1099511627776) % 256
    } else if k == 6 {
        (w / 281474976710656) % 256
    } else {
        (w / 72057594037927936) % 256
    }
}

/// How many of the lowest seven bits of `i` are set.
pub open spec fn ones(i: int) -> int {
    i % 2 + (i / 2) % 2 + (i / 4) % 2 + (i / 8) % 2 + (i / 16) % 2 + (i / 32) % 2 + (i / 64) % 2
}

/// The selector of group `l` of a sub-block: seven bits of the upper word.
pub open spec fn seven_bits(w: int, l: int) -> int {
    if l == 0 {
        w % 128
    } else if l == 1 {
        (w / 128) % 128
    } else if l == 2 {
        (w / 16384) % 128
    } else {
        (w / 2097152) % 128
    }
}

/// Value `e` of an iq2_xxs block. Each thirty-two values have two words: a grid index for each
/// eight of them; and seven sign bits for each eight, the eighth making their number even, under
/// four bits of level. The value is `d * (1/2 + level) / 4` times the grid's byte, signed.
pub proof fn iq2_reads<R: Real>(val: spec_fn(R) -> real, b: BlockIq2Xxs, e: int)
    requires
        exact(val),
        val(rbits::<R>(0x3F00_0000)) * 2 as real == 1 as real,
        val(rbits::<R>(0x3E80_0000)) * 4 as real == 1 as real,
        0 <= e < 256,
    ensures
        ({
            let (s, l, k) = (e / 32, (e / 8) % 4, e % 8);
            let lo = b.qs@[4 * s] + 65536 * b.qs@[4 * s + 1];
            let hi = b.qs@[4 * s + 2] + 65536 * b.qs@[4 * s + 3];
            let sel = seven_bits(hi, l);
            let g = eighth(IQ2XXS_GRID@[eighth(lo, l)] as int, k);
            let minus = if k < 7 {
                (sel / two_to(k)) % 2 == 1
            } else {
                ones(sel) % 2 == 1
            };
            let n = if minus {
                -g
            } else {
                g
            };
            8 as real * val(<BlockIq2Xxs as Quantized<R>>::value(b, e)) == (val(rhalf::<R>(b.d)) * (
            1 + 2 * (hi / 268435456)) as real) * n as real
        }),
{
    let (s, l, k) = (e / 32, (e / 8) % 4, e % 8);
    let hi = b.qs@[4 * s + 2] + 65536 * b.qs@[4 * s + 3];
    lemma_iq2_fields(b.qs@, e);
    let g = grid_of(index_of(b.qs@, s, l), k);
    let minus = sign_bit(selector_of(b.qs@, s, l) as u8, k) == 1;
    assert(level_of(b.qs@, s) == hi / 268435456);
    lemma_iq2_number(val, b.d, level_of(b.qs@, s), g, minus);
}

/// The fields of value `e`, as the block spells them.
proof fn lemma_iq2_fields(qs: Seq<u16>, e: int)
    requires
        0 <= e < 256,
    ensures
        ({
            let (s, l, k) = (e / 32, (e / 8) % 4, e % 8);
            let lo = qs[4 * s] + 65536 * qs[4 * s + 1];
            let hi = qs[4 * s + 2] + 65536 * qs[4 * s + 3];
            let sel = seven_bits(hi, l);
            &&& l == (e % 32) / 8
            &&& index_of(qs, s, l) == eighth(lo, l)
            &&& selector_of(qs, s, l) == sel
            &&& 0 <= sel < 128
            &&& grid_of(index_of(qs, s, l), k) == eighth(IQ2XXS_GRID@[eighth(lo, l)] as int, k)
            &&& 0 <= grid_of(index_of(qs, s, l), k) < 256
            &&& level_of(qs, s) == hi / 268435456
            &&& 0 <= level_of(qs, s) < 16
            &&& (sign_bit(sel as u8, k) == 1) == (if k < 7 {
                (sel / two_to(k)) % 2 == 1
            } else {
                ones(sel) % 2 == 1
            })
        }),
{
    let (s, l, k) = (e / 32, (e / 8) % 4, e % 8);
    let lo = qs[4 * s] + 65536 * qs[4 * s + 1];
    let hi = qs[4 * s + 2] + 65536 * qs[4 * s + 3];
    assert(0 <= lo < 4294967296 && 0 <= hi < 4294967296);
    assert(l == (e % 32) / 8);
    lemma_eighths(lo, l);
    lemma_level(hi, l);
    assert(word_of(qs, 4 * s) == lo && word_of(qs, 4 * s + 2) == hi);
    lemma_grid(eighth(lo, l), k);
    lemma_sign(seven_bits(hi, l), k);
}

/// The bytes of a word.
proof fn lemma_eighths(w: int, l: int)
    requires
        0 <= w < 4294967296,
        0 <= l < 4,
    ensures
        byte_of(w, l) == eighth(w, l),
        0 <= eighth(w, l) < 256,
{
}

/// The selectors and the level of a word.
proof fn lemma_level(w: int, l: int)
    requires
        0 <= w < 4294967296,
        0 <= l < 4,
    ensures
        seven_of(w, l) == seven_bits(w, l),
        0 <= seven_bits(w, l) < 128,
        0 <= w / 268435456 < 16,
{
}

/// The bytes of a grid point.
proof fn lemma_grid(n: int, k: int)
    requires
        0 <= n < 256,
        0 <= k < 8,
    ensures
        grid_of(n, k) == eighth(IQ2XXS_GRID@[n] as int, k),
        0 <= grid_of(n, k) < 256,
{
    reveal(grid_of);
    lemma_top_byte(IQ2XXS_GRID@[n]);
}

/// The highest byte of a long word needs no remainder.
proof fn lemma_top_byte(w: u64)
    ensures
        (w as int / 72057594037927936) % 256 == w as int / 72057594037927936,
        0 <= w as int / 72057594037927936 < 256,
{
    assert(w as int / 72057594037927936 < 256) by (nonlinear_arith)
        requires
            0 <= w as int <= 18446744073709551615,
    ;
}

/// A sign bit of a selector.
proof fn lemma_sign(sel: int, k: int)
    requires
        0 <= sel < 128,
        0 <= k < 8,
    ensures
        (sign_bit(sel as u8, k) == 1) == (if k < 7 {
            (sel / two_to(k)) % 2 == 1
        } else {
            ones(sel) % 2 == 1
        }),
{
}

/// A step, a grid byte and a sign, as a number.
proof fn lemma_iq2_number<R: Real>(
    val: spec_fn(R) -> real,
    half: Half,
    level: int,
    g: int,
    minus: bool,
)
    requires
        exact(val),
        val(rbits::<R>(0x3F00_0000)) * 2 as real == 1 as real,
        val(rbits::<R>(0x3E80_0000)) * 4 as real == 1 as real,
        0 <= level < 16,
        0 <= g < 256,
    ensures
        8 as real * val(
            rmul(
                rmul(sub_step(rhalf::<R>(half), level), rint(g as i32)),
                sign_r::<R>(minus),
            ),
        ) == (val(rhalf::<R>(half)) * (1 + 2 * level) as real) * (if minus {
            -g
        } else {
            g
        }) as real,
{
    let (d, h, q) = (
        val(rhalf::<R>(half)),
        val(rbits::<R>(0x3F00_0000)),
        val(rbits::<R>(0x3E80_0000)),
    );
    let (lr, gr) = (level as real, g as real);
    let t = h + lr;
    assert(val(sub_step(rhalf::<R>(half), level)) == (d * t) * q);
    let sr = if minus {
        -1 as real
    } else {
        1 as real
    };
    assert(val(sign_r::<R>(minus)) == sr);
    let n = (if minus {
        -g
    } else {
        g
    }) as real;
    assert(gr * sr == n) by (nonlinear_arith)
        requires
            (sr == 1 as real && n == gr) || (sr == -1 as real && n == -gr),
    ;
    let x = d * t;
    assert(((x * q) * gr) * sr == (x * q) * (gr * sr)) by (nonlinear_arith);
    let (u, v) = (x * q, 4 as real * q);
    assert(v == 1 as real) by (nonlinear_arith)
        requires
            v == 4 as real * q,
            q * 4 as real == 1 as real,
    ;
    assert(4 as real * u == x) by (nonlinear_arith)
        requires
            u == x * q,
            4 as real * q == 1 as real,
    ;
    let y = 2 as real * x;
    assert(8 as real * (u * n) == y * n) by (nonlinear_arith)
        requires
            4 as real * u == x,
            y == 2 as real * x,
    ;
    assert(y == d * (2 as real * t)) by (nonlinear_arith)
        requires
            y == 2 as real * x,
            x == d * t,
    ;
    assert(2 as real * t == 1 as real + 2 as real * lr) by (nonlinear_arith)
        requires
            t == h + lr,
            h * 2 as real == 1 as real,
    ;
    assert((1 + 2 * level) as real == 1 as real + 2 as real * lr);
}

} // verus!
