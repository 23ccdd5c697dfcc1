//! Block geometry, and what every block format shares.
//!
//! A block is a fixed number of values under a few scales. What a block's bits stand for is a
//! property of the format ([`Quantized`]); how two runs of blocks multiply is a property of a
//! pair of formats ([`BlockFormat`]), because a weight meets an activation quantised to the
//! format its own codes expect.
use vstd::prelude::*;
use crate::arith::{Real, lawful, rbits, from_bits};

verus! {

/// Values in a k-quant super-block.
pub const QK_K: usize = 256;

/// Bytes holding the packed sub-block scales of q4_K and q5_K.
pub const K_SCALE_SIZE: usize = 12;

pub const QK4_0: usize = 32;

pub const QK4_1: usize = 32;

pub const QK5_0: usize = 32;

pub const QK5_1: usize = 32;

pub const QK8_0: usize = 32;

pub const QK8_1: usize = 32;

pub const QK_MXFP4: usize = 32;

/// What each four-bit MXFP4 code stands for, doubled: the half is folded into the block scale.
pub const KVALUES_MXFP4: [i8; 16] = [0, 1, 2, 3, 4, 6, 8, 12, 0, -1, -2, -3, -4, -6, -8, -12];

/// The storage types a tensor can have.
#[derive(Clone, Copy, Debug, PartialEq, Eq, Structural)]
pub enum GgmlDType {
    F32,
    F16,
    BF16,
    Q4_0,
    Q4_1,
    Q5_0,
    Q5_1,
    Q8_0,
    Q8_1,
    Q2K,
    Q3K,
    Q4K,
    Q5K,
    Q6K,
    Q8K,
    MxFp4,
    Iq2Xxs,
}

impl GgmlDType {
    /// What the type is called.
    pub open spec fn called(self) -> Seq<char> {
        match self {
            GgmlDType::F32 => "F32"@,
            GgmlDType::F16 => "F16"@,
            GgmlDType::BF16 => "BF16"@,
            GgmlDType::Q4_0 => "Q4_0"@,
            GgmlDType::Q4_1 => "Q4_1"@,
            GgmlDType::Q5_0 => "Q5_0"@,
            GgmlDType::Q5_1 => "Q5_1"@,
            GgmlDType::Q8_0 => "Q8_0"@,
            GgmlDType::Q8_1 => "Q8_1"@,
            GgmlDType::Q2K => "Q2K"@,
            GgmlDType::Q3K => "Q3K"@,
            GgmlDType::Q4K => "Q4K"@,
            GgmlDType::Q5K => "Q5K"@,
            GgmlDType::Q6K => "Q6K"@,
            GgmlDType::Q8K => "Q8K"@,
            GgmlDType::MxFp4 => "MxFp4"@,
            GgmlDType::Iq2Xxs => "Iq2Xxs"@,
        }
    }

    /// What the type is called.
    pub fn name(self) -> (s: &'static str)
        ensures
            s@ == self.called(),
    {
        match self {
            GgmlDType::F32 => "F32",
            GgmlDType::F16 => "F16",
            GgmlDType::BF16 => "BF16",
            GgmlDType::Q4_0 => "Q4_0",
            GgmlDType::Q4_1 => "Q4_1",
            GgmlDType::Q5_0 => "Q5_0",
            GgmlDType::Q5_1 => "Q5_1",
            GgmlDType::Q8_0 => "Q8_0",
            GgmlDType::Q8_1 => "Q8_1",
            GgmlDType::Q2K => "Q2K",
            GgmlDType::Q3K => "Q3K",
            GgmlDType::Q4K => "Q4K",
            GgmlDType::Q5K => "Q5K",
            GgmlDType::Q6K => "Q6K",
            GgmlDType::Q8K => "Q8K",
            GgmlDType::MxFp4 => "MxFp4",
            GgmlDType::Iq2Xxs => "Iq2Xxs",
        }
    }
}

/// The low four bits of a byte.
pub open spec fn low4(b: u8) -> int {
    b as int % 16
}

/// The high four bits of a byte.
pub open spec fn high4(b: u8) -> int {
    b as int / 16
}

/// A byte without its lowest `k` bits.
pub open spec fn shifted(b: u8, k: int) -> int {
    if k == 0 {
        b as int
    } else if k == 1 {
        b as int / 2
    } else if k == 2 {
        b as int / 4
    } else if k == 3 {
        b as int / 8
    } else if k == 4 {
        b as int / 16
    } else if k == 5 {
        b as int / 32
    } else if k == 6 {
        b as int / 64
    } else {
        b as int / 128
    }
}

/// Bit `k` of a byte.
pub open spec fn bit_of(b: u8, k: int) -> int {
    shifted(b, k) % 2
}

/// The two bits of a byte that start at bit `k`.
pub open spec fn crumb_of(b: u8, k: int) -> int {
    shifted(b, k) % 4
}

/// `b` without its lowest `k` bits.
pub fn shift_right(b: u8, k: usize) -> (r: u8)
    requires
        k < 8,
    ensures
        r == shifted(b, k as int),
{
    match k {
        0 => b,
        1 => b / 2,
        2 => b / 4,
        3 => b / 8,
        4 => b / 16,
        5 => b / 32,
        6 => b / 64,
        _ => b / 128,
    }
}

/// Bit `k` of a byte.
pub fn bit(b: u8, k: usize) -> (r: u8)
    requires
        k < 8,
    ensures
        r == bit_of(b, k as int),
        r <= 1,
{
    shift_right(b, k) % 2
}

/// The two bits of a byte that start at bit `k`.
pub fn crumb(b: u8, k: usize) -> (r: u8)
    requires
        k < 8,
    ensures
        r == crumb_of(b, k as int),
        r <= 3,
{
    shift_right(b, k) % 4
}

/// A number split at bit `p` has the upper part's lowest bit there.
proof fn lemma_bit_at(r: int, low: int, b: int, high: int, p: int)
    requires
        r == low + p * (b + 2 * high),
        0 <= low < p,
        0 <= b < 2,
    ensures
        (r / p) % 2 == b,
{
    vstd::arithmetic::mul::lemma_mul_is_commutative(p, b + 2 * high);
    vstd::arithmetic::div_mod::lemma_fundamental_div_mod_converse(r, p, b + 2 * high, low);
}

/// Eight bits in one byte, the first lowest.
pub fn pack_bits(v: &[u8; 8]) -> (r: u8)
    requires
        forall|u: int| 0 <= u < 8 ==> #[trigger] v@[u] <= 1,
    ensures
        forall|u: int| 0 <= u < 8 ==> bit_of(r, u) == #[trigger] v@[u],
{
    let (a, b, c, d) = (v[0], v[1], v[2], v[3]);
    let (e, f, g, h) = (v[4], v[5], v[6], v[7]);
    let r: u8 = a + 2 * b + 4 * c + 8 * d + 16 * e + 32 * f + 64 * g + 128 * h;
    proof {
        let n = r as int;
        lemma_bit_at(n, 0, a as int, b + 2 * c + 4 * d + 8 * e + 16 * f + 32 * g + 64 * h, 1);
        lemma_bit_at(n, a as int, b as int, c + 2 * d + 4 * e + 8 * f + 16 * g + 32 * h, 2);
        lemma_bit_at(n, a + 2 * b, c as int, d + 2 * e + 4 * f + 8 * g + 16 * h, 4);
        lemma_bit_at(n, a + 2 * b + 4 * c, d as int, e + 2 * f + 4 * g + 8 * h, 8);
        lemma_bit_at(n, a + 2 * b + 4 * c + 8 * d, e as int, f + 2 * g + 4 * h, 16);
        lemma_bit_at(n, a + 2 * b + 4 * c + 8 * d + 16 * e, f as int, g + 2 * h, 32);
        lemma_bit_at(n, a + 2 * b + 4 * c + 8 * d + 16 * e + 32 * f, g as int, h as int, 64);
        lemma_bit_at(n, a + 2 * b + 4 * c + 8 * d + 16 * e + 32 * f + 64 * g, h as int, 0, 128);
        assert(n / 1 == n);
    }
    r
}

/// Four two-bit fields in one byte, the first lowest.
pub fn pack_crumbs(a: u8, b: u8, c: u8, d: u8) -> (r: u8)
    requires
        a <= 3,
        b <= 3,
        c <= 3,
        d <= 3,
    ensures
        crumb_of(r, 0) == a,
        crumb_of(r, 2) == b,
        crumb_of(r, 4) == c,
        crumb_of(r, 6) == d,
{
    a + 4 * b + 16 * c + 64 * d
}

/// The single-precision pattern of `2^(e - 128)`: a denormal below two, an exponent field above.
pub open spec fn e8m0_pattern(e: u8) -> int {
    if e < 2 {
        0x0020_0000 * (e + 1)
    } else {
        (e - 1) * 0x0080_0000
    }
}

/// The pattern an eight-bit exponent scale decodes to.
pub fn e8m0_bits(e: u8) -> (b: u32)
    ensures
        b == e8m0_pattern(e),
{
    if e == 0 {
        0x0020_0000
    } else if e == 1 {
        0x0040_0000
    } else {
        (e as u32 - 1) * 0x0080_0000
    }
}

/// The value an eight-bit exponent scale stands for.
pub open spec fn e8m0_value<R: Real>(e: u8) -> R {
    rbits::<R>(e8m0_pattern(e) as u32)
}

/// Half of `2^(e - 127)`, matching the doubled values of [`KVALUES_MXFP4`].
pub fn e8m0_to_fp32_half<R: Real>(e: u8) -> (r: R)
    requires
        lawful::<R>(),
    ensures
        r == e8m0_value::<R>(e),
{
    from_bits::<R>(e8m0_bits(e))
}

/// Scale `i` of the eight a q4_K or q5_K block packs into twelve bytes.
///
/// The first four sit in the low six bits of bytes `0..4`; the last four take their low nibble
/// from bytes `8..12` and their two high bits from the room left above the first four.
pub open spec fn k_scale(p: Seq<u8>, i: int) -> int {
    if i < 4 {
        p[i] as int % 64
    } else {
        p[i + 4] as int % 16 + 16 * (p[i - 4] as int / 64)
    }
}

/// Minimum `i` of the eight, packed likewise from bytes `4..8` and the high nibbles.
pub open spec fn k_min(p: Seq<u8>, i: int) -> int {
    if i < 4 {
        p[i + 4] as int % 64
    } else {
        p[i + 4] as int / 16 + 16 * (p[i] as int / 64)
    }
}

/// The eight scales and eight minimums of a q4_K or q5_K block, one byte each.
pub fn kquant_scales_and_mins(packed: &[u8; 12]) -> (r: ([u8; 8], [u8; 8]))
    ensures
        forall|i: int| 0 <= i < 8 ==> #[trigger] r.0@[i] == k_scale(packed@, i),
        forall|i: int| 0 <= i < 8 ==> #[trigger] r.1@[i] == k_min(packed@, i),
        forall|i: int| 0 <= i < 8 ==> #[trigger] r.0@[i] < 64,
        forall|i: int| 0 <= i < 8 ==> #[trigger] r.1@[i] < 64,
{
    let mut scales = [0u8; 8];
    let mut mins = [0u8; 8];
    for i in 0..4usize
        invariant
            forall|j: int| 0 <= j < i ==> #[trigger] scales@[j] == k_scale(packed@, j),
            forall|j: int| 0 <= j < i ==> #[trigger] mins@[j] == k_min(packed@, j),
    {
        scales[i] = packed[i] % 64;
        mins[i] = packed[i + 4] % 64;
    }
    for i in 4..8usize
        invariant
            forall|j: int| 0 <= j < i ==> #[trigger] scales@[j] == k_scale(packed@, j),
            forall|j: int| 0 <= j < i ==> #[trigger] mins@[j] == k_min(packed@, j),
    {
        let low: u8 = packed[i + 4];
        scales[i] = low % 16 + 16 * (packed[i - 4] / 64);
        mins[i] = low / 16 + 16 * (packed[i] / 64);
    }
    (scales, mins)
}

/// Byte `t` of the twelve that eight scales and eight minimums fold into.
pub open spec fn k_packed(scales: Seq<u8>, mins: Seq<u8>, t: int) -> int {
    if t < 4 {
        scales[t] as int % 64 + 64 * ((scales[t + 4] as int / 16) % 4)
    } else if t < 8 {
        mins[t - 4] as int % 64 + 64 * ((mins[t] as int / 16) % 4)
    } else {
        scales[t - 4] as int % 16 + 16 * (mins[t - 4] as int % 16)
    }
}

/// The inverse of [`kquant_scales_and_mins`].
pub fn pack_kquant_scales_and_mins(scales: &[u8; 8], mins: &[u8; 8]) -> (packed: [u8; 12])
    ensures
        forall|t: int| 0 <= t < 12 ==> #[trigger] packed@[t] == k_packed(scales@, mins@, t),
{
    let mut packed = [0u8; 12];
    for i in 0..4usize
        invariant
            forall|t: int| 0 <= t < i ==> #[trigger] packed@[t] == k_packed(scales@, mins@, t),
            forall|t: int| 4 <= t < 4 + i ==> #[trigger] packed@[t] == k_packed(scales@, mins@, t),
            forall|t: int| 8 <= t < 8 + i ==> #[trigger] packed@[t] == k_packed(scales@, mins@, t),
    {
        packed[i] = scales[i] % 64 + 64 * ((scales[i + 4] / 16) % 4);
        packed[i + 4] = mins[i] % 64 + 64 * ((mins[i + 4] / 16) % 4);
        packed[i + 8] = scales[i + 4] % 16 + 16 * (mins[i + 4] % 16);
    }
    packed
}

/// Six bits in the low end of a byte and two above them come apart again.
proof fn lemma_six_two(a: int, b: int)
    requires
        0 <= a < 64,
        0 <= b < 4,
    ensures
        (a + 64 * b) % 64 == a,
        (a + 64 * b) / 64 == b,
{
}

/// Two nibbles come apart again.
proof fn lemma_two_nibbles(a: int, b: int)
    requires
        0 <= a < 16,
        0 <= b < 16,
    ensures
        (a + 16 * b) % 16 == a,
        (a + 16 * b) / 16 == b,
{
}

/// Six bits are a nibble and two more.
proof fn lemma_four_two(v: int)
    requires
        0 <= v < 256,
    ensures
        v % 16 + 16 * ((v / 16) % 4) == v % 64,
        0 <= v % 16 < 16,
        0 <= (v / 16) % 4 < 4,
        0 <= v % 64 < 64,
{
}

/// Packing keeps the low six bits of every scale and minimum: unpacking gives them back.
pub proof fn kquant_unpack_of_pack(scales: Seq<u8>, mins: Seq<u8>, packed: Seq<u8>)
    requires
        scales.len() == 8,
        mins.len() == 8,
        packed.len() == 12,
        forall|t: int| 0 <= t < 12 ==> #[trigger] packed[t] == k_packed(scales, mins, t),
    ensures
        forall|i: int| 0 <= i < 8 ==> #[trigger] k_scale(packed, i) == scales[i] % 64,
        forall|i: int| 0 <= i < 8 ==> #[trigger] k_min(packed, i) == mins[i] % 64,
{
    assert forall|i: int| 0 <= i < 8 implies #[trigger] k_scale(packed, i) == scales[i] % 64 by {
        kquant_field(scales, mins, packed, i);
    }
    assert forall|i: int| 0 <= i < 8 implies #[trigger] k_min(packed, i) == mins[i] % 64 by {
        kquant_field(scales, mins, packed, i);
    }
}

/// One scale and one minimum through the packing.
proof fn kquant_field(scales: Seq<u8>, mins: Seq<u8>, packed: Seq<u8>, i: int)
    requires
        scales.len() == 8,
        mins.len() == 8,
        packed.len() == 12,
        0 <= i < 8,
        forall|t: int| 0 <= t < 12 ==> #[trigger] packed[t] == k_packed(scales, mins, t),
    ensures
        k_scale(packed, i) == scales[i] % 64,
        k_min(packed, i) == mins[i] % 64,
{
    let j = if i < 4 { i } else { i - 4 };
    let (s, sh) = (scales[j] as int, scales[j + 4] as int);
    let (m, mh) = (mins[j] as int, mins[j + 4] as int);
    lemma_four_two(s);
    lemma_four_two(m);
    lemma_four_two(sh);
    lemma_four_two(mh);
    lemma_six_two(s % 64, (sh / 16) % 4);
    lemma_six_two(m % 64, (mh / 16) % 4);
    lemma_two_nibbles(sh % 16, mh % 16);
    assert(packed[j] == s % 64 + 64 * ((sh / 16) % 4));
    assert(packed[j + 4] == m % 64 + 64 * ((mh / 16) % 4));
    assert(packed[j + 8] == sh % 16 + 16 * (mh % 16));
}

/// Unpacking loses nothing: packing what was unpacked gives the twelve bytes back.
pub proof fn kquant_pack_of_unpack(packed: Seq<u8>, scales: Seq<u8>, mins: Seq<u8>)
    requires
        packed.len() == 12,
        scales.len() == 8,
        mins.len() == 8,
        forall|i: int| 0 <= i < 8 ==> #[trigger] scales[i] == k_scale(packed, i),
        forall|i: int| 0 <= i < 8 ==> #[trigger] mins[i] == k_min(packed, i),
    ensures
        forall|t: int| 0 <= t < 12 ==> k_packed(scales, mins, t) == #[trigger] packed[t],
{
    assert forall|t: int| 0 <= t < 12 implies k_packed(scales, mins, t) == #[trigger] packed[t] by {
        kquant_byte(packed, scales, mins, t);
    }
}

/// One byte through unpacking and packing.
proof fn kquant_byte(packed: Seq<u8>, scales: Seq<u8>, mins: Seq<u8>, t: int)
    requires
        packed.len() == 12,
        scales.len() == 8,
        mins.len() == 8,
        0 <= t < 12,
        forall|i: int| 0 <= i < 8 ==> #[trigger] scales[i] == k_scale(packed, i),
        forall|i: int| 0 <= i < 8 ==> #[trigger] mins[i] == k_min(packed, i),
    ensures
        k_packed(scales, mins, t) == packed[t],
{
    let j = t % 4;
    let (a, b, c) = (packed[j] as int, packed[j + 4] as int, packed[j + 8] as int);
    assert(scales[j] == k_scale(packed, j) && scales[j] == a % 64);
    assert(mins[j] == k_min(packed, j) && mins[j] == b % 64);
    assert(scales[j + 4] == k_scale(packed, j + 4) && scales[j + 4] == c % 16 + 16 * (a / 64));
    assert(mins[j + 4] == k_min(packed, j + 4) && mins[j + 4] == c / 16 + 16 * (b / 64));
    lemma_two_nibbles(c % 16, a / 64);
    lemma_two_nibbles(c / 16, b / 64);
    assert(t == j || t == j + 4 || t == j + 8);
}

/// Run `b` of a sequence cut into runs of `w`.
pub open spec fn run<T>(x: Seq<T>, b: int, w: int) -> Seq<T> {
    x.subrange(b * w, b * w + w)
}

/// Position `i` of a sequence of runs of `w` lies in run `i / w`, at `i % w`.
pub proof fn lemma_position(i: int, b: int, w: int)
    requires
        0 < w,
        b * w <= i < b * w + w,
    ensures
        i / w == b,
        i % w == i - b * w,
{
    vstd::arithmetic::div_mod::lemma_fundamental_div_mod_converse(i, w, b, i - b * w);
}

/// How many blocks of `w` values a run of `blocks` blocks and a run of `vals` values have between
/// them: a value run's last values, where they are fewer than a block, meet none.
pub open spec fn paired(blocks: int, vals: int, w: int) -> int {
    if blocks <= vals / w {
        blocks
    } else {
        vals / w
    }
}

/// The blocks two runs have between them lie inside both; where the runs match, they are all.
pub proof fn lemma_paired(blocks: int, vals: int, w: int)
    requires
        0 <= blocks,
        0 <= vals,
        0 < w,
    ensures
        0 <= paired(blocks, vals, w) <= blocks,
        paired(blocks, vals, w) * w <= vals,
        vals == blocks * w ==> paired(blocks, vals, w) == blocks,
{
    let q = vals / w;
    let n = paired(blocks, vals, w);
    vstd::arithmetic::div_mod::lemma_fundamental_div_mod(vals, w);
    vstd::arithmetic::div_mod::lemma_div_pos_is_pos(vals, w);
    assert(w * q == q * w) by (nonlinear_arith);
    assert(n * w <= q * w) by (nonlinear_arith)
        requires
            n <= q,
            0 < w,
    ;
    if vals == blocks * w {
        vstd::arithmetic::div_mod::lemma_div_multiples_vanish(blocks, w);
        assert(w * blocks == blocks * w) by (nonlinear_arith);
    }
}

/// A block format: what its blocks stand for, and how values become blocks.
pub trait Quantized<R: Real>: Copy {
    /// Values in a block.
    spec fn width() -> nat;

    /// What value `e` of the block reconstructs to.
    spec fn value(self, e: int) -> R;

    /// Block `b` is what the values `x` are encoded to.
    spec fn encodes(x: Seq<R>, b: Self) -> bool;

    /// Every bit of the block is zero.
    spec fn is_zero(self) -> bool;

    fn block_len() -> (n: usize)
        ensures
            n == Self::width(),
            0 < n <= 256,
    ;

    /// The block a buffer is filled with before anything is written into it.
    fn zeros() -> (b: Self)
        requires
            lawful::<R>(),
        ensures
            b.is_zero(),
    ;

    /// Write the block's values at `at`.
    fn decode_into(&self, ys: &mut [R], at: usize)
        requires
            lawful::<R>(),
            at + Self::width() <= old(ys)@.len(),
        ensures
            final(ys)@.len() == old(ys)@.len(),
            forall|i: int|
                0 <= i < final(ys)@.len() ==> #[trigger] final(ys)@[i] == (if at <= i < at
                    + Self::width() {
                    self.value(i - at)
                } else {
                    old(ys)@[i]
                }),
    ;

    /// The block a run of values encodes to.
    fn encode_block(x: &[R]) -> (b: Self)
        requires
            lawful::<R>(),
            x@.len() == Self::width(),
        ensures
            Self::encodes(x@, b),
    ;

    /// The values of a run of blocks. Where the two runs do not match, the blocks that both have are
    /// decoded and what is left of `ys` stays as it was.
    fn dequantize(xs: &[Self], ys: &mut [R])
        requires
            lawful::<R>(),
        ensures
            final(ys)@.len() == old(ys)@.len(),
            forall|i: int|
                0 <= i < final(ys)@.len() ==> #[trigger] final(ys)@[i] == (if i < paired(
                    xs@.len() as int,
                    old(ys)@.len() as int,
                    Self::width() as int,
                ) * Self::width() {
                    xs@[i / Self::width() as int].value(i % Self::width() as int)
                } else {
                    old(ys)@[i]
                }),
    {
        let w: usize = Self::block_len();
        let total: usize = ys.len();
        let room: usize = total / w;
        let n: usize = if xs.len() <= room {
            xs.len()
        } else {
            room
        };
        let ghost held = ys@;
        proof {
            lemma_paired(xs@.len() as int, total as int, w as int);
        }
        let mut at: usize = 0;
        assert(0 * w == 0) by (nonlinear_arith);
        for b in 0..n
            invariant
                lawful::<R>(),
                w == Self::width(),
                0 < w,
                at == b * w,
                n <= xs@.len(),
                ys@.len() == total,
                held.len() == total,
                n * w <= total,
                forall|i: int|
                    0 <= i < total ==> #[trigger] ys@[i] == (if i < at {
                        xs@[i / w as int].value(i % w as int)
                    } else {
                        held[i]
                    }),
        {
            assert((b + 1) * w <= n * w) by (nonlinear_arith)
                requires
                    b + 1 <= n,
                    0 < w,
            ;
            assert((b + 1) * w == b * w + w) by (nonlinear_arith);
            let ghost before = ys@;
            xs[b].decode_into(ys, at);
            proof {
                assert forall|i: int| 0 <= i < total implies #[trigger] ys@[i] == (if i < at + w {
                    xs@[i / w as int].value(i % w as int)
                } else {
                    held[i]
                }) by {
                    if at <= i < at + w {
                        lemma_position(i, b as int, w as int);
                    } else {
                        assert(ys@[i] == before[i]);
                    }
                }
            }
            at = at + w;
        }
    }

    /// Encode a run of values, one block per [`Quantized::width`] of them. Where the two runs do not
    /// match, the blocks that both have are written and the others stay as they were.
    fn quantize(xs: &[R], ys: &mut [Self])
        requires
            lawful::<R>(),
        ensures
            final(ys)@.len() == old(ys)@.len(),
            forall|b: int|
                0 <= b < paired(
                    old(ys)@.len() as int,
                    xs@.len() as int,
                    Self::width() as int,
                ) ==> Self::encodes(run(xs@, b, Self::width() as int), #[trigger] final(ys)@[b]),
            forall|b: int|
                paired(old(ys)@.len() as int, xs@.len() as int, Self::width() as int) <= b
                    < final(ys)@.len() ==> #[trigger] final(ys)@[b] == old(ys)@[b],
    {
        let w: usize = Self::block_len();
        let total: usize = xs.len();
        let room: usize = ys.len();
        let whole: usize = total / w;
        let n: usize = if room <= whole {
            room
        } else {
            whole
        };
        let ghost held = ys@;
        proof {
            lemma_paired(room as int, total as int, w as int);
        }
        let mut at: usize = 0;
        assert(0 * w == 0) by (nonlinear_arith);
        for b in 0..n
            invariant
                lawful::<R>(),
                w == Self::width(),
                0 < w,
                at == b * w,
                ys@.len() == room,
                held.len() == room,
                n <= room,
                n * w <= total,
                xs@.len() == total,
                forall|c: int|
                    0 <= c < b ==> Self::encodes(run(xs@, c, w as int), #[trigger] ys@[c]),
                forall|c: int| b <= c < room ==> #[trigger] ys@[c] == held[c],
        {
            assert((b + 1) * w <= n * w) by (nonlinear_arith)
                requires
                    b + 1 <= n,
                    0 < w,
            ;
            assert((b + 1) * w == b * w + w) by (nonlinear_arith);
            let x = &xs[at..at + w];
            assert(x@ == run(xs@, b as int, w as int));
            ys[b] = Self::encode_block(x);
            at = at + w;
        }
    }
}

/// A weight format, and the activation format its codes are multiplied against.
pub trait BlockFormat<R: Real>: Quantized<R> {
    type ActivationBlock: Quantized<R>;

    /// The storage type whose blocks these are.
    spec fn dtype_of() -> GgmlDType;

    /// What the production kernel returns.
    spec fn dot_of(xs: Seq<Self>, ys: Seq<Self::ActivationBlock>) -> R;

    /// What the plain kernel returns.
    spec fn dot_scalar_of(xs: Seq<Self>, ys: Seq<Self::ActivationBlock>) -> R;

    fn dtype() -> (t: GgmlDType)
        ensures
            t == Self::dtype_of(),
    ;

    /// Dot product over the blocks both runs have.
    fn dot(xs: &[Self], ys: &[Self::ActivationBlock]) -> (r: R)
        requires
            lawful::<R>(),
        ensures
            r == Self::dot_of(xs@, ys@),
    ;

    /// The same product, summed one block at a time.
    fn dot_scalar(xs: &[Self], ys: &[Self::ActivationBlock]) -> (r: R)
        requires
            lawful::<R>(),
        ensures
            r == Self::dot_scalar_of(xs@, ys@),
    ;
}

} // verus!
