//! Blocks as the bytes a file stores them in.
//!
//! A block's fields follow one another with no padding, each little-endian. Reading copies the
//! fields out of the bytes and writing spells them back, so there is no pointer to align and no
//! layout to trust: the two relations below say which bytes are which block.
use vstd::prelude::*;
use crate::arith::{Brain, Half, Real, lawful, rbits, rto_bits, from_bits, to_bits};
use crate::blocks::{BlockFormat, Quantized};
use crate::error::Error;
use crate::float::Single;
use crate::format::iq2_xxs::BlockIq2Xxs;
use crate::format::mxfp4::BlockMxFp4;
use crate::format::q2_k::BlockQ2K;
use crate::format::q3_k::BlockQ3K;
use crate::format::q4_0::BlockQ4_0;
use crate::format::q4_1::BlockQ4_1;
use crate::format::q4_k::BlockQ4K;
use crate::format::q5_0::BlockQ5_0;
use crate::format::q5_1::BlockQ5_1;
use crate::format::q5_k::BlockQ5K;
use crate::format::q6_k::BlockQ6K;
use crate::format::q8_0::{BlockQ8_0, q8_0_encodes_once};
use crate::format::q8_1::{BlockQ8_1, q8_1_encodes_once};
use crate::format::q8_k::{BlockQ8K, q8k_encodes_once};
use crate::tiled::{span, span_of};

verus! {

// -- fields --

/// The sixteen-bit number at `at`.
pub open spec fn word_at(s: Seq<u8>, at: int) -> int {
    s[at] + 256 * s[at + 1]
}

/// The thirty-two-bit number at `at`.
pub open spec fn long_at(s: Seq<u8>, at: int) -> int {
    word_at(s, at) + 65536 * word_at(s, at + 2)
}

/// A byte read as a signed one.
pub open spec fn signed8(b: int) -> int {
    if b < 128 {
        b
    } else {
        b - 256
    }
}

/// A sixteen-bit number read as a signed one.
pub open spec fn signed16(w: int) -> int {
    if w < 32768 {
        w
    } else {
        w - 65536
    }
}

/// The bytes at `at` are `v`.
pub open spec fn bytes_at(s: Seq<u8>, at: int, v: Seq<u8>) -> bool {
    forall|i: int| 0 <= i < v.len() ==> s[at + i] == #[trigger] v[i]
}

/// The signed bytes at `at` are `v`.
pub open spec fn signed_at(s: Seq<u8>, at: int, v: Seq<i8>) -> bool {
    forall|i: int| 0 <= i < v.len() ==> signed8(s[at + i] as int) == #[trigger] v[i]
}

/// The sixteen-bit numbers at `at` are `v`.
pub open spec fn words_at(s: Seq<u8>, at: int, v: Seq<u16>) -> bool {
    forall|i: int| 0 <= i < v.len() ==> word_at(s, at + 2 * i) == #[trigger] v[i]
}

/// The signed sixteen-bit numbers at `at` are `v`.
pub open spec fn signed_words_at(s: Seq<u8>, at: int, v: Seq<i16>) -> bool {
    forall|i: int| 0 <= i < v.len() ==> signed16(word_at(s, at + 2 * i)) == #[trigger] v[i]
}

fn read_word(s: &[u8], at: usize) -> (w: u16)
    requires
        at + 2 <= s@.len(),
    ensures
        w == word_at(s@, at as int),
{
    s[at] as u16 + 256 * (s[at + 1] as u16)
}

fn read_long(s: &[u8], at: usize) -> (w: u32)
    requires
        at + 4 <= s@.len(),
    ensures
        w == long_at(s@, at as int),
{
    let size: usize = s.len();
    let high: usize = at + 2;
    read_word(s, at) as u32 + 65536 * (read_word(s, high) as u32)
}

fn to_signed8(b: u8) -> (v: i8)
    ensures
        v == signed8(b as int),
{
    if b < 128 {
        b as i8
    } else {
        (b as i16 - 256) as i8
    }
}

fn to_signed16(w: u16) -> (v: i16)
    ensures
        v == signed16(w as int),
{
    if w < 32768 {
        w as i16
    } else {
        (w as i32 - 65536) as i16
    }
}

fn from_signed8(v: i8) -> (b: u8)
    ensures
        signed8(b as int) == v,
{
    if v >= 0 {
        v as u8
    } else {
        (v as i16 + 256) as u8
    }
}

fn from_signed16(v: i16) -> (w: u16)
    ensures
        signed16(w as int) == v,
{
    if v >= 0 {
        v as u16
    } else {
        (v as i32 + 65536) as u16
    }
}

fn push_word(out: &mut Vec<u8>, w: u16)
    ensures
        final(out)@.len() == old(out)@.len() + 2,
        forall|i: int| 0 <= i < old(out)@.len() ==> #[trigger] final(out)@[i] == old(out)@[i],
        word_at(final(out)@, old(out)@.len() as int) == w,
{
    out.push((w % 256) as u8);
    out.push((w / 256) as u8);
}

fn push_long(out: &mut Vec<u8>, w: u32)
    ensures
        final(out)@.len() == old(out)@.len() + 4,
        forall|i: int| 0 <= i < old(out)@.len() ==> #[trigger] final(out)@[i] == old(out)@[i],
        long_at(final(out)@, old(out)@.len() as int) == w,
{
    push_word(out, (w % 65536) as u16);
    let ghost mid = out@;
    push_word(out, (w / 65536) as u16);
    let ghost at = old(out)@.len() as int;
    assert(out@[at] == mid[at]);
    assert(out@[at + 1] == mid[at + 1]);
}

fn push_bytes(out: &mut Vec<u8>, v: &[u8])
    ensures
        final(out)@ == old(out)@ + v@,
{
    for i in 0..v.len()
        invariant
            out@ == old(out)@ + v@.take(i as int),
    {
        out.push(v[i]);
        assert(v@.take(i + 1) =~= v@.take(i as int).push(v@[i as int]));
        assert(out@ =~= old(out)@ + v@.take(i + 1));
    }
    assert(v@.take(v@.len() as int) =~= v@);
}

fn push_signed(out: &mut Vec<u8>, v: &[i8])
    ensures
        final(out)@.len() == old(out)@.len() + v@.len(),
        forall|i: int| 0 <= i < old(out)@.len() ==> #[trigger] final(out)@[i] == old(out)@[i],
        signed_at(final(out)@, old(out)@.len() as int, v@),
{
    for i in 0..v.len()
        invariant
            out@.len() == old(out)@.len() + i,
            forall|k: int| 0 <= k < old(out)@.len() ==> #[trigger] out@[k] == old(out)@[k],
            forall|k: int|
                0 <= k < i ==> signed8(out@[old(out)@.len() + k] as int) == #[trigger] v@[k],
    {
        out.push(from_signed8(v[i]));
    }
}

fn push_words(out: &mut Vec<u8>, v: &[u16])
    ensures
        final(out)@.len() == old(out)@.len() + 2 * v@.len(),
        forall|i: int| 0 <= i < old(out)@.len() ==> #[trigger] final(out)@[i] == old(out)@[i],
        words_at(final(out)@, old(out)@.len() as int, v@),
{
    for i in 0..v.len()
        invariant
            out@.len() == old(out)@.len() + 2 * i,
            forall|k: int| 0 <= k < old(out)@.len() ==> #[trigger] out@[k] == old(out)@[k],
            forall|k: int|
                0 <= k < i ==> word_at(out@, old(out)@.len() + 2 * k) == #[trigger] v@[k],
    {
        let ghost before = out@;
        push_word(out, v[i]);
        assert forall|k: int| 0 <= k < i + 1 implies word_at(out@, old(out)@.len() + 2 * k)
            == #[trigger] v@[k] by {
            if k < i {
                let at = old(out)@.len() + 2 * k;
                assert(out@[at] == before[at] && out@[at + 1] == before[at + 1]);
            }
        }
    }
}

fn push_signed_words(out: &mut Vec<u8>, v: &[i16])
    ensures
        final(out)@.len() == old(out)@.len() + 2 * v@.len(),
        forall|i: int| 0 <= i < old(out)@.len() ==> #[trigger] final(out)@[i] == old(out)@[i],
        signed_words_at(final(out)@, old(out)@.len() as int, v@),
{
    for i in 0..v.len()
        invariant
            out@.len() == old(out)@.len() + 2 * i,
            forall|k: int| 0 <= k < old(out)@.len() ==> #[trigger] out@[k] == old(out)@[k],
            forall|k: int|
                0 <= k < i ==> signed16(word_at(out@, old(out)@.len() + 2 * k)) == #[trigger] v@[k],
    {
        let ghost before = out@;
        push_word(out, from_signed16(v[i]));
        assert forall|k: int| 0 <= k < i + 1 implies signed16(
            word_at(out@, old(out)@.len() + 2 * k),
        ) == #[trigger] v@[k] by {
            if k < i {
                let at = old(out)@.len() + 2 * k;
                assert(out@[at] == before[at] && out@[at + 1] == before[at + 1]);
            }
        }
    }
}

// -- blocks --

/// A block format with a byte layout.
pub trait Stored<R: Real>: BlockFormat<R> {
    /// Bytes of a block.
    spec fn size() -> nat;

    /// The bytes `s` read as this block.
    spec fn laid(self, s: Seq<u8>) -> bool;

    /// The bytes `s` are how this block is written.
    spec fn spelled(self, s: Seq<u8>) -> bool;

    /// The values of a block meet the values of one activation block, and take bytes to store.
    proof fn widths_match()
        ensures
            Self::width() == Self::ActivationBlock::width(),
            0 < Self::width(),
            0 < Self::size(),
    ;

    /// Bytes read as one block and no other.
    proof fn laid_once(a: Self, b: Self, s: Seq<u8>)
        requires
            a.laid(s),
            b.laid(s),
        ensures
            a == b,
    ;

    /// Values have one activation block.
    proof fn activation_once(x: Seq<R>, a: Self::ActivationBlock, b: Self::ActivationBlock)
        requires
            Self::ActivationBlock::encodes(x, a),
            Self::ActivationBlock::encodes(x, b),
        ensures
            a == b,
    ;

    /// What is written reads back, wherever a pattern reads back as the value it came from.
    proof fn spelled_reads_back(self, s: Seq<u8>)
        requires
            self.spelled(s),
            forall|x: R| rbits::<R>(#[trigger] rto_bits::<R>(x)) == x,
        ensures
            self.laid(s),
    ;

    fn byte_len() -> (n: usize)
        ensures
            n == Self::size(),
            0 < n <= 292,
    ;

    fn read(s: &[u8]) -> (b: Self)
        requires
            lawful::<R>(),
            s@.len() == Self::size(),
        ensures
            b.laid(s@),
    ;

    fn write(&self, out: &mut Vec<u8>)
        requires
            lawful::<R>(),
        ensures
            final(out)@.len() == old(out)@.len() + Self::size(),
            forall|i: int| 0 <= i < old(out)@.len() ==> #[trigger] final(out)@[i] == old(out)@[i],
            self.spelled(final(out)@.skip(old(out)@.len() as int)),
    ;
}

impl<R: Real> Stored<R> for BlockQ4_0 {
    open spec fn size() -> nat {
        18
    }

    open spec fn laid(self, s: Seq<u8>) -> bool {
        &&& s.len() == 18
        &&& self.d.bits == word_at(s, 0)
        &&& bytes_at(s, 2, self.qs@)
    }

    open spec fn spelled(self, s: Seq<u8>) -> bool {
        &&& s.len() == 18
        &&& self.d.bits == word_at(s, 0)
        &&& bytes_at(s, 2, self.qs@)
    }

    proof fn widths_match() {
    }

    proof fn laid_once(a: Self, b: Self, s: Seq<u8>) {
        assert forall|k: int| 0 <= k < 16 implies a.qs@[k] == b.qs@[k] by {
            assert(s[2 + k] as int == a.qs@[k]);
            assert(s[2 + k] as int == b.qs@[k]);
        }
        assert(a.qs =~= b.qs);
    }

    proof fn activation_once(x: Seq<R>, a: BlockQ8_0, b: BlockQ8_0) {
        q8_0_encodes_once::<R>(x, a, b);
    }

    proof fn spelled_reads_back(self, s: Seq<u8>) {
    }

    fn byte_len() -> usize {
        18
    }

    fn read(s: &[u8]) -> (b: Self) {
        let mut qs = [0u8; 16];
        for i in 0..16usize
            invariant
                s@.len() == 18,
                forall|k: int| 0 <= k < i ==> s@[2 + k] == #[trigger] qs@[k],
        {
            qs[i] = s[2 + i];
        }
        BlockQ4_0 { d: Half { bits: read_word(s, 0) }, qs }
    }

    fn write(&self, out: &mut Vec<u8>) {
        let ghost base = out@.len() as int;
        push_word(out, self.d.bits);
        let ghost s0 = out@;
        push_bytes(out, self.qs.as_slice());
        let ghost s1 = out@;
        let ghost s = out@.skip(base);
        proof {
            assert(s[0] == s0[base + 0] && s[1] == s0[base + 1]);
            assert forall|k: int| 0 <= k < 16 implies s[2 + k] == #[trigger] self.qs@[k] by {
                assert(s[2 + k] == s1[base + 2 + k]);
            }
        }
    }
}

impl<R: Real> Stored<R> for BlockQ4_1 {
    open spec fn size() -> nat {
        20
    }

    open spec fn laid(self, s: Seq<u8>) -> bool {
        &&& s.len() == 20
        &&& self.d.bits == word_at(s, 0)
        &&& self.m.bits == word_at(s, 2)
        &&& bytes_at(s, 4, self.qs@)
    }

    open spec fn spelled(self, s: Seq<u8>) -> bool {
        &&& s.len() == 20
        &&& self.d.bits == word_at(s, 0)
        &&& self.m.bits == word_at(s, 2)
        &&& bytes_at(s, 4, self.qs@)
    }

    proof fn widths_match() {
    }

    proof fn laid_once(a: Self, b: Self, s: Seq<u8>) {
        assert forall|k: int| 0 <= k < 16 implies a.qs@[k] == b.qs@[k] by {
            assert(s[4 + k] as int == a.qs@[k]);
            assert(s[4 + k] as int == b.qs@[k]);
        }
        assert(a.qs =~= b.qs);
    }

    proof fn activation_once(x: Seq<R>, a: BlockQ8_1, b: BlockQ8_1) {
        q8_1_encodes_once::<R>(x, a, b);
    }

    proof fn spelled_reads_back(self, s: Seq<u8>) {
    }

    fn byte_len() -> usize {
        20
    }

    fn read(s: &[u8]) -> (b: Self) {
        let mut qs = [0u8; 16];
        for i in 0..16usize
            invariant
                s@.len() == 20,
                forall|k: int| 0 <= k < i ==> s@[4 + k] == #[trigger] qs@[k],
        {
            qs[i] = s[4 + i];
        }
        BlockQ4_1 { d: Half { bits: read_word(s, 0) }, m: Half { bits: read_word(s, 2) }, qs }
    }

    fn write(&self, out: &mut Vec<u8>) {
        let ghost base = out@.len() as int;
        push_word(out, self.d.bits);
        let ghost s0 = out@;
        push_word(out, self.m.bits);
        let ghost s1 = out@;
        push_bytes(out, self.qs.as_slice());
        let ghost s2 = out@;
        let ghost s = out@.skip(base);
        proof {
            assert(s[0] == s0[base + 0] && s[1] == s0[base + 1]);
            assert(s[2] == s1[base + 2] && s[3] == s1[base + 3]);
            assert forall|k: int| 0 <= k < 16 implies s[4 + k] == #[trigger] self.qs@[k] by {
                assert(s[4 + k] == s2[base + 4 + k]);
            }
        }
    }
}

impl<R: Real> Stored<R> for BlockQ5_0 {
    open spec fn size() -> nat {
        22
    }

    open spec fn laid(self, s: Seq<u8>) -> bool {
        &&& s.len() == 22
        &&& self.d.bits == word_at(s, 0)
        &&& bytes_at(s, 2, self.qh@)
        &&& bytes_at(s, 6, self.qs@)
    }

    open spec fn spelled(self, s: Seq<u8>) -> bool {
        &&& s.len() == 22
        &&& self.d.bits == word_at(s, 0)
        &&& bytes_at(s, 2, self.qh@)
        &&& bytes_at(s, 6, self.qs@)
    }

    proof fn widths_match() {
    }

    proof fn laid_once(a: Self, b: Self, s: Seq<u8>) {
        assert forall|k: int| 0 <= k < 4 implies a.qh@[k] == b.qh@[k] by {
            assert(s[2 + k] as int == a.qh@[k]);
            assert(s[2 + k] as int == b.qh@[k]);
        }
        assert(a.qh =~= b.qh);
        assert forall|k: int| 0 <= k < 16 implies a.qs@[k] == b.qs@[k] by {
            assert(s[6 + k] as int == a.qs@[k]);
            assert(s[6 + k] as int == b.qs@[k]);
        }
        assert(a.qs =~= b.qs);
    }

    proof fn activation_once(x: Seq<R>, a: BlockQ8_0, b: BlockQ8_0) {
        q8_0_encodes_once::<R>(x, a, b);
    }

    proof fn spelled_reads_back(self, s: Seq<u8>) {
    }

    fn byte_len() -> usize {
        22
    }

    fn read(s: &[u8]) -> (b: Self) {
        let mut qh = [0u8; 4];
        for i in 0..4usize
            invariant
                s@.len() == 22,
                forall|k: int| 0 <= k < i ==> s@[2 + k] == #[trigger] qh@[k],
        {
            qh[i] = s[2 + i];
        }
        let mut qs = [0u8; 16];
        for i in 0..16usize
            invariant
                s@.len() == 22,
                forall|k: int| 0 <= k < i ==> s@[6 + k] == #[trigger] qs@[k],
        {
            qs[i] = s[6 + i];
        }
        BlockQ5_0 { d: Half { bits: read_word(s, 0) }, qh, qs }
    }

    fn write(&self, out: &mut Vec<u8>) {
        let ghost base = out@.len() as int;
        push_word(out, self.d.bits);
        let ghost s0 = out@;
        push_bytes(out, self.qh.as_slice());
        let ghost s1 = out@;
        push_bytes(out, self.qs.as_slice());
        let ghost s2 = out@;
        let ghost s = out@.skip(base);
        proof {
            assert(s[0] == s0[base + 0] && s[1] == s0[base + 1]);
            assert forall|k: int| 0 <= k < 4 implies s[2 + k] == #[trigger] self.qh@[k] by {
                assert(s[2 + k] == s1[base + 2 + k]);
            }
            assert forall|k: int| 0 <= k < 16 implies s[6 + k] == #[trigger] self.qs@[k] by {
                assert(s[6 + k] == s2[base + 6 + k]);
            }
        }
    }
}

impl<R: Real> Stored<R> for BlockQ5_1 {
    open spec fn size() -> nat {
        24
    }

    open spec fn laid(self, s: Seq<u8>) -> bool {
        &&& s.len() == 24
        &&& self.d.bits == word_at(s, 0)
        &&& self.m.bits == word_at(s, 2)
        &&& bytes_at(s, 4, self.qh@)
        &&& bytes_at(s, 8, self.qs@)
    }

    open spec fn spelled(self, s: Seq<u8>) -> bool {
        &&& s.len() == 24
        &&& self.d.bits == word_at(s, 0)
        &&& self.m.bits == word_at(s, 2)
        &&& bytes_at(s, 4, self.qh@)
        &&& bytes_at(s, 8, self.qs@)
    }

    proof fn widths_match() {
    }

    proof fn laid_once(a: Self, b: Self, s: Seq<u8>) {
        assert forall|k: int| 0 <= k < 4 implies a.qh@[k] == b.qh@[k] by {
            assert(s[4 + k] as int == a.qh@[k]);
            assert(s[4 + k] as int == b.qh@[k]);
        }
        assert(a.qh =~= b.qh);
        assert forall|k: int| 0 <= k < 16 implies a.qs@[k] == b.qs@[k] by {
            assert(s[8 + k] as int == a.qs@[k]);
            assert(s[8 + k] as int == b.qs@[k]);
        }
        assert(a.qs =~= b.qs);
    }

    proof fn activation_once(x: Seq<R>, a: BlockQ8_1, b: BlockQ8_1) {
        q8_1_encodes_once::<R>(x, a, b);
    }

    proof fn spelled_reads_back(self, s: Seq<u8>) {
    }

    fn byte_len() -> usize {
        24
    }

    fn read(s: &[u8]) -> (b: Self) {
        let mut qh = [0u8; 4];
        for i in 0..4usize
            invariant
                s@.len() == 24,
                forall|k: int| 0 <= k < i ==> s@[4 + k] == #[trigger] qh@[k],
        {
            qh[i] = s[4 + i];
        }
        let mut qs = [0u8; 16];
        for i in 0..16usize
            invariant
                s@.len() == 24,
                forall|k: int| 0 <= k < i ==> s@[8 + k] == #[trigger] qs@[k],
        {
            qs[i] = s[8 + i];
        }
        BlockQ5_1 { d: Half { bits: read_word(s, 0) }, m: Half { bits: read_word(s, 2) }, qh, qs }
    }

    fn write(&self, out: &mut Vec<u8>) {
        let ghost base = out@.len() as int;
        push_word(out, self.d.bits);
        let ghost s0 = out@;
        push_word(out, self.m.bits);
        let ghost s1 = out@;
        push_bytes(out, self.qh.as_slice());
        let ghost s2 = out@;
        push_bytes(out, self.qs.as_slice());
        let ghost s3 = out@;
        let ghost s = out@.skip(base);
        proof {
            assert(s[0] == s0[base + 0] && s[1] == s0[base + 1]);
            assert(s[2] == s1[base + 2] && s[3] == s1[base + 3]);
            assert forall|k: int| 0 <= k < 4 implies s[4 + k] == #[trigger] self.qh@[k] by {
                assert(s[4 + k] == s2[base + 4 + k]);
            }
            assert forall|k: int| 0 <= k < 16 implies s[8 + k] == #[trigger] self.qs@[k] by {
                assert(s[8 + k] == s3[base + 8 + k]);
            }
        }
    }
}

impl<R: Real> Stored<R> for BlockQ8_0 {
    open spec fn size() -> nat {
        34
    }

    open spec fn laid(self, s: Seq<u8>) -> bool {
        &&& s.len() == 34
        &&& self.d.bits == word_at(s, 0)
        &&& signed_at(s, 2, self.qs@)
    }

    open spec fn spelled(self, s: Seq<u8>) -> bool {
        &&& s.len() == 34
        &&& self.d.bits == word_at(s, 0)
        &&& signed_at(s, 2, self.qs@)
    }

    proof fn widths_match() {
    }

    proof fn laid_once(a: Self, b: Self, s: Seq<u8>) {
        assert forall|k: int| 0 <= k < 32 implies a.qs@[k] == b.qs@[k] by {
            assert(signed8(s[2 + k] as int) == a.qs@[k]);
            assert(signed8(s[2 + k] as int) == b.qs@[k]);
        }
        assert(a.qs =~= b.qs);
    }

    proof fn activation_once(x: Seq<R>, a: BlockQ8_0, b: BlockQ8_0) {
        q8_0_encodes_once::<R>(x, a, b);
    }

    proof fn spelled_reads_back(self, s: Seq<u8>) {
    }

    fn byte_len() -> usize {
        34
    }

    fn read(s: &[u8]) -> (b: Self) {
        let mut qs = [0i8; 32];
        for i in 0..32usize
            invariant
                s@.len() == 34,
                forall|k: int| 0 <= k < i ==> signed8(s@[2 + k] as int) == #[trigger] qs@[k],
        {
            qs[i] = to_signed8(s[2 + i]);
        }
        BlockQ8_0 { d: Half { bits: read_word(s, 0) }, qs }
    }

    fn write(&self, out: &mut Vec<u8>) {
        let ghost base = out@.len() as int;
        push_word(out, self.d.bits);
        let ghost s0 = out@;
        push_signed(out, self.qs.as_slice());
        let ghost s1 = out@;
        let ghost s = out@.skip(base);
        proof {
            assert(s[0] == s0[base + 0] && s[1] == s0[base + 1]);
            assert forall|k: int| 0 <= k < 32 implies signed8(s[2 + k] as int) == #[trigger] self.qs@[k] by {
                assert(s[2 + k] == s1[base + 2 + k]);
            }
        }
    }
}

impl<R: Real> Stored<R> for BlockQ2K {
    open spec fn size() -> nat {
        84
    }

    open spec fn laid(self, s: Seq<u8>) -> bool {
        &&& s.len() == 84
        &&& bytes_at(s, 0, self.scales@)
        &&& bytes_at(s, 16, self.qs@)
        &&& self.d.bits == word_at(s, 80)
        &&& self.dmin.bits == word_at(s, 82)
    }

    open spec fn spelled(self, s: Seq<u8>) -> bool {
        &&& s.len() == 84
        &&& bytes_at(s, 0, self.scales@)
        &&& bytes_at(s, 16, self.qs@)
        &&& self.d.bits == word_at(s, 80)
        &&& self.dmin.bits == word_at(s, 82)
    }

    proof fn widths_match() {
    }

    proof fn laid_once(a: Self, b: Self, s: Seq<u8>) {
        assert forall|k: int| 0 <= k < 16 implies a.scales@[k] == b.scales@[k] by {
            assert(s[0 + k] as int == a.scales@[k]);
            assert(s[0 + k] as int == b.scales@[k]);
        }
        assert(a.scales =~= b.scales);
        assert forall|k: int| 0 <= k < 64 implies a.qs@[k] == b.qs@[k] by {
            assert(s[16 + k] as int == a.qs@[k]);
            assert(s[16 + k] as int == b.qs@[k]);
        }
        assert(a.qs =~= b.qs);
    }

    proof fn activation_once(x: Seq<R>, a: BlockQ8K<R>, b: BlockQ8K<R>) {
        q8k_encodes_once::<R>(x, a, b);
    }

    proof fn spelled_reads_back(self, s: Seq<u8>) {
    }

    fn byte_len() -> usize {
        84
    }

    fn read(s: &[u8]) -> (b: Self) {
        let mut scales = [0u8; 16];
        for i in 0..16usize
            invariant
                s@.len() == 84,
                forall|k: int| 0 <= k < i ==> s@[0 + k] == #[trigger] scales@[k],
        {
            scales[i] = s[0 + i];
        }
        let mut qs = [0u8; 64];
        for i in 0..64usize
            invariant
                s@.len() == 84,
                forall|k: int| 0 <= k < i ==> s@[16 + k] == #[trigger] qs@[k],
        {
            qs[i] = s[16 + i];
        }
        BlockQ2K { scales, qs, d: Half { bits: read_word(s, 80) }, dmin: Half { bits: read_word(s, 82) } }
    }

    fn write(&self, out: &mut Vec<u8>) {
        let ghost base = out@.len() as int;
        push_bytes(out, self.scales.as_slice());
        let ghost s0 = out@;
        push_bytes(out, self.qs.as_slice());
        let ghost s1 = out@;
        push_word(out, self.d.bits);
        let ghost s2 = out@;
        push_word(out, self.dmin.bits);
        let ghost s3 = out@;
        let ghost s = out@.skip(base);
        proof {
            assert forall|k: int| 0 <= k < 16 implies s[0 + k] == #[trigger] self.scales@[k] by {
                assert(s[0 + k] == s0[base + 0 + k]);
            }
            assert forall|k: int| 0 <= k < 64 implies s[16 + k] == #[trigger] self.qs@[k] by {
                assert(s[16 + k] == s1[base + 16 + k]);
            }
            assert(s[80] == s2[base + 80] && s[81] == s2[base + 81]);
            assert(s[82] == s3[base + 82] && s[83] == s3[base + 83]);
        }
    }
}

impl<R: Real> Stored<R> for BlockQ3K {
    open spec fn size() -> nat {
        110
    }

    open spec fn laid(self, s: Seq<u8>) -> bool {
        &&& s.len() == 110
        &&& bytes_at(s, 0, self.hmask@)
        &&& bytes_at(s, 32, self.qs@)
        &&& bytes_at(s, 96, self.scales@)
        &&& self.d.bits == word_at(s, 108)
    }

    open spec fn spelled(self, s: Seq<u8>) -> bool {
        &&& s.len() == 110
        &&& bytes_at(s, 0, self.hmask@)
        &&& bytes_at(s, 32, self.qs@)
        &&& bytes_at(s, 96, self.scales@)
        &&& self.d.bits == word_at(s, 108)
    }

    proof fn widths_match() {
    }

    proof fn laid_once(a: Self, b: Self, s: Seq<u8>) {
        assert forall|k: int| 0 <= k < 32 implies a.hmask@[k] == b.hmask@[k] by {
            assert(s[0 + k] as int == a.hmask@[k]);
            assert(s[0 + k] as int == b.hmask@[k]);
        }
        assert(a.hmask =~= b.hmask);
        assert forall|k: int| 0 <= k < 64 implies a.qs@[k] == b.qs@[k] by {
            assert(s[32 + k] as int == a.qs@[k]);
            assert(s[32 + k] as int == b.qs@[k]);
        }
        assert(a.qs =~= b.qs);
        assert forall|k: int| 0 <= k < 12 implies a.scales@[k] == b.scales@[k] by {
            assert(s[96 + k] as int == a.scales@[k]);
            assert(s[96 + k] as int == b.scales@[k]);
        }
        assert(a.scales =~= b.scales);
    }

    proof fn activation_once(x: Seq<R>, a: BlockQ8K<R>, b: BlockQ8K<R>) {
        q8k_encodes_once::<R>(x, a, b);
    }

    proof fn spelled_reads_back(self, s: Seq<u8>) {
    }

    fn byte_len() -> usize {
        110
    }

    fn read(s: &[u8]) -> (b: Self) {
        let mut hmask = [0u8; 32];
        for i in 0..32usize
            invariant
                s@.len() == 110,
                forall|k: int| 0 <= k < i ==> s@[0 + k] == #[trigger] hmask@[k],
        {
            hmask[i] = s[0 + i];
        }
        let mut qs = [0u8; 64];
        for i in 0..64usize
            invariant
                s@.len() == 110,
                forall|k: int| 0 <= k < i ==> s@[32 + k] == #[trigger] qs@[k],
        {
            qs[i] = s[32 + i];
        }
        let mut scales = [0u8; 12];
        for i in 0..12usize
            invariant
                s@.len() == 110,
                forall|k: int| 0 <= k < i ==> s@[96 + k] == #[trigger] scales@[k],
        {
            scales[i] = s[96 + i];
        }
        BlockQ3K { hmask, qs, scales, d: Half { bits: read_word(s, 108) } }
    }

    fn write(&self, out: &mut Vec<u8>) {
        let ghost base = out@.len() as int;
        push_bytes(out, self.hmask.as_slice());
        let ghost s0 = out@;
        push_bytes(out, self.qs.as_slice());
        let ghost s1 = out@;
        push_bytes(out, self.scales.as_slice());
        let ghost s2 = out@;
        push_word(out, self.d.bits);
        let ghost s3 = out@;
        let ghost s = out@.skip(base);
        proof {
            assert forall|k: int| 0 <= k < 32 implies s[0 + k] == #[trigger] self.hmask@[k] by {
                assert(s[0 + k] == s0[base + 0 + k]);
            }
            assert forall|k: int| 0 <= k < 64 implies s[32 + k] == #[trigger] self.qs@[k] by {
                assert(s[32 + k] == s1[base + 32 + k]);
            }
            assert forall|k: int| 0 <= k < 12 implies s[96 + k] == #[trigger] self.scales@[k] by {
                assert(s[96 + k] == s2[base + 96 + k]);
            }
            assert(s[108] == s3[base + 108] && s[109] == s3[base + 109]);
        }
    }
}

impl<R: Real> Stored<R> for BlockQ4K {
    open spec fn size() -> nat {
        144
    }

    open spec fn laid(self, s: Seq<u8>) -> bool {
        &&& s.len() == 144
        &&& self.d.bits == word_at(s, 0)
        &&& self.dmin.bits == word_at(s, 2)
        &&& bytes_at(s, 4, self.scales@)
        &&& bytes_at(s, 16, self.qs@)
    }

    open spec fn spelled(self, s: Seq<u8>) -> bool {
        &&& s.len() == 144
        &&& self.d.bits == word_at(s, 0)
        &&& self.dmin.bits == word_at(s, 2)
        &&& bytes_at(s, 4, self.scales@)
        &&& bytes_at(s, 16, self.qs@)
    }

    proof fn widths_match() {
    }

    proof fn laid_once(a: Self, b: Self, s: Seq<u8>) {
        assert forall|k: int| 0 <= k < 12 implies a.scales@[k] == b.scales@[k] by {
            assert(s[4 + k] as int == a.scales@[k]);
            assert(s[4 + k] as int == b.scales@[k]);
        }
        assert(a.scales =~= b.scales);
        assert forall|k: int| 0 <= k < 128 implies a.qs@[k] == b.qs@[k] by {
            assert(s[16 + k] as int == a.qs@[k]);
            assert(s[16 + k] as int == b.qs@[k]);
        }
        assert(a.qs =~= b.qs);
    }

    proof fn activation_once(x: Seq<R>, a: BlockQ8K<R>, b: BlockQ8K<R>) {
        q8k_encodes_once::<R>(x, a, b);
    }

    proof fn spelled_reads_back(self, s: Seq<u8>) {
    }

    fn byte_len() -> usize {
        144
    }

    fn read(s: &[u8]) -> (b: Self) {
        let mut scales = [0u8; 12];
        for i in 0..12usize
            invariant
                s@.len() == 144,
                forall|k: int| 0 <= k < i ==> s@[4 + k] == #[trigger] scales@[k],
        {
            scales[i] = s[4 + i];
        }
        let mut qs = [0u8; 128];
        for i in 0..128usize
            invariant
                s@.len() == 144,
                forall|k: int| 0 <= k < i ==> s@[16 + k] == #[trigger] qs@[k],
        {
            qs[i] = s[16 + i];
        }
        BlockQ4K { d: Half { bits: read_word(s, 0) }, dmin: Half { bits: read_word(s, 2) }, scales, qs }
    }

    fn write(&self, out: &mut Vec<u8>) {
        let ghost base = out@.len() as int;
        push_word(out, self.d.bits);
        let ghost s0 = out@;
        push_word(out, self.dmin.bits);
        let ghost s1 = out@;
        push_bytes(out, self.scales.as_slice());
        let ghost s2 = out@;
        push_bytes(out, self.qs.as_slice());
        let ghost s3 = out@;
        let ghost s = out@.skip(base);
        proof {
            assert(s[0] == s0[base + 0] && s[1] == s0[base + 1]);
            assert(s[2] == s1[base + 2] && s[3] == s1[base + 3]);
            assert forall|k: int| 0 <= k < 12 implies s[4 + k] == #[trigger] self.scales@[k] by {
                assert(s[4 + k] == s2[base + 4 + k]);
            }
            assert forall|k: int| 0 <= k < 128 implies s[16 + k] == #[trigger] self.qs@[k] by {
                assert(s[16 + k] == s3[base + 16 + k]);
            }
        }
    }
}

impl<R: Real> Stored<R> for BlockQ5K {
    open spec fn size() -> nat {
        176
    }

    open spec fn laid(self, s: Seq<u8>) -> bool {
        &&& s.len() == 176
        &&& self.d.bits == word_at(s, 0)
        &&& self.dmin.bits == word_at(s, 2)
        &&& bytes_at(s, 4, self.scales@)
        &&& bytes_at(s, 16, self.qh@)
        &&& bytes_at(s, 48, self.qs@)
    }

    open spec fn spelled(self, s: Seq<u8>) -> bool {
        &&& s.len() == 176
        &&& self.d.bits == word_at(s, 0)
        &&& self.dmin.bits == word_at(s, 2)
        &&& bytes_at(s, 4, self.scales@)
        &&& bytes_at(s, 16, self.qh@)
        &&& bytes_at(s, 48, self.qs@)
    }

    proof fn widths_match() {
    }

    proof fn laid_once(a: Self, b: Self, s: Seq<u8>) {
        assert forall|k: int| 0 <= k < 12 implies a.scales@[k] == b.scales@[k] by {
            assert(s[4 + k] as int == a.scales@[k]);
            assert(s[4 + k] as int == b.scales@[k]);
        }
        assert(a.scales =~= b.scales);
        assert forall|k: int| 0 <= k < 32 implies a.qh@[k] == b.qh@[k] by {
            assert(s[16 + k] as int == a.qh@[k]);
            assert(s[16 + k] as int == b.qh@[k]);
        }
        assert(a.qh =~= b.qh);
        assert forall|k: int| 0 <= k < 128 implies a.qs@[k] == b.qs@[k] by {
            assert(s[48 + k] as int == a.qs@[k]);
            assert(s[48 + k] as int == b.qs@[k]);
        }
        assert(a.qs =~= b.qs);
    }

    proof fn activation_once(x: Seq<R>, a: BlockQ8K<R>, b: BlockQ8K<R>) {
        q8k_encodes_once::<R>(x, a, b);
    }

    proof fn spelled_reads_back(self, s: Seq<u8>) {
    }

    fn byte_len() -> usize {
        176
    }

    fn read(s: &[u8]) -> (b: Self) {
        let mut scales = [0u8; 12];
        for i in 0..12usize
            invariant
                s@.len() == 176,
                forall|k: int| 0 <= k < i ==> s@[4 + k] == #[trigger] scales@[k],
        {
            scales[i] = s[4 + i];
        }
        let mut qh = [0u8; 32];
        for i in 0..32usize
            invariant
                s@.len() == 176,
                forall|k: int| 0 <= k < i ==> s@[16 + k] == #[trigger] qh@[k],
        {
            qh[i] = s[16 + i];
        }
        let mut qs = [0u8; 128];
        for i in 0..128usize
            invariant
                s@.len() == 176,
                forall|k: int| 0 <= k < i ==> s@[48 + k] == #[trigger] qs@[k],
        {
            qs[i] = s[48 + i];
        }
        BlockQ5K { d: Half { bits: read_word(s, 0) }, dmin: Half { bits: read_word(s, 2) }, scales, qh, qs }
    }

    fn write(&self, out: &mut Vec<u8>) {
        let ghost base = out@.len() as int;
        push_word(out, self.d.bits);
        let ghost s0 = out@;
        push_word(out, self.dmin.bits);
        let ghost s1 = out@;
        push_bytes(out, self.scales.as_slice());
        let ghost s2 = out@;
        push_bytes(out, self.qh.as_slice());
        let ghost s3 = out@;
        push_bytes(out, self.qs.as_slice());
        let ghost s4 = out@;
        let ghost s = out@.skip(base);
        proof {
            assert(s[0] == s0[base + 0] && s[1] == s0[base + 1]);
            assert(s[2] == s1[base + 2] && s[3] == s1[base + 3]);
            assert forall|k: int| 0 <= k < 12 implies s[4 + k] == #[trigger] self.scales@[k] by {
                assert(s[4 + k] == s2[base + 4 + k]);
            }
            assert forall|k: int| 0 <= k < 32 implies s[16 + k] == #[trigger] self.qh@[k] by {
                assert(s[16 + k] == s3[base + 16 + k]);
            }
            assert forall|k: int| 0 <= k < 128 implies s[48 + k] == #[trigger] self.qs@[k] by {
                assert(s[48 + k] == s4[base + 48 + k]);
            }
        }
    }
}

impl<R: Real> Stored<R> for BlockQ6K {
    open spec fn size() -> nat {
        210
    }

    open spec fn laid(self, s: Seq<u8>) -> bool {
        &&& s.len() == 210
        &&& bytes_at(s, 0, self.ql@)
        &&& bytes_at(s, 128, self.qh@)
        &&& signed_at(s, 192, self.scales@)
        &&& self.d.bits == word_at(s, 208)
    }

    open spec fn spelled(self, s: Seq<u8>) -> bool {
        &&& s.len() == 210
        &&& bytes_at(s, 0, self.ql@)
        &&& bytes_at(s, 128, self.qh@)
        &&& signed_at(s, 192, self.scales@)
        &&& self.d.bits == word_at(s, 208)
    }

    proof fn widths_match() {
    }

    proof fn laid_once(a: Self, b: Self, s: Seq<u8>) {
        assert forall|k: int| 0 <= k < 128 implies a.ql@[k] == b.ql@[k] by {
            assert(s[0 + k] as int == a.ql@[k]);
            assert(s[0 + k] as int == b.ql@[k]);
        }
        assert(a.ql =~= b.ql);
        assert forall|k: int| 0 <= k < 64 implies a.qh@[k] == b.qh@[k] by {
            assert(s[128 + k] as int == a.qh@[k]);
            assert(s[128 + k] as int == b.qh@[k]);
        }
        assert(a.qh =~= b.qh);
        assert forall|k: int| 0 <= k < 16 implies a.scales@[k] == b.scales@[k] by {
            assert(signed8(s[192 + k] as int) == a.scales@[k]);
            assert(signed8(s[192 + k] as int) == b.scales@[k]);
        }
        assert(a.scales =~= b.scales);
    }

    proof fn activation_once(x: Seq<R>, a: BlockQ8K<R>, b: BlockQ8K<R>) {
        q8k_encodes_once::<R>(x, a, b);
    }

    proof fn spelled_reads_back(self, s: Seq<u8>) {
    }

    fn byte_len() -> usize {
        210
    }

    fn read(s: &[u8]) -> (b: Self) {
        let mut ql = [0u8; 128];
        for i in 0..128usize
            invariant
                s@.len() == 210,
                forall|k: int| 0 <= k < i ==> s@[0 + k] == #[trigger] ql@[k],
        {
            ql[i] = s[0 + i];
        }
        let mut qh = [0u8; 64];
        for i in 0..64usize
            invariant
                s@.len() == 210,
                forall|k: int| 0 <= k < i ==> s@[128 + k] == #[trigger] qh@[k],
        {
            qh[i] = s[128 + i];
        }
        let mut scales = [0i8; 16];
        for i in 0..16usize
            invariant
                s@.len() == 210,
                forall|k: int| 0 <= k < i ==> signed8(s@[192 + k] as int) == #[trigger] scales@[k],
        {
            scales[i] = to_signed8(s[192 + i]);
        }
        BlockQ6K { ql, qh, scales, d: Half { bits: read_word(s, 208) } }
    }

    fn write(&self, out: &mut Vec<u8>) {
        let ghost base = out@.len() as int;
        push_bytes(out, self.ql.as_slice());
        let ghost s0 = out@;
        push_bytes(out, self.qh.as_slice());
        let ghost s1 = out@;
        push_signed(out, self.scales.as_slice());
        let ghost s2 = out@;
        push_word(out, self.d.bits);
        let ghost s3 = out@;
        let ghost s = out@.skip(base);
        proof {
            assert forall|k: int| 0 <= k < 128 implies s[0 + k] == #[trigger] self.ql@[k] by {
                assert(s[0 + k] == s0[base + 0 + k]);
            }
            assert forall|k: int| 0 <= k < 64 implies s[128 + k] == #[trigger] self.qh@[k] by {
                assert(s[128 + k] == s1[base + 128 + k]);
            }
            assert forall|k: int| 0 <= k < 16 implies signed8(s[192 + k] as int) == #[trigger] self.scales@[k] by {
                assert(s[192 + k] == s2[base + 192 + k]);
            }
            assert(s[208] == s3[base + 208] && s[209] == s3[base + 209]);
        }
    }
}

impl<R: Real> Stored<R> for BlockQ8K<R> {
    open spec fn size() -> nat {
        292
    }

    open spec fn laid(self, s: Seq<u8>) -> bool {
        &&& s.len() == 292
        &&& self.d == rbits::<R>(long_at(s, 0) as u32)
        &&& signed_at(s, 4, self.qs@)
        &&& signed_words_at(s, 260, self.bsums@)
    }

    open spec fn spelled(self, s: Seq<u8>) -> bool {
        &&& s.len() == 292
        &&& rto_bits(self.d) == long_at(s, 0)
        &&& signed_at(s, 4, self.qs@)
        &&& signed_words_at(s, 260, self.bsums@)
    }

    proof fn widths_match() {
    }

    proof fn laid_once(a: Self, b: Self, s: Seq<u8>) {
        assert forall|k: int| 0 <= k < 256 implies a.qs@[k] == b.qs@[k] by {
            assert(signed8(s[4 + k] as int) == a.qs@[k]);
            assert(signed8(s[4 + k] as int) == b.qs@[k]);
        }
        assert(a.qs =~= b.qs);
        assert forall|k: int| 0 <= k < 16 implies a.bsums@[k] == b.bsums@[k] by {
            assert(signed16(word_at(s, 260 + 2 * k)) == a.bsums@[k]);
            assert(signed16(word_at(s, 260 + 2 * k)) == b.bsums@[k]);
        }
        assert(a.bsums =~= b.bsums);
    }

    proof fn activation_once(x: Seq<R>, a: BlockQ8K<R>, b: BlockQ8K<R>) {
        q8k_encodes_once::<R>(x, a, b);
    }

    proof fn spelled_reads_back(self, s: Seq<u8>) {
        assert(rbits::<R>(rto_bits::<R>(self.d)) == self.d);
    }

    fn byte_len() -> usize {
        292
    }

    fn read(s: &[u8]) -> (b: Self) {
        let mut qs = [0i8; 256];
        for i in 0..256usize
            invariant
                s@.len() == 292,
                forall|k: int| 0 <= k < i ==> signed8(s@[4 + k] as int) == #[trigger] qs@[k],
        {
            qs[i] = to_signed8(s[4 + i]);
        }
        let mut bsums = [0i16; 16];
        for i in 0..16usize
            invariant
                s@.len() == 292,
                forall|k: int| 0 <= k < i ==> signed16(word_at(s@, 260 + 2 * k)) == #[trigger] bsums@[k],
        {
            bsums[i] = to_signed16(read_word(s, 260 + 2 * i));
        }
        BlockQ8K { d: from_bits::<R>(read_long(s, 0)), qs, bsums }
    }

    fn write(&self, out: &mut Vec<u8>) {
        let ghost base = out@.len() as int;
        push_long(out, to_bits(self.d));
        let ghost s0 = out@;
        push_signed(out, self.qs.as_slice());
        let ghost s1 = out@;
        push_signed_words(out, self.bsums.as_slice());
        let ghost s2 = out@;
        let ghost s = out@.skip(base);
        proof {
            assert(s[0] == s0[base + 0] && s[1] == s0[base + 1]);
            assert(s[2] == s0[base + 2] && s[3] == s0[base + 3]);
            assert forall|k: int| 0 <= k < 256 implies signed8(s[4 + k] as int) == #[trigger] self.qs@[k] by {
                assert(s[4 + k] == s1[base + 4 + k]);
            }
            assert forall|k: int| 0 <= k < 16 implies signed16(word_at(s, 260 + 2 * k)) == #[trigger] self.bsums@[k] by {
                assert(s[260 + 2 * k] == s2[base + 260 + 2 * k]);
                assert(s[260 + 2 * k + 1] == s2[base + 260 + 2 * k + 1]);
            }
        }
    }
}

impl<R: Real> Stored<R> for BlockMxFp4 {
    open spec fn size() -> nat {
        17
    }

    open spec fn laid(self, s: Seq<u8>) -> bool {
        &&& s.len() == 17
        &&& self.e == s[0]
        &&& bytes_at(s, 1, self.qs@)
    }

    open spec fn spelled(self, s: Seq<u8>) -> bool {
        &&& s.len() == 17
        &&& self.e == s[0]
        &&& bytes_at(s, 1, self.qs@)
    }

    proof fn widths_match() {
    }

    proof fn laid_once(a: Self, b: Self, s: Seq<u8>) {
        assert forall|k: int| 0 <= k < 16 implies a.qs@[k] == b.qs@[k] by {
            assert(s[1 + k] as int == a.qs@[k]);
            assert(s[1 + k] as int == b.qs@[k]);
        }
        assert(a.qs =~= b.qs);
    }

    proof fn activation_once(x: Seq<R>, a: BlockQ8_0, b: BlockQ8_0) {
        q8_0_encodes_once::<R>(x, a, b);
    }

    proof fn spelled_reads_back(self, s: Seq<u8>) {
    }

    fn byte_len() -> usize {
        17
    }

    fn read(s: &[u8]) -> (b: Self) {
        let mut qs = [0u8; 16];
        for i in 0..16usize
            invariant
                s@.len() == 17,
                forall|k: int| 0 <= k < i ==> s@[1 + k] == #[trigger] qs@[k],
        {
            qs[i] = s[1 + i];
        }
        BlockMxFp4 { e: s[0], qs }
    }

    fn write(&self, out: &mut Vec<u8>) {
        let ghost base = out@.len() as int;
        out.push(self.e);
        let ghost s0 = out@;
        push_bytes(out, self.qs.as_slice());
        let ghost s1 = out@;
        let ghost s = out@.skip(base);
        proof {
            assert(s[0] == s0[base + 0]);
            assert forall|k: int| 0 <= k < 16 implies s[1 + k] == #[trigger] self.qs@[k] by {
                assert(s[1 + k] == s1[base + 1 + k]);
            }
        }
    }
}

impl<R: Real> Stored<R> for BlockIq2Xxs {
    open spec fn size() -> nat {
        66
    }

    open spec fn laid(self, s: Seq<u8>) -> bool {
        &&& s.len() == 66
        &&& self.d.bits == word_at(s, 0)
        &&& words_at(s, 2, self.qs@)
    }

    open spec fn spelled(self, s: Seq<u8>) -> bool {
        &&& s.len() == 66
        &&& self.d.bits == word_at(s, 0)
        &&& words_at(s, 2, self.qs@)
    }

    proof fn widths_match() {
    }

    proof fn laid_once(a: Self, b: Self, s: Seq<u8>) {
        assert forall|k: int| 0 <= k < 32 implies a.qs@[k] == b.qs@[k] by {
            assert(word_at(s, 2 + 2 * k) == a.qs@[k]);
            assert(word_at(s, 2 + 2 * k) == b.qs@[k]);
        }
        assert(a.qs =~= b.qs);
    }

    proof fn activation_once(x: Seq<R>, a: BlockQ8K<R>, b: BlockQ8K<R>) {
        q8k_encodes_once::<R>(x, a, b);
    }

    proof fn spelled_reads_back(self, s: Seq<u8>) {
    }

    fn byte_len() -> usize {
        66
    }

    fn read(s: &[u8]) -> (b: Self) {
        let mut qs = [0u16; 32];
        for i in 0..32usize
            invariant
                s@.len() == 66,
                forall|k: int| 0 <= k < i ==> word_at(s@, 2 + 2 * k) == #[trigger] qs@[k],
        {
            qs[i] = read_word(s, 2 + 2 * i);
        }
        BlockIq2Xxs { d: Half { bits: read_word(s, 0) }, qs }
    }

    fn write(&self, out: &mut Vec<u8>) {
        let ghost base = out@.len() as int;
        push_word(out, self.d.bits);
        let ghost s0 = out@;
        push_words(out, self.qs.as_slice());
        let ghost s1 = out@;
        let ghost s = out@.skip(base);
        proof {
            assert(s[0] == s0[base + 0] && s[1] == s0[base + 1]);
            assert forall|k: int| 0 <= k < 32 implies word_at(s, 2 + 2 * k) == #[trigger] self.qs@[k] by {
                assert(s[2 + 2 * k] == s1[base + 2 + 2 * k]);
                assert(s[2 + 2 * k + 1] == s1[base + 2 + 2 * k + 1]);
            }
        }
    }
}

impl<R: Real> Stored<R> for Single<R> {
    open spec fn size() -> nat {
        4
    }

    open spec fn laid(self, s: Seq<u8>) -> bool {
        &&& s.len() == 4
        &&& self.v == rbits::<R>(long_at(s, 0) as u32)
    }

    open spec fn spelled(self, s: Seq<u8>) -> bool {
        &&& s.len() == 4
        &&& rto_bits(self.v) == long_at(s, 0)
    }

    proof fn widths_match() {
    }

    proof fn laid_once(a: Self, b: Self, s: Seq<u8>) {
    }

    proof fn activation_once(x: Seq<R>, a: Single<R>, b: Single<R>) {
    }

    proof fn spelled_reads_back(self, s: Seq<u8>) {
        assert(rbits::<R>(rto_bits::<R>(self.v)) == self.v);
    }

    fn byte_len() -> usize {
        4
    }

    fn read(s: &[u8]) -> (b: Self) {
        Single { v: from_bits::<R>(read_long(s, 0)) }
    }

    fn write(&self, out: &mut Vec<u8>) {
        let ghost base = out@.len() as int;
        push_long(out, to_bits(self.v));
        let ghost s0 = out@;
        let ghost s = out@.skip(base);
        proof {
            assert(s[0] == s0[base + 0] && s[1] == s0[base + 1]);
            assert(s[2] == s0[base + 2] && s[3] == s0[base + 3]);
        }
    }
}

impl<R: Real> Stored<R> for Half {
    open spec fn size() -> nat {
        2
    }

    open spec fn laid(self, s: Seq<u8>) -> bool {
        &&& s.len() == 2
        &&& self.bits == word_at(s, 0)
    }

    open spec fn spelled(self, s: Seq<u8>) -> bool {
        &&& s.len() == 2
        &&& self.bits == word_at(s, 0)
    }

    proof fn widths_match() {
    }

    proof fn laid_once(a: Self, b: Self, s: Seq<u8>) {
    }

    proof fn activation_once(x: Seq<R>, a: Half, b: Half) {
    }

    proof fn spelled_reads_back(self, s: Seq<u8>) {
    }

    fn byte_len() -> usize {
        2
    }

    fn read(s: &[u8]) -> (b: Self) {
        Half { bits: read_word(s, 0) }
    }

    fn write(&self, out: &mut Vec<u8>) {
        let ghost base = out@.len() as int;
        push_word(out, self.bits);
        let ghost s0 = out@;
        let ghost s = out@.skip(base);
        proof {
            assert(s[0] == s0[base + 0] && s[1] == s0[base + 1]);
        }
    }
}

impl<R: Real> Stored<R> for Brain {
    open spec fn size() -> nat {
        2
    }

    open spec fn laid(self, s: Seq<u8>) -> bool {
        &&& s.len() == 2
        &&& self.bits == word_at(s, 0)
    }

    open spec fn spelled(self, s: Seq<u8>) -> bool {
        &&& s.len() == 2
        &&& self.bits == word_at(s, 0)
    }

    proof fn widths_match() {
    }

    proof fn laid_once(a: Self, b: Self, s: Seq<u8>) {
    }

    proof fn activation_once(x: Seq<R>, a: Brain, b: Brain) {
    }

    proof fn spelled_reads_back(self, s: Seq<u8>) {
    }

    fn byte_len() -> usize {
        2
    }

    fn read(s: &[u8]) -> (b: Self) {
        Brain { bits: read_word(s, 0) }
    }

    fn write(&self, out: &mut Vec<u8>) {
        let ghost base = out@.len() as int;
        push_word(out, self.bits);
        let ghost s0 = out@;
        let ghost s = out@.skip(base);
        proof {
            assert(s[0] == s0[base + 0] && s[1] == s0[base + 1]);
        }
    }
}

// -- runs of blocks --

/// The bytes read as these blocks.
pub open spec fn run_laid<R: Real, T: Stored<R>>(bytes: Seq<u8>, blocks: Seq<T>) -> bool {
    &&& bytes.len() == blocks.len() * T::size()
    &&& forall|i: int|
        0 <= i < blocks.len() ==> (#[trigger] blocks[i]).laid(span(bytes, i, T::size() as int))
}

/// The bytes are how these blocks are written.
pub open spec fn run_spelled<R: Real, T: Stored<R>>(bytes: Seq<u8>, blocks: Seq<T>) -> bool {
    &&& bytes.len() == blocks.len() * T::size()
    &&& forall|i: int|
        0 <= i < blocks.len() ==> (#[trigger] blocks[i]).spelled(span(bytes, i, T::size() as int))
}

/// Read the blocks a run of bytes holds. Bytes that are no whole number of blocks are refused.
///
/// The blocks are copied out field by field and the bytes are never taken for blocks in place, so
/// a run that starts at an address no block may have is read like any other and is no error.
pub fn cast_blocks<R: Real, T: Stored<R>>(bytes: &[u8]) -> (r: Result<Vec<T>, Error>)
    requires
        lawful::<R>(),
    ensures
        r is Ok <==> bytes@.len() as int % T::size() as int == 0,
        r matches Ok(blocks) ==> run_laid::<R, T>(bytes@, blocks@),
        r matches Err(e) ==> e == (Error::Bytes {
            len: bytes@.len() as usize,
            size: T::size() as usize,
        }),
{
    let size: usize = T::byte_len();
    let len: usize = bytes.len();
    if len % size != 0 {
        return Err(Error::Bytes { len, size });
    }
    let n: usize = len / size;
    assert(len == n * size) by {
        vstd::arithmetic::div_mod::lemma_fundamental_div_mod(len as int, size as int);
        assert(size * n == n * size) by (nonlinear_arith);
    }
    let mut blocks: Vec<T> = Vec::with_capacity(n);
    for i in 0..n
        invariant
            lawful::<R>(),
            size == T::size(),
            len == bytes@.len(),
            len == n * size,
            blocks@.len() == i,
            forall|k: int|
                0 <= k < i ==> (#[trigger] blocks@[k]).laid(span(bytes@, k, size as int)),
    {
        assert((i + 1) * size <= n * size) by (nonlinear_arith)
            requires
                i + 1 <= n,
                0 <= size,
        ;
        blocks.push(T::read(span_of(bytes, i, size)));
    }
    Ok(blocks)
}

/// Write a run of blocks.
pub fn write_blocks<R: Real, T: Stored<R>>(blocks: &[T]) -> (bytes: Vec<u8>)
    requires
        lawful::<R>(),
    ensures
        run_spelled::<R, T>(bytes@, blocks@),
{
    let ghost size = T::size() as int;
    let mut bytes: Vec<u8> = Vec::new();
    assert(0 * size == 0) by (nonlinear_arith);
    for i in 0..blocks.len()
        invariant
            lawful::<R>(),
            size == T::size(),
            bytes@.len() == i * size,
            forall|k: int|
                0 <= k < i ==> (#[trigger] blocks@[k]).spelled(span(bytes@, k, size)),
    {
        let ghost before = bytes@;
        blocks[i].write(&mut bytes);
        assert((i + 1) * size == i * size + size) by (nonlinear_arith);
        assert forall|k: int| 0 <= k < i + 1 implies (#[trigger] blocks@[k]).spelled(
            span(bytes@, k, size),
        ) by {
            if k < i {
                assert(k * size + size <= i * size && 0 <= k * size) by (nonlinear_arith)
                    requires
                        0 <= k,
                        k + 1 <= i,
                        0 <= size,
                ;
                assert(span(bytes@, k, size) =~= span(before, k, size));
            } else {
                assert(span(bytes@, k, size) =~= bytes@.skip(before.len() as int));
            }
        }
    }
    bytes
}

/// Bytes that are written read back as the blocks they were written from, and as no others.
pub proof fn written_blocks_read_back<R: Real, T: Stored<R>>(
    bytes: Seq<u8>,
    written: Seq<T>,
    read: Seq<T>,
)
    requires
        run_spelled::<R, T>(bytes, written),
        run_laid::<R, T>(bytes, read),
        written.len() == read.len(),
        forall|x: R| rbits::<R>(#[trigger] rto_bits::<R>(x)) == x,
    ensures
        read == written,
{
    assert forall|i: int| 0 <= i < read.len() implies read[i] == #[trigger] written[i] by {
        let s = span(bytes, i, T::size() as int);
        assert(written[i].spelled(s));
        written[i].spelled_reads_back(s);
        assert(read[i].laid(s));
        T::laid_once(read[i], written[i], s);
    }
    assert(read =~= written);
}

} // verus!
