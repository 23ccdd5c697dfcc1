//! Where each field of a block lies in its bytes.
use vstd::prelude::*;
use crate::arith::{Real, rbits};
use crate::format::iq2_xxs::BlockIq2Xxs;
use crate::format::mxfp4::BlockMxFp4;
use crate::format::q2_k::BlockQ2K;
use crate::format::q3_k::BlockQ3K;
use crate::format::q4_0::BlockQ4_0;
use crate::format::q4_1::BlockQ4_1;
use crate::format::q4_k::BlockQ4K;
use crate::format::q5_0::BlockQ5_0;
use crate::format::q5_1::BlockQ5_1;
use crate::format::q5_k::BlockQ5K;
use crate::format::q6_k::BlockQ6K;
use crate::format::q8_0::BlockQ8_0;
use crate::format::q8_k::BlockQ8K;
use crate::layout::{Stored, run_laid, run_spelled};

verus! {

/// A byte as a signed number of eight bits.
pub open spec fn signed_byte(b: u8) -> int {
    if b < 128 {
        b as int
    } else {
        b - 256
    }
}

proof fn lemma_lies(len: int, n: int, size: int, c: int, k: int)
    requires
        len == n * size,
        size == c,
        0 < c,
        0 <= k < n,
    ensures
        len == c * n,
        0 <= k * c,
        k * c + c <= len,
        k * c == c * k,
{
    assert(n * size == c * n) by (nonlinear_arith)
        requires
            size == c,
    ;
    assert(0 <= k * c && k * c + c <= n * c) by (nonlinear_arith)
        requires
            0 <= k < n,
            0 < c,
    ;
    assert(n * c == c * n && k * c == c * k) by (nonlinear_arith);
}

/// Two bytes, low byte first.
pub open spec fn two_bytes(s: Seq<u8>, at: int) -> int {
    s[at] + 256 * s[at + 1]
}

/// A q4_0 block at `at`.
pub open spec fn q4_0_lies(s: Seq<u8>, at: int, b: BlockQ4_0) -> bool {
    &&& b.d.bits == two_bytes(s, at + 0)
    &&& forall|i: int| 0 <= i < 16 ==> #[trigger] b.qs@[i] == s[at + 2 + i]
}

/// q4_0: block `k` of a run, read or written, lies in the bytes from `18 * k` on.
pub proof fn q4_0_blocks_lie_in_order<R: Real>(s: Seq<u8>, blocks: Seq<BlockQ4_0>, k: int)
    requires
        run_laid::<R, BlockQ4_0>(s, blocks) || run_spelled::<R, BlockQ4_0>(s, blocks),
        0 <= k < blocks.len(),
    ensures
        s.len() == 18 * blocks.len(),
        q4_0_lies(s, 18 * k, blocks[k]),
{
    let t = crate::tiled::span(s, k, 18);
    let b = blocks[k];
    let size = <BlockQ4_0 as Stored<R>>::size() as int;
    lemma_lies(s.len() as int, blocks.len() as int, size, 18, k);
    assert(<BlockQ4_0 as Stored<R>>::laid(b, t) || <BlockQ4_0 as Stored<R>>::spelled(b, t));
    assert forall|i: int| 0 <= i < 18 implies #[trigger] t[i] == s[18 * k + i] by {}
}

/// A q4_1 block at `at`.
pub open spec fn q4_1_lies(s: Seq<u8>, at: int, b: BlockQ4_1) -> bool {
    &&& b.d.bits == two_bytes(s, at + 0)
    &&& b.m.bits == two_bytes(s, at + 2)
    &&& forall|i: int| 0 <= i < 16 ==> #[trigger] b.qs@[i] == s[at + 4 + i]
}

/// q4_1: block `k` of a run, read or written, lies in the bytes from `20 * k` on.
pub proof fn q4_1_blocks_lie_in_order<R: Real>(s: Seq<u8>, blocks: Seq<BlockQ4_1>, k: int)
    requires
        run_laid::<R, BlockQ4_1>(s, blocks) || run_spelled::<R, BlockQ4_1>(s, blocks),
        0 <= k < blocks.len(),
    ensures
        s.len() == 20 * blocks.len(),
        q4_1_lies(s, 20 * k, blocks[k]),
{
    let t = crate::tiled::span(s, k, 20);
    let b = blocks[k];
    let size = <BlockQ4_1 as Stored<R>>::size() as int;
    lemma_lies(s.len() as int, blocks.len() as int, size, 20, k);
    assert(<BlockQ4_1 as Stored<R>>::laid(b, t) || <BlockQ4_1 as Stored<R>>::spelled(b, t));
    assert forall|i: int| 0 <= i < 20 implies #[trigger] t[i] == s[20 * k + i] by {}
}

/// A q5_0 block at `at`.
pub open spec fn q5_0_lies(s: Seq<u8>, at: int, b: BlockQ5_0) -> bool {
    &&& b.d.bits == two_bytes(s, at + 0)
    &&& forall|i: int| 0 <= i < 4 ==> #[trigger] b.qh@[i] == s[at + 2 + i]
    &&& forall|i: int| 0 <= i < 16 ==> #[trigger] b.qs@[i] == s[at + 6 + i]
}

/// q5_0: block `k` of a run, read or written, lies in the bytes from `22 * k` on.
pub proof fn q5_0_blocks_lie_in_order<R: Real>(s: Seq<u8>, blocks: Seq<BlockQ5_0>, k: int)
    requires
        run_laid::<R, BlockQ5_0>(s, blocks) || run_spelled::<R, BlockQ5_0>(s, blocks),
        0 <= k < blocks.len(),
    ensures
        s.len() == 22 * blocks.len(),
        q5_0_lies(s, 22 * k, blocks[k]),
{
    let t = crate::tiled::span(s, k, 22);
    let b = blocks[k];
    let size = <BlockQ5_0 as Stored<R>>::size() as int;
    lemma_lies(s.len() as int, blocks.len() as int, size, 22, k);
    assert(<BlockQ5_0 as Stored<R>>::laid(b, t) || <BlockQ5_0 as Stored<R>>::spelled(b, t));
    assert forall|i: int| 0 <= i < 22 implies #[trigger] t[i] == s[22 * k + i] by {}
}

/// A q5_1 block at `at`.
pub open spec fn q5_1_lies(s: Seq<u8>, at: int, b: BlockQ5_1) -> bool {
    &&& b.d.bits == two_bytes(s, at + 0)
    &&& b.m.bits == two_bytes(s, at + 2)
    &&& forall|i: int| 0 <= i < 4 ==> #[trigger] b.qh@[i] == s[at + 4 + i]
    &&& forall|i: int| 0 <= i < 16 ==> #[trigger] b.qs@[i] == s[at + 8 + i]
}

/// q5_1: block `k` of a run, read or written, lies in the bytes from `24 * k` on.
pub proof fn q5_1_blocks_lie_in_order<R: Real>(s: Seq<u8>, blocks: Seq<BlockQ5_1>, k: int)
    requires
        run_laid::<R, BlockQ5_1>(s, blocks) || run_spelled::<R, BlockQ5_1>(s, blocks),
        0 <= k < blocks.len(),
    ensures
        s.len() == 24 * blocks.len(),
        q5_1_lies(s, 24 * k, blocks[k]),
{
    let t = crate::tiled::span(s, k, 24);
    let b = blocks[k];
    let size = <BlockQ5_1 as Stored<R>>::size() as int;
    lemma_lies(s.len() as int, blocks.len() as int, size, 24, k);
    assert(<BlockQ5_1 as Stored<R>>::laid(b, t) || <BlockQ5_1 as Stored<R>>::spelled(b, t));
    assert forall|i: int| 0 <= i < 24 implies #[trigger] t[i] == s[24 * k + i] by {}
}

/// A q8_0 block at `at`.
pub open spec fn q8_0_lies(s: Seq<u8>, at: int, b: BlockQ8_0) -> bool {
    &&& b.d.bits == two_bytes(s, at + 0)
    &&& forall|i: int| 0 <= i < 32 ==> #[trigger] b.qs@[i] == signed_byte(s[at + 2 + i])
}

/// q8_0: block `k` of a run, read or written, lies in the bytes from `34 * k` on.
pub proof fn q8_0_blocks_lie_in_order<R: Real>(s: Seq<u8>, blocks: Seq<BlockQ8_0>, k: int)
    requires
        run_laid::<R, BlockQ8_0>(s, blocks) || run_spelled::<R, BlockQ8_0>(s, blocks),
        0 <= k < blocks.len(),
    ensures
        s.len() == 34 * blocks.len(),
        q8_0_lies(s, 34 * k, blocks[k]),
{
    let t = crate::tiled::span(s, k, 34);
    let b = blocks[k];
    let size = <BlockQ8_0 as Stored<R>>::size() as int;
    lemma_lies(s.len() as int, blocks.len() as int, size, 34, k);
    assert(<BlockQ8_0 as Stored<R>>::laid(b, t) || <BlockQ8_0 as Stored<R>>::spelled(b, t));
    assert forall|i: int| 0 <= i < 34 implies #[trigger] t[i] == s[34 * k + i] by {}
}

/// A q2_K block at `at`.
pub open spec fn q2k_lies(s: Seq<u8>, at: int, b: BlockQ2K) -> bool {
    &&& forall|i: int| 0 <= i < 16 ==> #[trigger] b.scales@[i] == s[at + 0 + i]
    &&& forall|i: int| 0 <= i < 64 ==> #[trigger] b.qs@[i] == s[at + 16 + i]
    &&& b.d.bits == two_bytes(s, at + 80)
    &&& b.dmin.bits == two_bytes(s, at + 82)
}

/// q2_K: block `k` of a run, read or written, lies in the bytes from `84 * k` on.
pub proof fn q2k_blocks_lie_in_order<R: Real>(s: Seq<u8>, blocks: Seq<BlockQ2K>, k: int)
    requires
        run_laid::<R, BlockQ2K>(s, blocks) || run_spelled::<R, BlockQ2K>(s, blocks),
        0 <= k < blocks.len(),
    ensures
        s.len() == 84 * blocks.len(),
        q2k_lies(s, 84 * k, blocks[k]),
{
    let t = crate::tiled::span(s, k, 84);
    let b = blocks[k];
    let size = <BlockQ2K as Stored<R>>::size() as int;
    lemma_lies(s.len() as int, blocks.len() as int, size, 84, k);
    assert(<BlockQ2K as Stored<R>>::laid(b, t) || <BlockQ2K as Stored<R>>::spelled(b, t));
    assert forall|i: int| 0 <= i < 84 implies #[trigger] t[i] == s[84 * k + i] by {}
}

/// A q3_K block at `at`.
pub open spec fn q3k_lies(s: Seq<u8>, at: int, b: BlockQ3K) -> bool {
    &&& forall|i: int| 0 <= i < 32 ==> #[trigger] b.hmask@[i] == s[at + 0 + i]
    &&& forall|i: int| 0 <= i < 64 ==> #[trigger] b.qs@[i] == s[at + 32 + i]
    &&& forall|i: int| 0 <= i < 12 ==> #[trigger] b.scales@[i] == s[at + 96 + i]
    &&& b.d.bits == two_bytes(s, at + 108)
}

/// q3_K: block `k` of a run, read or written, lies in the bytes from `110 * k` on.
pub proof fn q3k_blocks_lie_in_order<R: Real>(s: Seq<u8>, blocks: Seq<BlockQ3K>, k: int)
    requires
        run_laid::<R, BlockQ3K>(s, blocks) || run_spelled::<R, BlockQ3K>(s, blocks),
        0 <= k < blocks.len(),
    ensures
        s.len() == 110 * blocks.len(),
        q3k_lies(s, 110 * k, blocks[k]),
{
    let t = crate::tiled::span(s, k, 110);
    let b = blocks[k];
    let size = <BlockQ3K as Stored<R>>::size() as int;
    lemma_lies(s.len() as int, blocks.len() as int, size, 110, k);
    assert(<BlockQ3K as Stored<R>>::laid(b, t) || <BlockQ3K as Stored<R>>::spelled(b, t));
    assert forall|i: int| 0 <= i < 110 implies #[trigger] t[i] == s[110 * k + i] by {}
}

/// A q4_K block at `at`.
pub open spec fn q4k_lies(s: Seq<u8>, at: int, b: BlockQ4K) -> bool {
    &&& b.d.bits == two_bytes(s, at + 0)
    &&& b.dmin.bits == two_bytes(s, at + 2)
    &&& forall|i: int| 0 <= i < 12 ==> #[trigger] b.scales@[i] == s[at + 4 + i]
    &&& forall|i: int| 0 <= i < 128 ==> #[trigger] b.qs@[i] == s[at + 16 + i]
}

/// q4_K: block `k` of a run, read or written, lies in the bytes from `144 * k` on.
pub proof fn q4k_blocks_lie_in_order<R: Real>(s: Seq<u8>, blocks: Seq<BlockQ4K>, k: int)
    requires
        run_laid::<R, BlockQ4K>(s, blocks) || run_spelled::<R, BlockQ4K>(s, blocks),
        0 <= k < blocks.len(),
    ensures
        s.len() == 144 * blocks.len(),
        q4k_lies(s, 144 * k, blocks[k]),
{
    let t = crate::tiled::span(s, k, 144);
    let b = blocks[k];
    let size = <BlockQ4K as Stored<R>>::size() as int;
    lemma_lies(s.len() as int, blocks.len() as int, size, 144, k);
    assert(<BlockQ4K as Stored<R>>::laid(b, t) || <BlockQ4K as Stored<R>>::spelled(b, t));
    assert forall|i: int| 0 <= i < 144 implies #[trigger] t[i] == s[144 * k + i] by {}
}

/// A q5_K block at `at`.
pub open spec fn q5k_lies(s: Seq<u8>, at: int, b: BlockQ5K) -> bool {
    &&& b.d.bits == two_bytes(s, at + 0)
    &&& b.dmin.bits == two_bytes(s, at + 2)
    &&& forall|i: int| 0 <= i < 12 ==> #[trigger] b.scales@[i] == s[at + 4 + i]
    &&& forall|i: int| 0 <= i < 32 ==> #[trigger] b.qh@[i] == s[at + 16 + i]
    &&& forall|i: int| 0 <= i < 128 ==> #[trigger] b.qs@[i] == s[at + 48 + i]
}

/// q5_K: block `k` of a run, read or written, lies in the bytes from `176 * k` on.
pub proof fn q5k_blocks_lie_in_order<R: Real>(s: Seq<u8>, blocks: Seq<BlockQ5K>, k: int)
    requires
        run_laid::<R, BlockQ5K>(s, blocks) || run_spelled::<R, BlockQ5K>(s, blocks),
        0 <= k < blocks.len(),
    ensures
        s.len() == 176 * blocks.len(),
        q5k_lies(s, 176 * k, blocks[k]),
{
    let t = crate::tiled::span(s, k, 176);
    let b = blocks[k];
    let size = <BlockQ5K as Stored<R>>::size() as int;
    lemma_lies(s.len() as int, blocks.len() as int, size, 176, k);
    assert(<BlockQ5K as Stored<R>>::laid(b, t) || <BlockQ5K as Stored<R>>::spelled(b, t));
    assert forall|i: int| 0 <= i < 176 implies #[trigger] t[i] == s[176 * k + i] by {}
}

/// A q6_K block at `at`.
pub open spec fn q6k_lies(s: Seq<u8>, at: int, b: BlockQ6K) -> bool {
    &&& forall|i: int| 0 <= i < 128 ==> #[trigger] b.ql@[i] == s[at + 0 + i]
    &&& forall|i: int| 0 <= i < 64 ==> #[trigger] b.qh@[i] == s[at + 128 + i]
    &&& forall|i: int| 0 <= i < 16 ==> #[trigger] b.scales@[i] == signed_byte(s[at + 192 + i])
    &&& b.d.bits == two_bytes(s, at + 208)
}

/// q6_K: block `k` of a run, read or written, lies in the bytes from `210 * k` on.
pub proof fn q6k_blocks_lie_in_order<R: Real>(s: Seq<u8>, blocks: Seq<BlockQ6K>, k: int)
    requires
        run_laid::<R, BlockQ6K>(s, blocks) || run_spelled::<R, BlockQ6K>(s, blocks),
        0 <= k < blocks.len(),
    ensures
        s.len() == 210 * blocks.len(),
        q6k_lies(s, 210 * k, blocks[k]),
{
    let t = crate::tiled::span(s, k, 210);
    let b = blocks[k];
    let size = <BlockQ6K as Stored<R>>::size() as int;
    lemma_lies(s.len() as int, blocks.len() as int, size, 210, k);
    assert(<BlockQ6K as Stored<R>>::laid(b, t) || <BlockQ6K as Stored<R>>::spelled(b, t));
    assert forall|i: int| 0 <= i < 210 implies #[trigger] t[i] == s[210 * k + i] by {}
}

/// A mxfp4 block at `at`.
pub open spec fn mxfp4_lies(s: Seq<u8>, at: int, b: BlockMxFp4) -> bool {
    &&& b.e == s[at + 0]
    &&& forall|i: int| 0 <= i < 16 ==> #[trigger] b.qs@[i] == s[at + 1 + i]
}

/// mxfp4: block `k` of a run, read or written, lies in the bytes from `17 * k` on.
pub proof fn mxfp4_blocks_lie_in_order<R: Real>(s: Seq<u8>, blocks: Seq<BlockMxFp4>, k: int)
    requires
        run_laid::<R, BlockMxFp4>(s, blocks) || run_spelled::<R, BlockMxFp4>(s, blocks),
        0 <= k < blocks.len(),
    ensures
        s.len() == 17 * blocks.len(),
        mxfp4_lies(s, 17 * k, blocks[k]),
{
    let t = crate::tiled::span(s, k, 17);
    let b = blocks[k];
    let size = <BlockMxFp4 as Stored<R>>::size() as int;
    lemma_lies(s.len() as int, blocks.len() as int, size, 17, k);
    assert(<BlockMxFp4 as Stored<R>>::laid(b, t) || <BlockMxFp4 as Stored<R>>::spelled(b, t));
    assert forall|i: int| 0 <= i < 17 implies #[trigger] t[i] == s[17 * k + i] by {}
}

/// A iq2_xxs block at `at`.
pub open spec fn iq2_lies(s: Seq<u8>, at: int, b: BlockIq2Xxs) -> bool {
    &&& b.d.bits == two_bytes(s, at + 0)
    &&& forall|i: int| 0 <= i < 32 ==> #[trigger] b.qs@[i] == two_bytes(s, at + 2 + 2 * i)
}

/// iq2_xxs: block `k` of a run, read or written, lies in the bytes from `66 * k` on.
pub proof fn iq2_blocks_lie_in_order<R: Real>(s: Seq<u8>, blocks: Seq<BlockIq2Xxs>, k: int)
    requires
        run_laid::<R, BlockIq2Xxs>(s, blocks) || run_spelled::<R, BlockIq2Xxs>(s, blocks),
        0 <= k < blocks.len(),
    ensures
        s.len() == 66 * blocks.len(),
        iq2_lies(s, 66 * k, blocks[k]),
{
    let t = crate::tiled::span(s, k, 66);
    let b = blocks[k];
    let size = <BlockIq2Xxs as Stored<R>>::size() as int;
    lemma_lies(s.len() as int, blocks.len() as int, size, 66, k);
    assert(<BlockIq2Xxs as Stored<R>>::laid(b, t) || <BlockIq2Xxs as Stored<R>>::spelled(b, t));
    assert forall|i: int| 0 <= i < 66 implies #[trigger] t[i] == s[66 * k + i] by {}
}

/// q8_K: block `k` of a run, read or written, lies in the bytes from `292 * k` on: its scale's bits,
/// its codes and its sums.
pub proof fn q8k_blocks_lie_in_order<R: Real>(s: Seq<u8>, blocks: Seq<BlockQ8K<R>>, k: int)
    requires
        run_laid::<R, BlockQ8K<R>>(s, blocks),
        0 <= k < blocks.len(),
    ensures
        s.len() == 292 * blocks.len(),
        blocks[k].d == rbits::<R>(
            (two_bytes(s, 292 * k) + 65536 * two_bytes(s, 292 * k + 2)) as u32,
        ),
        forall|i: int|
            0 <= i < 256 ==> #[trigger] blocks[k].qs@[i] == signed_byte(s[292 * k + 4 + i]),
        forall|i: int|
            0 <= i < 16 ==> (#[trigger] blocks[k].bsums@[i] - two_bytes(
                s,
                292 * k + 260 + 2 * i,
            )) % 65536 == 0,
{
    let t = crate::tiled::span(s, k, 292);
    let b = blocks[k];
    let size = <BlockQ8K<R> as Stored<R>>::size() as int;
    lemma_lies(s.len() as int, blocks.len() as int, size, 292, k);
    assert(<BlockQ8K<R> as Stored<R>>::laid(b, t));
    assert forall|i: int| 0 <= i < 292 implies #[trigger] t[i] == s[292 * k + i] by {}
    assert forall|i: int| 0 <= i < 16 implies (#[trigger] b.bsums@[i] - two_bytes(
        s,
        292 * k + 260 + 2 * i,
    )) % 65536 == 0 by {
        assert(crate::layout::signed16(crate::layout::word_at(t, 260 + 2 * i)) == b.bsums@[i]);
    }
}

} // verus!
