//! MXFP4 weights interleaved eight columns to a block.
//!
//! A byte holds two of a column's values sixteen apart, each a code for a small table of values.
use vstd::prelude::*;
use crate::arith::{Real, lawful};
use crate::blocks::{KVALUES_MXFP4, e8m0_to_fp32_half, e8m0_value, high4, low4};
use crate::coded::{Codes32, Scaled, cell};
use crate::kgroup::{Gather, interleave_rows, interleaved, lemma_stride};
use crate::repack_q4k::place;
use crate::tile4x8::{
    Octet, act_tiles, part_chain, parted_cell, parted_matmul, tile_chain, tile_gemm, tile_gemm16,
    tile_parts,
};
pub use crate::tile4x8::{BlockQ8_0x4, quantize_act};
use crate::format::mxfp4::BlockMxFp4;


verus! {

/// One block of each of eight columns: byte `p` of column `j` is
/// `qs[(p / 8) * 64 + j * 8 + p % 8]`, and `e[j]` its power-of-two scale.
#[derive(Clone, Copy, Debug)]
pub struct BlockMxFp4x8 {
    pub e: [u8; 8],
    pub qs: [u8; 128],
}

/// The nibble column `j` has for value `e`.
pub open spec fn column_nibble(qs: Seq<u8>, j: int, e: int) -> int {
    let byte = qs[place(e % 16, j)];
    if e < 16 {
        low4(byte)
    } else {
        high4(byte)
    }
}

/// Column `j` of `b` is `x`.
pub open spec fn column_is(b: BlockMxFp4x8, j: int, x: BlockMxFp4) -> bool {
    &&& b.e@[j] == x.e
    &&& forall|p: int| 0 <= p < 16 ==> b.qs@[#[trigger] place(p, j)] == x.qs@[p]
}

impl<R: Real> Octet<R> for BlockMxFp4x8 {
    open spec fn weight_of(self, j: int, e: int) -> int {
        KVALUES_MXFP4@[column_nibble(self.qs@, j, e)] as int
    }

    open spec fn scale_at(self, j: int) -> R {
        e8m0_value::<R>(self.e@[j])
    }

    fn weights(&self, j: usize) -> (r: [i8; 32]) {
        let mut r = [0i8; 32];
        for e in 0..32usize
            invariant
                j < 8,
                forall|i: int|
                    0 <= i < e ==> #[trigger] r@[i] == KVALUES_MXFP4@[column_nibble(
                        self.qs@,
                        j as int,
                        i,
                    )],
        {
            let p: usize = e % 16;
            let byte: u8 = self.qs[(p / 8) * 64 + j * 8 + p % 8];
            let code: u8 = if e < 16 {
                byte % 16
            } else {
                byte / 16
            };
            r[e] = KVALUES_MXFP4[code as usize];
        }
        r
    }

    fn scale(&self, j: usize) -> R {
        e8m0_to_fp32_half(self.e[j])
    }
}

/// Eight rows' blocks, interleaved eight bytes at a time.
pub struct Eights {}

impl Gather for Eights {
    type Row = BlockMxFp4;

    type Out = BlockMxFp4x8;

    open spec fn holds(out: BlockMxFp4x8, j: int, row: BlockMxFp4) -> bool {
        column_is(out, j, row)
    }

    fn gather(rhs: &[BlockMxFp4], base: usize, stride: usize) -> (out: BlockMxFp4x8) {
        let total: usize = rhs.len();
        let mut e = [0u8; 8];
        let mut qs = [0u8; 128];
        for j in 0..8usize
            invariant
                total == rhs@.len(),
                base + 7 * stride < total,
                forall|k: int| 0 <= k < j ==> #[trigger] e@[k] == rhs@[base + k * stride].e,
        {
            proof {
                lemma_stride(j as int, stride as int);
            }
            e[j] = rhs[base + j * stride].e;
        }
        for i in 0..128usize
            invariant
                total == rhs@.len(),
                base + 7 * stride < total,
                forall|u: int|
                    0 <= u < i ==> #[trigger] qs@[u] == rhs@[base + ((u / 8) % 8) * stride].qs@[(u
                        / 64) * 8 + u % 8],
        {
            proof {
                lemma_stride((i as int / 8) % 8, stride as int);
            }
            qs[i] = rhs[base + ((i / 8) % 8) * stride].qs[(i / 64) * 8 + i % 8];
        }
        let out = BlockMxFp4x8 { e, qs };
        assert forall|j: int| 0 <= j < 8 implies #[trigger] Self::holds(
            out,
            j,
            rhs@[base + j * stride],
        ) by {
            let x = rhs@[base + j * stride];
            assert(out.e@[j] == x.e);
            assert forall|p: int| 0 <= p < 16 implies out.qs@[#[trigger] place(p, j)] == x.qs@[p] by {
                let u = place(p, j);
                assert((u / 8) % 8 == j && (u / 64) * 8 + u % 8 == p);
                assert(out.qs@[u] == rhs@[base + ((u / 8) % 8) * stride].qs@[(u / 64) * 8 + u % 8]);
            }
        }
        out
    }
}

/// Interleave `[n, nb]` row-major blocks into `[n/8][nb]`.
pub fn repack(raw: &[BlockMxFp4], n: usize, nb: usize) -> (out: Vec<BlockMxFp4x8>)
    requires
        n % 8 == 0,
        raw@.len() == n * nb,
    ensures
        interleaved::<Eights>(raw@, out@, n as int, nb as int),
{
    interleave_rows::<Eights>(raw, n, nb)
}

/// A column of an interleaved block has the weights and the scale of the block it came from.
pub proof fn column_is_its_row<R: Real>(b: BlockMxFp4x8, j: int, x: BlockMxFp4)
    requires
        0 <= j < 8,
        column_is(b, j, x),
    ensures
        forall|e: int|
            0 <= e < 32 ==> #[trigger] <BlockMxFp4x8 as Octet<R>>::weight_of(b, j, e) == x.code_of(e),
        <BlockMxFp4x8 as Octet<R>>::scale_at(b, j) == <BlockMxFp4 as Scaled<R>>::scale_of(x),
{
    assert forall|e: int| 0 <= e < 32 implies #[trigger] <BlockMxFp4x8 as Octet<R>>::weight_of(b, j, e)
        == x.code_of(e) by {
        let p = e % 16;
        assert(b.qs@[place(p, j)] == x.qs@[p]);
    }
}

/// One tile of four rows and eight columns, one rounding per part of a block: `out[m * 8 + j]`.
pub fn gemm_scalar<R: Real>(a: &[BlockQ8_0x4], b: &[BlockMxFp4x8], nb: usize, out: &mut [R; 32])
    requires
        lawful::<R>(),
        nb <= a@.len(),
        nb <= b@.len(),
    ensures
        forall|i: int|
            0 <= i < 32 ==> #[trigger] final(out)@[i] == part_chain::<R, BlockMxFp4x8>(
                b@,
                a@,
                nb as nat,
                i / 8,
                i % 8,
                true,
            ),
{
    tile_parts::<R, BlockMxFp4x8>(a, b, nb, true, out)
}

/// `dst` is `lhs` against the rows of `raw`, through some interleaving of each: both are
/// determined by what they hold, so the product is too.
pub open spec fn scalar_product<R: Real>(
    lhs: Seq<R>,
    raw: Seq<BlockMxFp4>,
    dst: Seq<R>,
    m: int,
    k: int,
    n: int,
) -> bool {
    exists|acts: Seq<BlockQ8_0x4>, b: Seq<BlockMxFp4x8>|
        #![trigger act_tiles(lhs, acts, m, k), interleaved::<Eights>(raw, b, n, k / 32)]
        act_tiles(lhs, acts, m, k) && interleaved::<Eights>(raw, b, n, k / 32) && (forall|
            row: int,
            col: int,
        |
            0 <= row < m && 0 <= col < n ==> dst[#[trigger] cell(n, row, col)] == parted_cell::<
                R,
                BlockMxFp4x8,
            >(b, acts, k / 32, row, col, true))
}

/// `[m, k]` values against `[n, k]` weights, for `shape` = `(m, k, n)`, one rounding per part of a
/// block.
pub fn matmul_scalar<R: Real>(
    shape: (usize, usize, usize),
    lhs: &[R],
    raw: &[BlockMxFp4],
    dst: &mut [R],
)
    requires
        lawful::<R>(),
        shape.1 % 32 == 0,
        shape.2 % 8 == 0,
        shape.0 + 3 <= usize::MAX,
        lhs@.len() == shape.0 * shape.1,
        raw@.len() == shape.2 * (shape.1 / 32),
        old(dst)@.len() == shape.0 * shape.2,
    ensures
        final(dst)@.len() == shape.0 * shape.2,
        scalar_product(
            lhs@,
            raw@,
            final(dst)@,
            shape.0 as int,
            shape.1 as int,
            shape.2 as int,
        ),
{
    let (m, k, n) = shape;
    let nb: usize = k / 32;
    let b = repack(raw, n, nb);
    let acts = quantize_act(lhs, m, k);
    parted_matmul::<R, BlockMxFp4x8>(m, n, nb, &acts, &b, true, dst);
    assert(act_tiles(lhs@, acts@, m as int, k as int));
    assert(interleaved::<Eights>(raw@, b@, n as int, k as int / 32));
}

/// One tile of four rows and eight columns, one fused step per block: `out[m * 8 + j]`.
pub fn gemm_group_avx2<R: Real>(a: &[BlockQ8_0x4], b: &[BlockMxFp4x8], nb: usize, out: &mut [R; 32])
    requires
        lawful::<R>(),
        nb <= a@.len(),
        nb <= b@.len(),
    ensures
        forall|i: int|
            0 <= i < 32 ==> #[trigger] final(out)@[i] == tile_chain::<R, BlockMxFp4x8>(
                b@,
                a@,
                nb as nat,
                i / 8,
                i % 8,
            ),
{
    tile_gemm::<R, BlockMxFp4x8>(a, b, nb, out)
}

/// Four tiles over one reading of the weights: `out[rp * 32 + m * 8 + j]`.
pub fn gemm_group16_avx2<R: Real>(
    a0: &[BlockQ8_0x4],
    a1: &[BlockQ8_0x4],
    a2: &[BlockQ8_0x4],
    a3: &[BlockQ8_0x4],
    b: &[BlockMxFp4x8],
    nb: usize,
    out: &mut [R; 128],
)
    requires
        lawful::<R>(),
        nb <= a0@.len(),
        nb <= a1@.len(),
        nb <= a2@.len(),
        nb <= a3@.len(),
        nb <= b@.len(),
    ensures
        forall|i: int|
            0 <= i < 128 ==> #[trigger] final(out)@[i] == tile_chain::<R, BlockMxFp4x8>(
                b@,
                seq![a0@, a1@, a2@, a3@][i / 32],
                nb as nat,
                (i % 32) / 8,
                i % 8,
            ),
{
    tile_gemm16::<R, BlockMxFp4x8>(a0, a1, a2, a3, b, nb, out)
}

} // verus!
