//! Q8_0 weights interleaved eight columns to a block.
//!
//! The weights are bytes already, so the columns of a tile are read as they lie.
use vstd::prelude::*;
use crate::arith::{Half, Real, lawful, rhalf, widen};
use crate::coded::{Codes32, Scaled, cell};
use crate::kgroup::{Gather, interleave_rows, interleaved, lemma_stride};
use crate::repack_q4k::place;
use crate::tile4x8::{
    Octet, act_tiles, part_chain, parted_cell, parted_matmul, tile_chain, tile_gemm, tile_gemm16,
    tile_parts,
};
pub use crate::tile4x8::{BlockQ8_0x4, quantize_act};
use crate::format::q8_0::BlockQ8_0;


verus! {

/// One block of each of eight columns: value `e` of column `j` is
/// `qs[(e / 8) * 64 + j * 8 + e % 8]`.
#[derive(Clone, Copy, Debug)]
pub struct BlockQ8_0x8 {
    pub d: [Half; 8],
    pub qs: [i8; 256],
}

/// Column `j` of `b` is `x`.
pub open spec fn column_is(b: BlockQ8_0x8, j: int, x: BlockQ8_0) -> bool {
    &&& b.d@[j] == x.d
    &&& forall|p: int| 0 <= p < 32 ==> b.qs@[#[trigger] place(p, j)] == x.qs@[p]
}

impl<R: Real> Octet<R> for BlockQ8_0x8 {
    open spec fn weight_of(self, j: int, e: int) -> int {
        self.qs@[place(e, j)] as int
    }

    open spec fn scale_at(self, j: int) -> R {
        rhalf(self.d@[j])
    }

    fn weights(&self, j: usize) -> (r: [i8; 32]) {
        let mut r = [0i8; 32];
        for e in 0..32usize
            invariant
                j < 8,
                forall|i: int| 0 <= i < e ==> #[trigger] r@[i] == self.qs@[place(i, j as int)],
        {
            r[e] = self.qs[(e / 8) * 64 + j * 8 + e % 8];
        }
        r
    }

    fn scale(&self, j: usize) -> R {
        widen(self.d[j])
    }
}

/// Eight rows' blocks, interleaved eight bytes at a time.
pub struct Eights {}

impl Gather for Eights {
    type Row = BlockQ8_0;

    type Out = BlockQ8_0x8;

    open spec fn holds(out: BlockQ8_0x8, j: int, row: BlockQ8_0) -> bool {
        column_is(out, j, row)
    }

    fn gather(rhs: &[BlockQ8_0], base: usize, stride: usize) -> (out: BlockQ8_0x8) {
        let total: usize = rhs.len();
        let mut d = [Half::zero(); 8];
        let mut qs = [0i8; 256];
        for j in 0..8usize
            invariant
                total == rhs@.len(),
                base + 7 * stride < total,
                forall|k: int| 0 <= k < j ==> #[trigger] d@[k] == rhs@[base + k * stride].d,
        {
            proof {
                lemma_stride(j as int, stride as int);
            }
            d[j] = rhs[base + j * stride].d;
        }
        for i in 0..256usize
            invariant
                total == rhs@.len(),
                base + 7 * stride < total,
                forall|u: int|
                    0 <= u < i ==> #[trigger] qs@[u] == rhs@[base + ((u / 8) % 8) * stride].qs@[(u
                        / 64) * 8 + u % 8],
        {
            proof {
                lemma_stride((i as int / 8) % 8, stride as int);
            }
            qs[i] = rhs[base + ((i / 8) % 8) * stride].qs[(i / 64) * 8 + i % 8];
        }
        let out = BlockQ8_0x8 { d, qs };
        assert forall|j: int| 0 <= j < 8 implies #[trigger] Self::holds(
            out,
            j,
            rhs@[base + j * stride],
        ) by {
            let x = rhs@[base + j * stride];
            assert(out.d@[j] == x.d);
            assert forall|p: int| 0 <= p < 32 implies out.qs@[#[trigger] place(p, j)] == x.qs@[p] by {
                let u = place(p, j);
                assert((u / 8) % 8 == j && (u / 64) * 8 + u % 8 == p);
                assert(out.qs@[u] == rhs@[base + ((u / 8) % 8) * stride].qs@[(u / 64) * 8 + u % 8]);
            }
        }
        out
    }
}

/// Interleave `[n, nb]` row-major blocks into `[n/8][nb]`.
pub fn repack(raw: &[BlockQ8_0], n: usize, nb: usize) -> (out: Vec<BlockQ8_0x8>)
    requires
        n % 8 == 0,
        raw@.len() == n * nb,
    ensures
        interleaved::<Eights>(raw@, out@, n as int, nb as int),
{
    interleave_rows::<Eights>(raw, n, nb)
}

/// A column of an interleaved block has the weights and the scale of the block it came from.
pub proof fn column_is_its_row<R: Real>(b: BlockQ8_0x8, j: int, x: BlockQ8_0)
    requires
        0 <= j < 8,
        column_is(b, j, x),
    ensures
        forall|e: int|
            0 <= e < 32 ==> #[trigger] <BlockQ8_0x8 as Octet<R>>::weight_of(b, j, e) == x.code_of(e),
        <BlockQ8_0x8 as Octet<R>>::scale_at(b, j) == <BlockQ8_0 as Scaled<R>>::scale_of(x),
{
    assert forall|e: int| 0 <= e < 32 implies #[trigger] <BlockQ8_0x8 as Octet<R>>::weight_of(b, j, e)
        == x.code_of(e) by {
        let p = e % 32;
        assert(b.qs@[place(p, j)] == x.qs@[p]);
    }
}

/// One tile of four rows and eight columns, one rounding per part of a block: `out[m * 8 + j]`.
pub fn gemm_scalar<R: Real>(a: &[BlockQ8_0x4], b: &[BlockQ8_0x8], nb: usize, out: &mut [R; 32])
    requires
        lawful::<R>(),
        nb <= a@.len(),
        nb <= b@.len(),
    ensures
        forall|i: int|
            0 <= i < 32 ==> #[trigger] final(out)@[i] == part_chain::<R, BlockQ8_0x8>(
                b@,
                a@,
                nb as nat,
                i / 8,
                i % 8,
                false,
            ),
{
    tile_parts::<R, BlockQ8_0x8>(a, b, nb, false, out)
}

/// `dst` is `lhs` against the rows of `raw`, through some interleaving of each: both are
/// determined by what they hold, so the product is too.
pub open spec fn scalar_product<R: Real>(
    lhs: Seq<R>,
    raw: Seq<BlockQ8_0>,
    dst: Seq<R>,
    m: int,
    k: int,
    n: int,
) -> bool {
    exists|acts: Seq<BlockQ8_0x4>, b: Seq<BlockQ8_0x8>|
        #![trigger act_tiles(lhs, acts, m, k), interleaved::<Eights>(raw, b, n, k / 32)]
        act_tiles(lhs, acts, m, k) && interleaved::<Eights>(raw, b, n, k / 32) && (forall|
            row: int,
            col: int,
        |
            0 <= row < m && 0 <= col < n ==> dst[#[trigger] cell(n, row, col)] == parted_cell::<
                R,
                BlockQ8_0x8,
            >(b, acts, k / 32, row, col, false))
}

/// `[m, k]` values against `[n, k]` weights, for `shape` = `(m, k, n)`, one rounding per part of a
/// block.
pub fn matmul_scalar<R: Real>(
    shape: (usize, usize, usize),
    lhs: &[R],
    raw: &[BlockQ8_0],
    dst: &mut [R],
)
    requires
        lawful::<R>(),
        shape.1 % 32 == 0,
        shape.2 % 8 == 0,
        shape.0 + 3 <= usize::MAX,
        lhs@.len() == shape.0 * shape.1,
        raw@.len() == shape.2 * (shape.1 / 32),
        old(dst)@.len() == shape.0 * shape.2,
    ensures
        final(dst)@.len() == shape.0 * shape.2,
        scalar_product(
            lhs@,
            raw@,
            final(dst)@,
            shape.0 as int,
            shape.1 as int,
            shape.2 as int,
        ),
{
    let (m, k, n) = shape;
    let nb: usize = k / 32;
    let b = repack(raw, n, nb);
    let acts = quantize_act(lhs, m, k);
    parted_matmul::<R, BlockQ8_0x8>(m, n, nb, &acts, &b, false, dst);
    assert(act_tiles(lhs@, acts@, m as int, k as int));
    assert(interleaved::<Eights>(raw@, b@, n as int, k as int / 32));
}

/// One tile of four rows and eight columns, one fused step per block: `out[m * 8 + j]`.
pub fn gemm_group_avx2<R: Real>(a: &[BlockQ8_0x4], b: &[BlockQ8_0x8], nb: usize, out: &mut [R; 32])
    requires
        lawful::<R>(),
        nb <= a@.len(),
        nb <= b@.len(),
    ensures
        forall|i: int|
            0 <= i < 32 ==> #[trigger] final(out)@[i] == tile_chain::<R, BlockQ8_0x8>(
                b@,
                a@,
                nb as nat,
                i / 8,
                i % 8,
            ),
{
    tile_gemm::<R, BlockQ8_0x8>(a, b, nb, out)
}

/// Four tiles over one reading of the weights: `out[rp * 32 + m * 8 + j]`.
pub fn gemm_group16_avx2<R: Real>(
    a0: &[BlockQ8_0x4],
    a1: &[BlockQ8_0x4],
    a2: &[BlockQ8_0x4],
    a3: &[BlockQ8_0x4],
    b: &[BlockQ8_0x8],
    nb: usize,
    out: &mut [R; 128],
)
    requires
        lawful::<R>(),
        nb <= a0@.len(),
        nb <= a1@.len(),
        nb <= a2@.len(),
        nb <= a3@.len(),
        nb <= b@.len(),
    ensures
        forall|i: int|
            0 <= i < 128 ==> #[trigger] final(out)@[i] == tile_chain::<R, BlockQ8_0x8>(
                b@,
                seq![a0@, a1@, a2@, a3@][i / 32],
                nb as nat,
                (i % 32) / 8,
                i % 8,
            ),
{
    tile_gemm16::<R, BlockQ8_0x8>(a0, a1, a2, a3, b, nb, out)
}

} // verus!
