//! Q8_0 weights, rows grouped by eight.
//!
//! A gather: the blocks of eight rows are laid side by side, block-major, so one activation block
//! feeds eight weight blocks back to back. No block changes, and the tiled product of a column is
//! the product its row has on its own.
use vstd::prelude::*;
use crate::arith::{Real, lawful};
use crate::coded::{
    column, group_gemm, group_gemv_scalar, group_rows, grouped, lane_dot, plain_dot, tile,
};
use crate::format::q8_0::BlockQ8_0;

verus! {

/// Transpose `[n, nb]` row-major blocks into `[n/8][nb][8]`: group, block, row.
pub fn repack(rhs: &[BlockQ8_0], n: usize, nb: usize) -> (out: Vec<BlockQ8_0>)
    requires
        n % 8 == 0,
        rhs@.len() == n * nb,
    ensures
        grouped(rhs@, out@, n as int, nb as int),
{
    group_rows(rhs, n, nb)
}

/// One group of eight columns against one activation row, one term per block.
pub fn gemv_group_scalar<R: Real>(b: &[BlockQ8_0], a: &[BlockQ8_0], nb: usize, out: &mut [R])
    requires
        lawful::<R>(),
        nb * 8 <= b@.len(),
        nb <= a@.len(),
        8 <= old(out)@.len(),
    ensures
        final(out)@.len() == old(out)@.len(),
        forall|j: int|
            0 <= j < 8 ==> #[trigger] final(out)@[j] == plain_dot::<R, BlockQ8_0, BlockQ8_0>(
                column(b@, nb as int, j),
                a@,
                nb as nat,
            ),
        forall|i: int| 8 <= i < final(out)@.len() ==> #[trigger] final(out)@[i] == old(out)@[i],
{
    group_gemv_scalar(b, a, nb, out)
}

/// One group of eight columns against a tile of activation rows: row `r` of the tile fills
/// `out[r * 8 .. r * 8 + 8]`.
pub fn gemm_group_avx2<R: Real>(b: &[BlockQ8_0], acts: &[&[BlockQ8_0]], nb: usize, out: &mut [R])
    requires
        lawful::<R>(),
        nb * 8 <= b@.len(),
        forall|r: int| 0 <= r < acts@.len() ==> nb <= #[trigger] acts@[r]@.len(),
        acts@.len() * 8 <= old(out)@.len(),
    ensures
        final(out)@.len() == old(out)@.len(),
        forall|r: int, j: int|
            0 <= r < acts@.len() && 0 <= j < 8 ==> final(out)@[#[trigger] tile(r, j)] == lane_dot::<
                R,
                BlockQ8_0,
                BlockQ8_0,
            >(column(b@, nb as int, j), acts@[r]@, nb as nat),
        forall|i: int|
            acts@.len() * 8 <= i < final(out)@.len() ==> #[trigger] final(out)@[i] == old(out)@[i],
{
    group_gemm(b, acts, nb, out)
}

} // verus!
