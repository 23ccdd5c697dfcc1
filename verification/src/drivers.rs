//! The drivers of the interleaved layouts.
//!
//! Each quantises the activation once and hands the weight groups to a kernel, tile by tile. What
//! the kernels share - the grouping, the tiles, where results go - is [`crate::tiled`]; here is
//! what tells them apart.
use vstd::prelude::*;
use crate::arith::{Real, lawful, radd, rzero, zero};
use crate::blocks::Quantized;
use crate::coded::{
    blocks_of, cell, column, grouped, grouped_columns_are_rows, lane_dot, tile,
};
use crate::error::Error;
use crate::format::mxfp4::BlockMxFp4;
use crate::format::q4_0::BlockQ4_0;
use crate::format::q5_0::BlockQ5_0;
use crate::format::q4_k::BlockQ4K;
use crate::format::q5_k::{BlockQ5K, q5k_dot};
use crate::format::q6_k::BlockQ6K;
use crate::format::q8_0::BlockQ8_0;
use crate::format::q8_k::{BlockQ8K, bsums_hold};
use crate::kgroup::{interleaved, single_dot, tiled_dot, tiled_dot_reads_the_column};
use crate::matmul::{dense_cell, quantize_rows};
use crate::repack_mxfp4;
use crate::repack_mxfp4_x8::BlockMxFp4x8;
use crate::repack_q4_0;
use crate::repack_q4k::{self, BlockQ4Kx8, Column, GroupScales};
use crate::repack_q5_0;
use crate::repack_q5k::{self, BlockQ5Kx8};
use crate::repack_q6k::{self, BlockQ6Kx8};
use crate::repack_q8_0;
use crate::repack_q8_0_x8::BlockQ8_0x8;
use crate::sums::filled;
use crate::tile4x8::{BlockQ8_0x4, Octet, act_tiles, fused_cell, fused_matmul, quantize_act};
use crate::tiled::{TileKernel, quantised, span, tiled_cell, tiled_matmul, tiled_product};

verus! {

/// `dst` is `lhs`, quantised once, against the interleaved weights `b`.
pub open spec fn packed_product<R: Real, A: Quantized<R>, K: TileKernel<R, Act = A>>(
    lhs: Seq<R>,
    b: Seq<K::Block>,
    dst: Seq<R>,
    m: int,
    k: int,
    n: int,
) -> bool {
    exists|acts: Seq<A>| #[trigger]
        quantised::<R, A>(lhs, acts) && tiled_product::<R, K>(
            b,
            acts,
            dst,
            m,
            n,
            k / A::width() as int,
        )
}

/// Quantise an activation and run a tiled kernel over it.
fn packed_matmul<R: Real, A: Quantized<R>, K: TileKernel<R, Act = A>>(
    m: usize,
    k: usize,
    n: usize,
    lhs: &[R],
    b: &[K::Block],
    dst: &mut [R],
)
    requires
        lawful::<R>(),
        8 <= A::width(),
        k as int % A::width() as int == 0,
        n % 8 == 0,
        lhs@.len() == m * k,
        0 <= K::per_group(k as int / A::width() as int),
        b@.len() == (n / 8) * K::per_group(k as int / A::width() as int),
        old(dst)@.len() == m * n,
    ensures
        packed_product::<R, A, K>(lhs@, b@, final(dst)@, m as int, k as int, n as int),
{
    let acts = quantize_rows::<R, A>(lhs, m, k);
    let w: usize = A::block_len();
    let nb: usize = k / w;
    assert(nb * 8 <= k) by {
        vstd::arithmetic::div_mod::lemma_fundamental_div_mod(k as int, w as int);
        assert(nb * 8 <= w * nb) by (nonlinear_arith)
            requires
                8 <= w,
                0 <= nb,
        ;
    }
    tiled_matmul::<R, K>(m, n, nb, &acts, b, dst);
    assert(quantised::<R, A>(lhs@, acts@));
}

/// Q4_K columns against tiles of rows; the scales are built once for a group that many rows meet.
pub struct Q4kTiles {}

impl<R: Real> TileKernel<R> for Q4kTiles {
    type Block = BlockQ4Kx8;

    type Act = BlockQ8K<R>;

    type Ready = Option<Vec<GroupScales<R>>>;

    open spec fn per_group(nb: int) -> int {
        nb
    }

    open spec fn is_ready(ready: Option<Vec<GroupScales<R>>>, b: Seq<BlockQ4Kx8>, nb: nat) -> bool {
        match ready {
            Some(gs) => gs@.len() == nb && forall|l: int|
                0 <= l < nb ==> repack_q4k::scales_hold(#[trigger] gs@[l], b[l]),
            None => true,
        }
    }

    open spec fn column_dot(b: Seq<BlockQ4Kx8>, j: int, a: Seq<BlockQ8K<R>>, nb: nat) -> R {
        tiled_dot::<R, Column>(repack_q4k::columns_of(b, j), a, nb)
    }

    fn group_len(nb: usize) -> usize {
        nb
    }

    fn ready(b: &[BlockQ4Kx8], nb: usize, m: usize) -> Option<Vec<GroupScales<R>>> {
        if m >= 32 {
            Some(repack_q4k::prep_group_scales::<R>(b, nb))
        } else {
            None
        }
    }

    fn tile(
        ready: &Option<Vec<GroupScales<R>>>,
        b: &[BlockQ4Kx8],
        acts: &[&[BlockQ8K<R>]],
        nb: usize,
        out: &mut [R],
    ) {
        match ready {
            Some(gs) => {
                repack_q4k::gemm_group_avx2_pre_rt::<R, 1>(b, acts, nb, gs, out);
                proof {
                    assert forall|r: int, j: int|
                        0 <= r < acts@.len() && 0 <= j < 8 implies out@[#[trigger] tile(r, j)]
                        == <Self as TileKernel<R>>::column_dot(b@, j, acts@[r]@, nb as nat) by {
                        repack_q4k::prepared_scales_change_nothing::<R>(
                            b@,
                            gs@,
                            acts@[r]@,
                            nb as nat,
                            j,
                        );
                    }
                }
            },
            None => {
                repack_q4k::gemm_group_avx2_rt::<R, 1>(b, acts, nb, out);
            },
        }
    }
}

/// Q4_K columns against one row at a time.
pub struct Q4kRows {}

impl<R: Real> TileKernel<R> for Q4kRows {
    type Block = BlockQ4Kx8;

    type Act = BlockQ8K<R>;

    type Ready = ();

    open spec fn per_group(nb: int) -> int {
        nb
    }

    open spec fn is_ready(ready: (), b: Seq<BlockQ4Kx8>, nb: nat) -> bool {
        true
    }

    open spec fn column_dot(b: Seq<BlockQ4Kx8>, j: int, a: Seq<BlockQ8K<R>>, nb: nat) -> R {
        tiled_dot::<R, Column>(repack_q4k::columns_of(b, j), a, nb)
    }

    fn group_len(nb: usize) -> usize {
        nb
    }

    fn ready(b: &[BlockQ4Kx8], nb: usize, m: usize) -> () {
        ()
    }

    fn tile(
        ready: &(),
        b: &[BlockQ4Kx8],
        acts: &[&[BlockQ8K<R>]],
        nb: usize,
        out: &mut [R],
    ) {
        let mt: usize = acts.len();
        for r in 0..mt
            invariant
                lawful::<R>(),
                mt == acts@.len(),
                mt <= 8,
                b@.len() == <Self as TileKernel<R>>::per_group(nb as int),
                forall|q: int| 0 <= q < mt ==> nb == #[trigger] acts@[q]@.len(),
                out@.len() == 64,
                forall|q: int, j: int|
                    0 <= q < r && 0 <= j < 8 ==> out@[#[trigger] tile(q, j)] == <Self as TileKernel<R>>::column_dot(
                        b@,
                        j,
                        acts@[q]@,
                        nb as nat,
                    ),
        {
            let mut local: Vec<R> = filled(zero::<R>(), 8);
            repack_q4k::gemv_group_avx2(b, acts[r], nb, &mut local);
            for j in 0..8usize
                invariant
                    r < mt,
                    mt <= 8,
                    local@.len() == 8,
                    out@.len() == 64,
                    forall|i: int|
                        0 <= i < 8 ==> #[trigger] local@[i] == <Self as TileKernel<R>>::column_dot(
                            b@,
                            i,
                            acts@[r as int]@,
                            nb as nat,
                        ),
                    forall|q: int, i: int|
                        0 <= i < 8 && (0 <= q < r || (q == r && i < j)) ==> out@[#[trigger] tile(q, i)]
                            == <Self as TileKernel<R>>::column_dot(b@, i, acts@[q]@, nb as nat),
            {
                assert(tile(r as int, j as int) == r * 8 + j);
                out[r * 8 + j] = local[j];
            }
        }
    }
}

/// Q4_K columns against one row at a time, codes and minimums exact within a block.
pub struct Q4kPlainRows {}

impl<R: Real> TileKernel<R> for Q4kPlainRows {
    type Block = BlockQ4Kx8;

    type Act = BlockQ8K<R>;

    type Ready = ();

    open spec fn per_group(nb: int) -> int {
        nb
    }

    open spec fn is_ready(ready: (), b: Seq<BlockQ4Kx8>, nb: nat) -> bool {
        true
    }

    open spec fn column_dot(b: Seq<BlockQ4Kx8>, j: int, a: Seq<BlockQ8K<R>>, nb: nat) -> R {
        single_dot::<R, Column>(repack_q4k::columns_of(b, j), a, nb)
    }

    fn group_len(nb: usize) -> usize {
        nb
    }

    fn ready(b: &[BlockQ4Kx8], nb: usize, m: usize) -> () {
        ()
    }

    fn tile(
        ready: &(),
        b: &[BlockQ4Kx8],
        acts: &[&[BlockQ8K<R>]],
        nb: usize,
        out: &mut [R],
    ) {
        let mt: usize = acts.len();
        for r in 0..mt
            invariant
                lawful::<R>(),
                mt == acts@.len(),
                mt <= 8,
                b@.len() == <Self as TileKernel<R>>::per_group(nb as int),
                forall|q: int| 0 <= q < mt ==> nb == #[trigger] acts@[q]@.len(),
                out@.len() == 64,
                forall|q: int, j: int|
                    0 <= q < r && 0 <= j < 8 ==> out@[#[trigger] tile(q, j)] == <Self as TileKernel<R>>::column_dot(
                        b@,
                        j,
                        acts@[q]@,
                        nb as nat,
                    ),
        {
            let mut local: Vec<R> = filled(zero::<R>(), 8);
            repack_q4k::gemv_group_avx2_plain(b, acts[r], nb, &mut local);
            for j in 0..8usize
                invariant
                    r < mt,
                    mt <= 8,
                    local@.len() == 8,
                    out@.len() == 64,
                    forall|i: int|
                        0 <= i < 8 ==> #[trigger] local@[i] == <Self as TileKernel<R>>::column_dot(
                            b@,
                            i,
                            acts@[r as int]@,
                            nb as nat,
                        ),
                    forall|q: int, i: int|
                        0 <= i < 8 && (0 <= q < r || (q == r && i < j)) ==> out@[#[trigger] tile(q, i)]
                            == <Self as TileKernel<R>>::column_dot(b@, i, acts@[q]@, nb as nat),
            {
                assert(tile(r as int, j as int) == r * 8 + j);
                out[r * 8 + j] = local[j];
            }
        }
    }
}

/// Q6_K columns against tiles of rows.
pub struct Q6kTiles {}

impl<R: Real> TileKernel<R> for Q6kTiles {
    type Block = BlockQ6Kx8;

    type Act = BlockQ8K<R>;

    type Ready = ();

    open spec fn per_group(nb: int) -> int {
        nb
    }

    open spec fn is_ready(ready: (), b: Seq<BlockQ6Kx8>, nb: nat) -> bool {
        true
    }

    open spec fn column_dot(b: Seq<BlockQ6Kx8>, j: int, a: Seq<BlockQ8K<R>>, nb: nat) -> R {
        repack_q6k::folded_column::<R>(rzero::<R>(), repack_q6k::columns_of(b, j), a, nb)
    }

    fn group_len(nb: usize) -> usize {
        nb
    }

    fn ready(b: &[BlockQ6Kx8], nb: usize, m: usize) -> () {
        ()
    }

    fn tile(
        ready: &(),
        b: &[BlockQ6Kx8],
        acts: &[&[BlockQ8K<R>]],
        nb: usize,
        out: &mut [R],
    ) {
        repack_q6k::gemm_group_avx2(b, acts, nb, out);
    }
}

/// Q5_K columns against tiles of rows.
pub struct Q5kTiles {}

impl<R: Real> TileKernel<R> for Q5kTiles {
    type Block = BlockQ5Kx8;

    type Act = BlockQ8K<R>;

    type Ready = ();

    open spec fn per_group(nb: int) -> int {
        nb
    }

    open spec fn is_ready(ready: (), b: Seq<BlockQ5Kx8>, nb: nat) -> bool {
        true
    }

    open spec fn column_dot(b: Seq<BlockQ5Kx8>, j: int, a: Seq<BlockQ8K<R>>, nb: nat) -> R {
        radd(rzero::<R>(), q5k_dot::<R>(repack_q5k::columns_of(b, j), a, nb))
    }

    fn group_len(nb: usize) -> usize {
        nb
    }

    fn ready(b: &[BlockQ5Kx8], nb: usize, m: usize) -> () {
        ()
    }

    fn tile(
        ready: &(),
        b: &[BlockQ5Kx8],
        acts: &[&[BlockQ8K<R>]],
        nb: usize,
        out: &mut [R],
    ) {
        repack_q5k::gemm_group_avx2(b, acts, nb, out);
    }
}

/// Q4_0 columns against tiles of rows.
pub struct Q40Tiles {}

impl<R: Real> TileKernel<R> for Q40Tiles {
    type Block = BlockQ4_0;

    type Act = BlockQ8_0;

    type Ready = ();

    open spec fn per_group(nb: int) -> int {
        nb * 8
    }

    open spec fn is_ready(ready: (), b: Seq<BlockQ4_0>, nb: nat) -> bool {
        true
    }

    open spec fn column_dot(b: Seq<BlockQ4_0>, j: int, a: Seq<BlockQ8_0>, nb: nat) -> R {
        lane_dot::<R, BlockQ4_0, BlockQ8_0>(column(b, nb as int, j), a, nb)
    }

    fn group_len(nb: usize) -> usize {
        nb * 8
    }

    fn ready(b: &[BlockQ4_0], nb: usize, m: usize) -> () {
        ()
    }

    fn tile(
        ready: &(),
        b: &[BlockQ4_0],
        acts: &[&[BlockQ8_0]],
        nb: usize,
        out: &mut [R],
    ) {
        repack_q4_0::gemm_group_avx2(b, acts, nb, out);
    }
}

/// MXFP4 columns against tiles of rows.
pub struct MxFp4Tiles {}

impl<R: Real> TileKernel<R> for MxFp4Tiles {
    type Block = BlockMxFp4;

    type Act = BlockQ8_0;

    type Ready = ();

    open spec fn per_group(nb: int) -> int {
        nb * 8
    }

    open spec fn is_ready(ready: (), b: Seq<BlockMxFp4>, nb: nat) -> bool {
        true
    }

    open spec fn column_dot(b: Seq<BlockMxFp4>, j: int, a: Seq<BlockQ8_0>, nb: nat) -> R {
        lane_dot::<R, BlockMxFp4, BlockQ8_0>(column(b, nb as int, j), a, nb)
    }

    fn group_len(nb: usize) -> usize {
        nb * 8
    }

    fn ready(b: &[BlockMxFp4], nb: usize, m: usize) -> () {
        ()
    }

    fn tile(
        ready: &(),
        b: &[BlockMxFp4],
        acts: &[&[BlockQ8_0]],
        nb: usize,
        out: &mut [R],
    ) {
        repack_mxfp4::gemm_group_avx2(b, acts, nb, out);
    }
}

/// Q5_0 columns against tiles of rows.
pub struct Q50Tiles {}

impl<R: Real> TileKernel<R> for Q50Tiles {
    type Block = BlockQ5_0;

    type Act = BlockQ8_0;

    type Ready = ();

    open spec fn per_group(nb: int) -> int {
        nb * 8
    }

    open spec fn is_ready(ready: (), b: Seq<BlockQ5_0>, nb: nat) -> bool {
        true
    }

    open spec fn column_dot(b: Seq<BlockQ5_0>, j: int, a: Seq<BlockQ8_0>, nb: nat) -> R {
        lane_dot::<R, BlockQ5_0, BlockQ8_0>(column(b, nb as int, j), a, nb)
    }

    fn group_len(nb: usize) -> usize {
        nb * 8
    }

    fn ready(b: &[BlockQ5_0], nb: usize, m: usize) -> () {
        ()
    }

    fn tile(
        ready: &(),
        b: &[BlockQ5_0],
        acts: &[&[BlockQ8_0]],
        nb: usize,
        out: &mut [R],
    ) {
        repack_q5_0::gemm_group_avx2(b, acts, nb, out);
    }
}

/// Q8_0 columns against tiles of rows.
pub struct Q80Tiles {}

impl<R: Real> TileKernel<R> for Q80Tiles {
    type Block = BlockQ8_0;

    type Act = BlockQ8_0;

    type Ready = ();

    open spec fn per_group(nb: int) -> int {
        nb * 8
    }

    open spec fn is_ready(ready: (), b: Seq<BlockQ8_0>, nb: nat) -> bool {
        true
    }

    open spec fn column_dot(b: Seq<BlockQ8_0>, j: int, a: Seq<BlockQ8_0>, nb: nat) -> R {
        lane_dot::<R, BlockQ8_0, BlockQ8_0>(column(b, nb as int, j), a, nb)
    }

    fn group_len(nb: usize) -> usize {
        nb * 8
    }

    fn ready(b: &[BlockQ8_0], nb: usize, m: usize) -> () {
        ()
    }

    fn tile(
        ready: &(),
        b: &[BlockQ8_0],
        acts: &[&[BlockQ8_0]],
        nb: usize,
        out: &mut [R],
    ) {
        repack_q8_0::gemm_group_avx2(b, acts, nb, out);
    }
}

/// Q4_0 columns against one row at a time.
pub struct Q40Rows {}

impl<R: Real> TileKernel<R> for Q40Rows {
    type Block = BlockQ4_0;

    type Act = BlockQ8_0;

    type Ready = ();

    open spec fn per_group(nb: int) -> int {
        nb * 8
    }

    open spec fn is_ready(ready: (), b: Seq<BlockQ4_0>, nb: nat) -> bool {
        true
    }

    open spec fn column_dot(b: Seq<BlockQ4_0>, j: int, a: Seq<BlockQ8_0>, nb: nat) -> R {
        lane_dot::<R, BlockQ4_0, BlockQ8_0>(column(b, nb as int, j), a, nb)
    }

    fn group_len(nb: usize) -> usize {
        nb * 8
    }

    fn ready(b: &[BlockQ4_0], nb: usize, m: usize) -> () {
        ()
    }

    fn tile(
        ready: &(),
        b: &[BlockQ4_0],
        acts: &[&[BlockQ8_0]],
        nb: usize,
        out: &mut [R],
    ) {
        let mt: usize = acts.len();
        for r in 0..mt
            invariant
                lawful::<R>(),
                mt == acts@.len(),
                mt <= 8,
                b@.len() == <Self as TileKernel<R>>::per_group(nb as int),
                forall|q: int| 0 <= q < mt ==> nb == #[trigger] acts@[q]@.len(),
                out@.len() == 64,
                forall|q: int, j: int|
                    0 <= q < r && 0 <= j < 8 ==> out@[#[trigger] tile(q, j)] == <Self as TileKernel<R>>::column_dot(
                        b@,
                        j,
                        acts@[q]@,
                        nb as nat,
                    ),
        {
            let mut local: Vec<R> = filled(zero::<R>(), 8);
            repack_q4_0::gemv_group_avx2(b, acts[r], nb, &mut local);
            for j in 0..8usize
                invariant
                    r < mt,
                    mt <= 8,
                    local@.len() == 8,
                    out@.len() == 64,
                    forall|i: int|
                        0 <= i < 8 ==> #[trigger] local@[i] == <Self as TileKernel<R>>::column_dot(
                            b@,
                            i,
                            acts@[r as int]@,
                            nb as nat,
                        ),
                    forall|q: int, i: int|
                        0 <= i < 8 && (0 <= q < r || (q == r && i < j)) ==> out@[#[trigger] tile(q, i)]
                            == <Self as TileKernel<R>>::column_dot(b@, i, acts@[q]@, nb as nat),
            {
                assert(tile(r as int, j as int) == r * 8 + j);
                out[r * 8 + j] = local[j];
            }
        }
    }
}

// -- the drivers: `[m, k]` values against an interleaved `[n, k]` weight, `shape` = `(m, k, n)` --

/// Q4_K, one row and one group at a time.
pub fn matmul_q4k_repacked<R: Real>(
    shape: (usize, usize, usize),
    lhs: &[R],
    rhs: &[BlockQ4Kx8],
    dst: &mut [R],
) -> (r: Result<(), Error>)
    requires
        lawful::<R>(),
        shape.1 % 256 == 0,
        shape.2 % 8 == 0,
        lhs@.len() == shape.0 * shape.1,
        rhs@.len() == (shape.2 / 8) * (shape.1 / 256),
        old(dst)@.len() == shape.0 * shape.2,
    ensures
        r is Ok,
        packed_product::<R, BlockQ8K<R>, Q4kRows>(
            lhs@,
            rhs@,
            final(dst)@,
            shape.0 as int,
            shape.1 as int,
            shape.2 as int,
        ),
{
    packed_matmul::<R, BlockQ8K<R>, Q4kRows>(shape.0, shape.1, shape.2, lhs, rhs, dst);
    Ok(())
}

/// Q4_K, eight rows to a tile.
pub fn matmul_q4k_repacked_tiled<R: Real>(
    shape: (usize, usize, usize),
    lhs: &[R],
    rhs: &[BlockQ4Kx8],
    dst: &mut [R],
) -> (r: Result<(), Error>)
    requires
        lawful::<R>(),
        shape.1 % 256 == 0,
        shape.2 % 8 == 0,
        lhs@.len() == shape.0 * shape.1,
        rhs@.len() == (shape.2 / 8) * (shape.1 / 256),
        old(dst)@.len() == shape.0 * shape.2,
    ensures
        r is Ok,
        packed_product::<R, BlockQ8K<R>, Q4kTiles>(
            lhs@,
            rhs@,
            final(dst)@,
            shape.0 as int,
            shape.1 as int,
            shape.2 as int,
        ),
{
    packed_matmul::<R, BlockQ8K<R>, Q4kTiles>(shape.0, shape.1, shape.2, lhs, rhs, dst);
    Ok(())
}

/// Q6_K, eight rows to a tile.
pub fn matmul_q6k_repacked_tiled<R: Real>(
    shape: (usize, usize, usize),
    lhs: &[R],
    rhs: &[BlockQ6Kx8],
    dst: &mut [R],
) -> (r: Result<(), Error>)
    requires
        lawful::<R>(),
        shape.1 % 256 == 0,
        shape.2 % 8 == 0,
        lhs@.len() == shape.0 * shape.1,
        rhs@.len() == (shape.2 / 8) * (shape.1 / 256),
        old(dst)@.len() == shape.0 * shape.2,
    ensures
        r is Ok,
        packed_product::<R, BlockQ8K<R>, Q6kTiles>(
            lhs@,
            rhs@,
            final(dst)@,
            shape.0 as int,
            shape.1 as int,
            shape.2 as int,
        ),
{
    packed_matmul::<R, BlockQ8K<R>, Q6kTiles>(shape.0, shape.1, shape.2, lhs, rhs, dst);
    Ok(())
}

/// Q5_K, eight rows to a tile.
pub fn matmul_q5k_repacked_tiled<R: Real>(
    shape: (usize, usize, usize),
    lhs: &[R],
    rhs: &[BlockQ5Kx8],
    dst: &mut [R],
) -> (r: Result<(), Error>)
    requires
        lawful::<R>(),
        shape.1 % 256 == 0,
        shape.2 % 8 == 0,
        lhs@.len() == shape.0 * shape.1,
        rhs@.len() == (shape.2 / 8) * (shape.1 / 256),
        old(dst)@.len() == shape.0 * shape.2,
    ensures
        r is Ok,
        packed_product::<R, BlockQ8K<R>, Q5kTiles>(
            lhs@,
            rhs@,
            final(dst)@,
            shape.0 as int,
            shape.1 as int,
            shape.2 as int,
        ),
{
    packed_matmul::<R, BlockQ8K<R>, Q5kTiles>(shape.0, shape.1, shape.2, lhs, rhs, dst);
    Ok(())
}

/// Q4_0, one row and one group at a time.
pub fn matmul_q4_0_repacked_gemv<R: Real>(
    shape: (usize, usize, usize),
    lhs: &[R],
    rhs: &[BlockQ4_0],
    dst: &mut [R],
) -> (r: Result<(), Error>)
    requires
        lawful::<R>(),
        shape.1 % 32 == 0,
        shape.2 % 8 == 0,
        lhs@.len() == shape.0 * shape.1,
        rhs@.len() == (shape.2 / 8) * ((shape.1 / 32) * 8),
        old(dst)@.len() == shape.0 * shape.2,
    ensures
        r is Ok,
        packed_product::<R, BlockQ8_0, Q40Rows>(
            lhs@,
            rhs@,
            final(dst)@,
            shape.0 as int,
            shape.1 as int,
            shape.2 as int,
        ),
{
    packed_matmul::<R, BlockQ8_0, Q40Rows>(shape.0, shape.1, shape.2, lhs, rhs, dst);
    Ok(())
}

/// Q4_0, eight rows to a tile.
pub fn matmul_q4_0_repacked_tiled<R: Real>(
    shape: (usize, usize, usize),
    lhs: &[R],
    rhs: &[BlockQ4_0],
    dst: &mut [R],
) -> (r: Result<(), Error>)
    requires
        lawful::<R>(),
        shape.1 % 32 == 0,
        shape.2 % 8 == 0,
        lhs@.len() == shape.0 * shape.1,
        rhs@.len() == (shape.2 / 8) * ((shape.1 / 32) * 8),
        old(dst)@.len() == shape.0 * shape.2,
    ensures
        r is Ok,
        packed_product::<R, BlockQ8_0, Q40Tiles>(
            lhs@,
            rhs@,
            final(dst)@,
            shape.0 as int,
            shape.1 as int,
            shape.2 as int,
        ),
{
    packed_matmul::<R, BlockQ8_0, Q40Tiles>(shape.0, shape.1, shape.2, lhs, rhs, dst);
    Ok(())
}

/// MXFP4, eight rows to a tile.
pub fn matmul_mxfp4_repacked_tiled<R: Real>(
    shape: (usize, usize, usize),
    lhs: &[R],
    rhs: &[BlockMxFp4],
    dst: &mut [R],
) -> (r: Result<(), Error>)
    requires
        lawful::<R>(),
        shape.1 % 32 == 0,
        shape.2 % 8 == 0,
        lhs@.len() == shape.0 * shape.1,
        rhs@.len() == (shape.2 / 8) * ((shape.1 / 32) * 8),
        old(dst)@.len() == shape.0 * shape.2,
    ensures
        r is Ok,
        packed_product::<R, BlockQ8_0, MxFp4Tiles>(
            lhs@,
            rhs@,
            final(dst)@,
            shape.0 as int,
            shape.1 as int,
            shape.2 as int,
        ),
{
    packed_matmul::<R, BlockQ8_0, MxFp4Tiles>(shape.0, shape.1, shape.2, lhs, rhs, dst);
    Ok(())
}

/// Q5_0, eight rows to a tile.
pub fn matmul_q5_0_repacked_tiled<R: Real>(
    shape: (usize, usize, usize),
    lhs: &[R],
    rhs: &[BlockQ5_0],
    dst: &mut [R],
) -> (r: Result<(), Error>)
    requires
        lawful::<R>(),
        shape.1 % 32 == 0,
        shape.2 % 8 == 0,
        lhs@.len() == shape.0 * shape.1,
        rhs@.len() == (shape.2 / 8) * ((shape.1 / 32) * 8),
        old(dst)@.len() == shape.0 * shape.2,
    ensures
        r is Ok,
        packed_product::<R, BlockQ8_0, Q50Tiles>(
            lhs@,
            rhs@,
            final(dst)@,
            shape.0 as int,
            shape.1 as int,
            shape.2 as int,
        ),
{
    packed_matmul::<R, BlockQ8_0, Q50Tiles>(shape.0, shape.1, shape.2, lhs, rhs, dst);
    Ok(())
}

/// Q8_0, eight rows to a tile.
pub fn matmul_q8_0_repacked_tiled<R: Real>(
    shape: (usize, usize, usize),
    lhs: &[R],
    rhs: &[BlockQ8_0],
    dst: &mut [R],
) -> (r: Result<(), Error>)
    requires
        lawful::<R>(),
        shape.1 % 32 == 0,
        shape.2 % 8 == 0,
        lhs@.len() == shape.0 * shape.1,
        rhs@.len() == (shape.2 / 8) * ((shape.1 / 32) * 8),
        old(dst)@.len() == shape.0 * shape.2,
    ensures
        r is Ok,
        packed_product::<R, BlockQ8_0, Q80Tiles>(
            lhs@,
            rhs@,
            final(dst)@,
            shape.0 as int,
            shape.1 as int,
            shape.2 as int,
        ),
{
    packed_matmul::<R, BlockQ8_0, Q80Tiles>(shape.0, shape.1, shape.2, lhs, rhs, dst);
    Ok(())
}

/// Quantise an `[m, k]` activation for weights that meet q8_K, once for every projection that
/// reads it.
pub fn quantize_act_q8k<R: Real>(lhs: &[R], m: usize, k: usize) -> (out: Vec<BlockQ8K<R>>)
    requires
        lawful::<R>(),
        k % 256 == 0,
        lhs@.len() == m * k,
    ensures
        quantised::<R, BlockQ8K<R>>(lhs@, out@),
        out@.len() == m * (k / 256),
{
    quantize_rows::<R, BlockQ8K<R>>(lhs, m, k)
}

/// Quantise one activation row of `nb` super-blocks.
pub fn quantize_activation_q8k<R: Real>(x: &[R], nb: usize) -> (out: Vec<BlockQ8K<R>>)
    requires
        lawful::<R>(),
        x@.len() == nb * 256,
    ensures
        quantised::<R, BlockQ8K<R>>(x@, out@),
        out@.len() == nb,
{
    let k: usize = x.len();
    assert(1 * k == k) by (nonlinear_arith);
    quantize_rows::<R, BlockQ8K<R>>(x, 1, k)
}

/// Q4_K tiles against an activation that is quantised already.
pub fn matmul_q4k_repacked_tiled_prequant<R: Real>(
    shape: (usize, usize, usize),
    lhs_b: &[BlockQ8K<R>],
    rhs: &[BlockQ4Kx8],
    dst: &mut [R],
) -> (r: Result<(), Error>)
    requires
        lawful::<R>(),
        shape.1 % 256 == 0,
        shape.2 % 8 == 0,
        lhs_b@.len() == shape.0 * (shape.1 / 256),
        rhs@.len() == (shape.2 / 8) * (shape.1 / 256),
        old(dst)@.len() == shape.0 * shape.2,
    ensures
        r is Ok,
        tiled_product::<R, Q4kTiles>(
            rhs@,
            lhs_b@,
            final(dst)@,
            shape.0 as int,
            shape.2 as int,
            shape.1 as int / 256,
        ),
{
    tiled_matmul::<R, Q4kTiles>(shape.0, shape.2, shape.1 / 256, lhs_b, rhs, dst);
    Ok(())
}

/// One quantised row against a Q4_K weight, for `shape` = `(k, n)`.
pub fn matmul_q4k_plain_pre<R: Real>(
    shape: (usize, usize),
    aq: &[BlockQ8K<R>],
    rhs: &[BlockQ4Kx8],
    dst: &mut [R],
) -> (r: Result<(), Error>)
    requires
        lawful::<R>(),
        shape.0 % 256 == 0,
        shape.1 % 8 == 0,
        aq@.len() == shape.0 / 256,
        rhs@.len() == (shape.1 / 8) * (shape.0 / 256),
        old(dst)@.len() == shape.1,
    ensures
        r is Ok,
        tiled_product::<R, Q4kPlainRows>(
            rhs@,
            aq@,
            final(dst)@,
            1,
            shape.1 as int,
            shape.0 as int / 256,
        ),
{
    tiled_matmul::<R, Q4kPlainRows>(1, shape.1, shape.0 / 256, aq, rhs, dst);
    Ok(())
}

/// What [`matmul_q4k_plain`] computes: the single-row product for one row, the tiled one for more.
pub open spec fn plain_product<R: Real>(
    lhs: Seq<R>,
    b: Seq<BlockQ4Kx8>,
    dst: Seq<R>,
    m: int,
    k: int,
    n: int,
) -> bool {
    if m >= 2 {
        packed_product::<R, BlockQ8K<R>, Q4kTiles>(lhs, b, dst, m, k, n)
    } else {
        packed_product::<R, BlockQ8K<R>, Q4kPlainRows>(lhs, b, dst, m, k, n)
    }
}

/// Q4_K for any number of rows: one row takes the single-row kernel, more take tiles.
pub fn matmul_q4k_plain<R: Real>(
    shape: (usize, usize, usize),
    lhs: &[R],
    rhs: &[BlockQ4Kx8],
    dst: &mut [R],
) -> (r: Result<(), Error>)
    requires
        lawful::<R>(),
        1 <= shape.0,
        shape.1 % 256 == 0,
        shape.2 % 8 == 0,
        lhs@.len() == shape.0 * shape.1,
        rhs@.len() == (shape.2 / 8) * (shape.1 / 256),
        old(dst)@.len() == shape.0 * shape.2,
    ensures
        r is Ok,
        plain_product(
            lhs@,
            rhs@,
            final(dst)@,
            shape.0 as int,
            shape.1 as int,
            shape.2 as int,
        ),
{
    let (m, k, n) = shape;
    if m >= 2 {
        return matmul_q4k_repacked_tiled(shape, lhs, rhs, dst);
    }
    packed_matmul::<R, BlockQ8K<R>, Q4kPlainRows>(m, k, n, lhs, rhs, dst);
    Ok(())
}

// -- four rows by eight columns --

/// `dst` is `lhs`, quantised and interleaved, against interleaved weights.
pub open spec fn x8_product<R: Real, B: Octet<R>>(
    lhs: Seq<R>,
    b: Seq<B>,
    dst: Seq<R>,
    m: int,
    k: int,
    n: int,
) -> bool {
    exists|acts: Seq<BlockQ8_0x4>| #[trigger]
        act_tiles(lhs, acts, m, k) && dst.len() == m * n && (forall|row: int, col: int|
            0 <= row < m && 0 <= col < n ==> dst[#[trigger] cell(n, row, col)] == fused_cell::<R, B>(
                b,
                acts,
                k / 32,
                row,
                col,
            ))
}

/// MXFP4 interleaved eight columns to a block.
pub fn matmul_mxfp4_x8_tiled<R: Real>(
    shape: (usize, usize, usize),
    lhs: &[R],
    rhs: &[BlockMxFp4x8],
    dst: &mut [R],
) -> (r: Result<(), Error>)
    requires
        lawful::<R>(),
        shape.1 % 32 == 0,
        shape.2 % 8 == 0,
        shape.0 + 3 <= usize::MAX,
        lhs@.len() == shape.0 * shape.1,
        rhs@.len() == (shape.2 / 8) * (shape.1 / 32),
        old(dst)@.len() == shape.0 * shape.2,
    ensures
        r is Ok,
        x8_product::<R, BlockMxFp4x8>(
            lhs@,
            rhs@,
            final(dst)@,
            shape.0 as int,
            shape.1 as int,
            shape.2 as int,
        ),
{
    let (m, k, n) = shape;
    let acts = quantize_act(lhs, m, k);
    fused_matmul::<R, BlockMxFp4x8>(m, n, k / 32, &acts, rhs, dst);
    assert(act_tiles(lhs@, acts@, m as int, k as int));
    Ok(())
}

/// Q8_0 interleaved eight columns to a block.
pub fn matmul_q8_0_x8_tiled<R: Real>(
    shape: (usize, usize, usize),
    lhs: &[R],
    rhs: &[BlockQ8_0x8],
    dst: &mut [R],
) -> (r: Result<(), Error>)
    requires
        lawful::<R>(),
        shape.1 % 32 == 0,
        shape.2 % 8 == 0,
        shape.0 + 3 <= usize::MAX,
        lhs@.len() == shape.0 * shape.1,
        rhs@.len() == (shape.2 / 8) * (shape.1 / 32),
        old(dst)@.len() == shape.0 * shape.2,
    ensures
        r is Ok,
        x8_product::<R, BlockQ8_0x8>(
            lhs@,
            rhs@,
            final(dst)@,
            shape.0 as int,
            shape.1 as int,
            shape.2 as int,
        ),
{
    let (m, k, n) = shape;
    let acts = quantize_act(lhs, m, k);
    fused_matmul::<R, BlockQ8_0x8>(m, n, k / 32, &acts, rhs, dst);
    assert(act_tiles(lhs@, acts@, m as int, k as int));
    Ok(())
}

// -- interleaving changes no cell --

/// Row or group `r` is a span.
proof fn lemma_span_is_blocks<T>(b: Seq<T>, r: int, nb: int)
    requires
        0 <= r,
        0 <= nb,
        (r + 1) * nb <= b.len(),
    ensures
        span(b, r, nb) == blocks_of(b, r, nb),
{
    assert(r * nb + nb == (r + 1) * nb && 0 <= r * nb) by (nonlinear_arith)
        requires
            0 <= r,
            0 <= nb,
    ;
    assert(span(b, r, nb) =~= blocks_of(b, r, nb));
}

/// The spans of a matrix lie inside it.
pub(crate) proof fn lemma_span_fits(n: int, nb: int, col: int)
    requires
        0 <= nb,
        0 <= col < n,
    ensures
        (col + 1) * nb <= n * nb,
        n % 8 == 0 ==> (col / 8 + 1) * nb <= (n / 8) * nb && (col / 8 + 1) * (nb * 8) <= n * nb,
{
    assert((col + 1) * nb <= n * nb) by (nonlinear_arith)
        requires
            col + 1 <= n,
            0 <= nb,
    ;
    if n % 8 == 0 {
        let g = col / 8;
        let h = n / 8;
        assert(g + 1 <= h);
        assert((g + 1) * nb <= h * nb) by (nonlinear_arith)
            requires
                g + 1 <= h,
                0 <= nb,
        ;
        assert((g + 1) * (nb * 8) <= n * nb) by (nonlinear_arith)
            requires
                8 * (g + 1) <= n,
                0 <= nb,
        ;
    }
}

/// Column `col` of a grouped matrix is row `col` of the matrix it was grouped from.
pub proof fn grouped_column_is_a_row<T>(raw: Seq<T>, b: Seq<T>, n: int, nb: int, col: int)
    requires
        grouped(raw, b, n, nb),
        raw.len() == n * nb,
        n % 8 == 0,
        0 <= nb,
        0 <= col < n,
    ensures
        column(span(b, col / 8, nb * 8), nb, col % 8) == span(raw, col, nb),
{
    let g = col / 8;
    let j = col % 8;
    lemma_span_fits(n, nb, col);
    assert(g * (nb * 8) + nb * 8 == (g + 1) * (nb * 8) && 0 <= g * (nb * 8) && g * (nb * 8) == g
        * nb * 8) by (nonlinear_arith)
        requires
            0 <= g,
            0 <= nb,
    ;
    assert(col * nb + nb == (col + 1) * nb && 0 <= col * nb) by (nonlinear_arith)
        requires
            0 <= col,
            0 <= nb,
    ;
    assert((g + 1) * nb * 8 == (g + 1) * (nb * 8)) by (nonlinear_arith);
    grouped_columns_are_rows(raw, b, n, nb, g, j);
    assert(g * 8 + j == col);
}

/// Grouping changes no cell: every cell of the tiled product is the product the format has for its
/// row and column.
pub proof fn tiled_q4_0_is_dense<R: Real>(
    raw: Seq<BlockQ4_0>,
    b: Seq<BlockQ4_0>,
    acts: Seq<BlockQ8_0>,
    m: int,
    n: int,
    nb: int,
    row: int,
    col: int,
)
    requires
        grouped(raw, b, n, nb),
        raw.len() == n * nb,
        acts.len() == m * nb,
        n % 8 == 0,
        0 <= nb,
        0 <= row < m,
        0 <= col < n,
    ensures
        tiled_cell::<R, Q40Tiles>(b, acts, nb, row, col) == dense_cell::<R, BlockQ4_0>(
            raw,
            acts,
            nb,
            row,
            col,
        ),
{
    grouped_column_is_a_row(raw, b, n, nb, col);
    lemma_span_fits(n, nb, col);
    lemma_span_fits(m, nb, row);
    lemma_span_is_blocks(raw, col, nb);
    lemma_span_is_blocks(acts, row, nb);
}

/// Grouping changes no cell: every cell of the tiled product is the product the format has for its
/// row and column.
pub proof fn tiled_mxfp4_is_dense<R: Real>(
    raw: Seq<BlockMxFp4>,
    b: Seq<BlockMxFp4>,
    acts: Seq<BlockQ8_0>,
    m: int,
    n: int,
    nb: int,
    row: int,
    col: int,
)
    requires
        grouped(raw, b, n, nb),
        raw.len() == n * nb,
        acts.len() == m * nb,
        n % 8 == 0,
        0 <= nb,
        0 <= row < m,
        0 <= col < n,
    ensures
        tiled_cell::<R, MxFp4Tiles>(b, acts, nb, row, col) == dense_cell::<R, BlockMxFp4>(
            raw,
            acts,
            nb,
            row,
            col,
        ),
{
    grouped_column_is_a_row(raw, b, n, nb, col);
    lemma_span_fits(n, nb, col);
    lemma_span_fits(m, nb, row);
    lemma_span_is_blocks(raw, col, nb);
    lemma_span_is_blocks(acts, row, nb);
}

/// Grouping changes no cell: every cell of the tiled product is the product the format has for its
/// row and column.
pub proof fn tiled_q5_0_is_dense<R: Real>(
    raw: Seq<BlockQ5_0>,
    b: Seq<BlockQ5_0>,
    acts: Seq<BlockQ8_0>,
    m: int,
    n: int,
    nb: int,
    row: int,
    col: int,
)
    requires
        grouped(raw, b, n, nb),
        raw.len() == n * nb,
        acts.len() == m * nb,
        n % 8 == 0,
        0 <= nb,
        0 <= row < m,
        0 <= col < n,
    ensures
        tiled_cell::<R, Q50Tiles>(b, acts, nb, row, col) == dense_cell::<R, BlockQ5_0>(
            raw,
            acts,
            nb,
            row,
            col,
        ),
{
    grouped_column_is_a_row(raw, b, n, nb, col);
    lemma_span_fits(n, nb, col);
    lemma_span_fits(m, nb, row);
    lemma_span_is_blocks(raw, col, nb);
    lemma_span_is_blocks(acts, row, nb);
}

/// Grouping changes no cell: every cell of the tiled product is the product the format has for its
/// row and column.
pub proof fn tiled_q8_0_is_dense<R: Real>(
    raw: Seq<BlockQ8_0>,
    b: Seq<BlockQ8_0>,
    acts: Seq<BlockQ8_0>,
    m: int,
    n: int,
    nb: int,
    row: int,
    col: int,
)
    requires
        grouped(raw, b, n, nb),
        raw.len() == n * nb,
        acts.len() == m * nb,
        n % 8 == 0,
        0 <= nb,
        0 <= row < m,
        0 <= col < n,
    ensures
        tiled_cell::<R, Q80Tiles>(b, acts, nb, row, col) == dense_cell::<R, BlockQ8_0>(
            raw,
            acts,
            nb,
            row,
            col,
        ),
{
    grouped_column_is_a_row(raw, b, n, nb, col);
    lemma_span_fits(n, nb, col);
    lemma_span_fits(m, nb, row);
    lemma_span_is_blocks(raw, col, nb);
    lemma_span_is_blocks(acts, row, nb);
}

/// Every cell of the tiled q5_K product is the product the format has for its row and column,
/// added to the zero the tile starts from.
pub proof fn tiled_q5k_is_dense<R: Real>(
    raw: Seq<BlockQ5K>,
    b: Seq<BlockQ5Kx8>,
    acts: Seq<BlockQ8K<R>>,
    m: int,
    n: int,
    nb: int,
    row: int,
    col: int,
)
    requires
        interleaved::<repack_q5k::Spans>(raw, b, n, nb),
        raw.len() == n * nb,
        acts.len() == m * nb,
        n % 8 == 0,
        0 <= nb,
        0 <= row < m,
        0 <= col < n,
    ensures
        tiled_cell::<R, Q5kTiles>(b, acts, nb, row, col) == radd(
            rzero::<R>(),
            dense_cell::<R, BlockQ5K>(raw, acts, nb, row, col),
        ),
{
    lemma_span_fits(n, nb, col);
    lemma_span_fits(m, nb, row);
    lemma_span_is_blocks(raw, col, nb);
    lemma_span_is_blocks(acts, row, nb);
    lemma_span_is_blocks(b, col / 8, nb);
    repack_q5k::interleaved_columns_are_rows(raw, b, n, nb, col / 8, col % 8);
    assert(tile(col / 8, col % 8) == col);
}

/// Every cell of the tiled q6_K product is the plain product of its row and column, wherever the
/// activations hold their own sums.
pub proof fn tiled_q6k_is_plain<R: Real>(
    raw: Seq<BlockQ6K>,
    b: Seq<BlockQ6Kx8>,
    acts: Seq<BlockQ8K<R>>,
    m: int,
    n: int,
    nb: int,
    row: int,
    col: int,
)
    requires
        interleaved::<repack_q6k::Spans>(raw, b, n, nb),
        raw.len() == n * nb,
        acts.len() == m * nb,
        n % 8 == 0,
        0 <= nb,
        0 <= row < m,
        0 <= col < n,
        forall|i: int| 0 <= i < acts.len() ==> bsums_hold((#[trigger] acts[i]).qs@, acts[i].bsums@),
    ensures
        tiled_cell::<R, Q6kTiles>(b, acts, nb, row, col) == repack_q6k::plain_column::<R>(
            span(raw, col, nb),
            span(acts, row, nb),
            nb as nat,
        ),
{
    lemma_span_fits(n, nb, col);
    lemma_span_fits(m, nb, row);
    lemma_span_is_blocks(raw, col, nb);
    lemma_span_is_blocks(b, col / 8, nb);
    repack_q6k::interleaved_columns_are_rows(raw, b, n, nb, col / 8, col % 8);
    assert(tile(col / 8, col % 8) == col);
    let ys = span(acts, row, nb);
    assert(row * nb + nb == (row + 1) * nb && 0 <= row * nb) by (nonlinear_arith)
        requires
            0 <= row,
            0 <= nb,
    ;
    assert forall|l: int| 0 <= l < nb implies bsums_hold((#[trigger] ys[l]).qs@, ys[l].bsums@) by {
        assert(ys[l] == acts[row * nb + l]);
    }
    repack_q6k::folded_column_is_plain::<R>(span(raw, col, nb), ys, nb as nat);
}

/// Every cell of the tiled q4_K product is what the tiled kernel computes of the row it came from.
pub proof fn tiled_q4k_reads_the_rows<R: Real>(
    raw: Seq<BlockQ4K>,
    b: Seq<BlockQ4Kx8>,
    acts: Seq<BlockQ8K<R>>,
    m: int,
    n: int,
    nb: int,
    row: int,
    col: int,
)
    requires
        interleaved::<repack_q4k::Plain>(raw, b, n, nb),
        raw.len() == n * nb,
        acts.len() == m * nb,
        n % 8 == 0,
        0 <= nb,
        0 <= row < m,
        0 <= col < n,
    ensures
        tiled_cell::<R, Q4kTiles>(b, acts, nb, row, col) == tiled_dot::<R, BlockQ4K>(
            span(raw, col, nb),
            span(acts, row, nb),
            nb as nat,
        ),
{
    lemma_span_fits(n, nb, col);
    lemma_span_is_blocks(raw, col, nb);
    lemma_span_is_blocks(b, col / 8, nb);
    repack_q4k::interleaved_columns_are_rows::<R>(raw, b, n, nb, col / 8, col % 8);
    assert(tile(col / 8, col % 8) == col);
    tiled_dot_reads_the_column::<R, Column, BlockQ4K>(
        repack_q4k::columns_of(blocks_of(b, col / 8, nb), col % 8),
        blocks_of(raw, col, nb),
        span(acts, row, nb),
        nb as nat,
    );
}

} // verus!
