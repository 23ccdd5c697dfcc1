//! Whole products over interleaved weights, where the kernel rounds in other places than the rows'
//! own: every cell is the number the rows give.
use vstd::prelude::*;
use crate::agree::{lemma_at, quantised_once};
use crate::arith::{Real, rhalf, rmul, rround};
use crate::blocks::{BlockFormat, Quantized, run};
use crate::coded::{Codes32, Scaled, cell, lane_dot, scaled_value, tile};
use crate::drivers::{
    Q4kTiles, Q5kTiles, Q6kTiles, lemma_span_fits, packed_product, tiled_q4k_reads_the_rows,
    tiled_q5k_is_dense, tiled_q6k_is_plain, x8_product,
};
use crate::exact::block32::{all_bytes32, bytes32, lanes_are_the_values, values_dot};
use crate::exact::columns::{q4k_columns_are_rows, q6k_columns_are_rows};
use crate::exact::numbers::{exact, lemma_rsum_eq};
use crate::exact::superblock::q6k_kernel_is_plain;
use crate::exact::tiles::{column_bytes, tile_values, tiles_are_the_values};
use crate::format::mxfp4::BlockMxFp4;
use crate::format::q4_k::BlockQ4K;
use crate::format::q5_k::BlockQ5K;
use crate::format::q6_k::BlockQ6K;
use crate::format::q8_0::{BlockQ8_0, byte_code, byte_scale};
use crate::format::q8_k::{BlockQ8K, bsums_hold, encoded_bsums_hold};
use crate::kgroup::{Gather, interleaved};
use crate::matmul::{dense_cell, dense_cells, dense_product};
use crate::repack_mxfp4_x8;
use crate::repack_mxfp4_x8::BlockMxFp4x8;
use crate::repack_q4k;
use crate::repack_q4k::BlockQ4Kx8;
use crate::repack_q5k;
use crate::repack_q5k::BlockQ5Kx8;
use crate::repack_q6k;
use crate::repack_q6k::BlockQ6Kx8;
use crate::repack_q8_0_x8;
use crate::repack_q8_0_x8::BlockQ8_0x8;
use crate::scale::reciprocal_of;
use crate::tile4x8::{
    BlockQ8_0x4, Octet, act_code, act_run, act_tiles, fused_cell, narrow_code, row_encodes,
    row_holds, tile_chain, tile_row,
};
use crate::tiled::{TileKernel, quantised, span, tiled_cell, tiled_product};

verus! {

// -- super-blocks --

/// A run of super-blocks covers its rows.
proof fn lemma_rows_covered<R: Real>(lhs: Seq<R>, acts: Seq<BlockQ8K<R>>, m: int, k: int)
    requires
        quantised::<R, BlockQ8K<R>>(lhs, acts),
        lhs.len() == m * k,
        k % 256 == 0,
    ensures
        acts.len() == m * (k / 256),
{
    let (len, kb) = (acts.len() as int, k / 256);
    assert(k == 256 * kb);
    assert(len == m * kb) by (nonlinear_arith)
        requires
            len * 256 == m * k,
            k == 256 * kb,
    ;
}

/// A tiled product and a product of rows over the same activation, cell by cell.
spec fn cells_agree<R: Real, T: BlockFormat<R>, K: TileKernel<R, Act = T::ActivationBlock>>(
    val: spec_fn(R) -> real,
    raw: Seq<T>,
    b: Seq<K::Block>,
    acts: Seq<T::ActivationBlock>,
    m: int,
    n: int,
    nb: int,
) -> bool {
    forall|row: int, col: int|
        0 <= row < m && 0 <= col < n ==> val(
            #[trigger] tiled_cell::<R, K>(b, acts, nb, row, col),
        ) == val(dense_cell::<R, T>(raw, acts, nb, row, col))
}

/// Cells that agree make products that agree.
proof fn lemma_cells<R: Real, T: BlockFormat<R>, K: TileKernel<R, Act = T::ActivationBlock>>(
    val: spec_fn(R) -> real,
    raw: Seq<T>,
    b: Seq<K::Block>,
    acts: Seq<T::ActivationBlock>,
    dst: Seq<R>,
    want: Seq<R>,
    m: int,
    n: int,
    nb: int,
)
    requires
        0 <= m,
        0 <= n,
        cells_agree::<R, T, K>(val, raw, b, acts, m, n, nb),
        tiled_product::<R, K>(b, acts, dst, m, n, nb),
        dense_cells::<R, T>(raw, acts, want, m, n, nb),
    ensures
        forall|i: int| 0 <= i < m * n ==> val(#[trigger] dst[i]) == val(want[i]),
{
    assert forall|i: int| 0 <= i < m * n implies val(#[trigger] dst[i]) == val(want[i]) by {
        lemma_at(m, n, i);
        let (row, col) = (i / n, i % n);
        assert(dst[cell(n, row, col)] == tiled_cell::<R, K>(b, acts, nb, row, col));
        assert(want[cell(n, row, col)] == dense_cell::<R, T>(raw, acts, nb, row, col));
    }
}

/// q4_K: the product over interleaved weights is, as numbers, the product over their rows.
pub proof fn q4k_tiles_give_the_product<R: Real>(
    val: spec_fn(R) -> real,
    lhs: Seq<R>,
    raw: Seq<BlockQ4K>,
    b: Seq<BlockQ4Kx8>,
    dst: Seq<R>,
    want: Seq<R>,
    m: int,
    k: int,
    n: int,
)
    requires
        exact(val),
        0 <= m,
        0 <= k,
        0 <= n,
        n % 8 == 0,
        k % 256 == 0,
        lhs.len() == m * k,
        raw.len() == n * (k / 256),
        interleaved::<repack_q4k::Plain>(raw, b, n, k / 256),
        packed_product::<R, BlockQ8K<R>, Q4kTiles>(lhs, b, dst, m, k, n),
        dense_product::<R, BlockQ4K>(lhs, raw, want, m, k, n),
    ensures
        forall|i: int| 0 <= i < m * n ==> val(#[trigger] dst[i]) == val(want[i]),
{
    let nb = k / 256;
    let p = choose|a: Seq<BlockQ8K<R>>| #[trigger]
        quantised::<R, BlockQ8K<R>>(lhs, a) && tiled_product::<R, Q4kTiles>(b, a, dst, m, n, nb);
    let q = choose|a: Seq<BlockQ8K<R>>| #[trigger]
        quantised::<R, BlockQ8K<R>>(lhs, a) && dense_cells::<R, BlockQ4K>(raw, a, want, m, n, nb);
    quantised_once::<R, BlockQ4K>(lhs, p, q);
    lemma_rows_covered(lhs, p, m, k);
    assert forall|row: int, col: int| 0 <= row < m && 0 <= col < n implies val(
        #[trigger] tiled_cell::<R, Q4kTiles>(b, p, nb, row, col),
    ) == val(dense_cell::<R, BlockQ4K>(raw, p, nb, row, col)) by {
        tiled_q4k_reads_the_rows::<R>(raw, b, p, m, n, nb, row, col);
        lemma_spans(raw, p, m, n, nb, row, col);
        q4k_columns_are_rows::<R>(val, span(raw, col, nb), span(p, row, nb));
    }
    assert(cells_agree::<R, BlockQ4K, Q4kTiles>(val, raw, b, p, m, n, nb));
    lemma_cells::<R, BlockQ4K, Q4kTiles>(val, raw, b, p, dst, want, m, n, nb);
}

/// A row and a column of a product are as long as each other.
proof fn lemma_spans<X, Y>(raw: Seq<X>, acts: Seq<Y>, m: int, n: int, nb: int, row: int, col: int)
    requires
        0 <= nb,
        0 <= row < m,
        0 <= col < n,
        raw.len() == n * nb,
        acts.len() == m * nb,
    ensures
        span(raw, col, nb).len() == nb,
        span(acts, row, nb).len() == nb,
        0 <= row * nb && row * nb + nb <= acts.len(),
        0 <= col * nb && col * nb + nb <= raw.len(),
{
    lemma_span_fits(n, nb, col);
    lemma_span_fits(m, nb, row);
    assert(row * nb + nb == (row + 1) * nb && 0 <= row * nb) by (nonlinear_arith)
        requires
            0 <= row,
            0 <= nb,
    ;
    assert(col * nb + nb == (col + 1) * nb && 0 <= col * nb) by (nonlinear_arith)
        requires
            0 <= col,
            0 <= nb,
    ;
}

/// q5_K: the product over interleaved weights is, as numbers, the product over their rows.
pub proof fn q5k_tiles_give_the_product<R: Real>(
    val: spec_fn(R) -> real,
    lhs: Seq<R>,
    raw: Seq<BlockQ5K>,
    b: Seq<BlockQ5Kx8>,
    dst: Seq<R>,
    want: Seq<R>,
    m: int,
    k: int,
    n: int,
)
    requires
        exact(val),
        0 <= m,
        0 <= k,
        0 <= n,
        n % 8 == 0,
        k % 256 == 0,
        lhs.len() == m * k,
        raw.len() == n * (k / 256),
        interleaved::<repack_q5k::Spans>(raw, b, n, k / 256),
        packed_product::<R, BlockQ8K<R>, Q5kTiles>(lhs, b, dst, m, k, n),
        dense_product::<R, BlockQ5K>(lhs, raw, want, m, k, n),
    ensures
        forall|i: int| 0 <= i < m * n ==> val(#[trigger] dst[i]) == val(want[i]),
{
    let nb = k / 256;
    let p = choose|a: Seq<BlockQ8K<R>>| #[trigger]
        quantised::<R, BlockQ8K<R>>(lhs, a) && tiled_product::<R, Q5kTiles>(b, a, dst, m, n, nb);
    let q = choose|a: Seq<BlockQ8K<R>>| #[trigger]
        quantised::<R, BlockQ8K<R>>(lhs, a) && dense_cells::<R, BlockQ5K>(raw, a, want, m, n, nb);
    quantised_once::<R, BlockQ5K>(lhs, p, q);
    lemma_rows_covered(lhs, p, m, k);
    assert forall|row: int, col: int| 0 <= row < m && 0 <= col < n implies val(
        #[trigger] tiled_cell::<R, Q5kTiles>(b, p, nb, row, col),
    ) == val(dense_cell::<R, BlockQ5K>(raw, p, nb, row, col)) by {
        tiled_q5k_is_dense::<R>(raw, b, p, m, n, nb, row, col);
    }
    assert(cells_agree::<R, BlockQ5K, Q5kTiles>(val, raw, b, p, m, n, nb));
    lemma_cells::<R, BlockQ5K, Q5kTiles>(val, raw, b, p, dst, want, m, n, nb);
}

/// q6_K: the product over interleaved weights is, as numbers, the product over their rows.
pub proof fn q6k_tiles_give_the_product<R: Real>(
    val: spec_fn(R) -> real,
    lhs: Seq<R>,
    raw: Seq<BlockQ6K>,
    b: Seq<BlockQ6Kx8>,
    dst: Seq<R>,
    want: Seq<R>,
    m: int,
    k: int,
    n: int,
)
    requires
        exact(val),
        0 <= m,
        0 <= k,
        0 <= n,
        n % 8 == 0,
        k % 256 == 0,
        lhs.len() == m * k,
        raw.len() == n * (k / 256),
        interleaved::<repack_q6k::Spans>(raw, b, n, k / 256),
        packed_product::<R, BlockQ8K<R>, Q6kTiles>(lhs, b, dst, m, k, n),
        dense_product::<R, BlockQ6K>(lhs, raw, want, m, k, n),
    ensures
        forall|i: int| 0 <= i < m * n ==> val(#[trigger] dst[i]) == val(want[i]),
{
    let nb = k / 256;
    let p = choose|a: Seq<BlockQ8K<R>>| #[trigger]
        quantised::<R, BlockQ8K<R>>(lhs, a) && tiled_product::<R, Q6kTiles>(b, a, dst, m, n, nb);
    let q = choose|a: Seq<BlockQ8K<R>>| #[trigger]
        quantised::<R, BlockQ8K<R>>(lhs, a) && dense_cells::<R, BlockQ6K>(raw, a, want, m, n, nb);
    quantised_once::<R, BlockQ6K>(lhs, p, q);
    lemma_rows_covered(lhs, p, m, k);
    assert forall|i: int| 0 <= i < p.len() implies bsums_hold((#[trigger] p[i]).qs@, p[i].bsums@) by {
        encoded_bsums_hold(run(lhs, i, 256), p[i]);
    }
    assert forall|row: int, col: int| 0 <= row < m && 0 <= col < n implies val(
        #[trigger] tiled_cell::<R, Q6kTiles>(b, p, nb, row, col),
    ) == val(dense_cell::<R, BlockQ6K>(raw, p, nb, row, col)) by {
        tiled_q6k_is_plain::<R>(raw, b, p, m, n, nb, row, col);
        lemma_spans(raw, p, m, n, nb, row, col);
        let (xs, ys) = (span(raw, col, nb), span(p, row, nb));
        assert forall|l: int| 0 <= l < ys.len() implies bsums_hold(
            (#[trigger] ys[l]).qs@,
            ys[l].bsums@,
        ) by {
            assert(ys[l] == p[row * nb + l]);
        }
        q6k_columns_are_rows::<R>(val, xs, ys);
        q6k_kernel_is_plain::<R>(val, xs, ys);
    }
    assert(cells_agree::<R, BlockQ6K, Q6kTiles>(val, raw, b, p, m, n, nb));
    lemma_cells::<R, BlockQ6K, Q6kTiles>(val, raw, b, p, dst, want, m, n, nb);
}

// -- eight columns to a block --

/// A column of interleaved blocks and a row of an interleaved activation hold what two runs hold.
spec fn cell_holds<R: Real, B: Octet<R>, X: Scaled<R>>(
    b: B,
    j: int,
    x: X,
    a: BlockQ8_0x4,
    t: int,
    y: BlockQ8_0,
) -> bool {
    &&& forall|e: int| 0 <= e < 32 ==> #[trigger] b.weight_of(j, e) == x.code_of(e)
    &&& b.scale_at(j) == x.scale_of()
    &&& forall|e: int| 0 <= e < 32 ==> #[trigger] act_code(a, t, e) == y.code_of(e)
    &&& a.d@[t] == y.d
}

/// What a tile and a pair of blocks hold multiplies to one number.
proof fn lemma_cell_values<R: Real, B: Octet<R>, X: Scaled<R>>(
    val: spec_fn(R) -> real,
    b: B,
    j: int,
    x: X,
    a: BlockQ8_0x4,
    t: int,
    y: BlockQ8_0,
)
    requires
        exact(val),
        bytes32(x),
        cell_holds::<R, B, X>(b, j, x, a, t, y),
    ensures
        tile_values::<R, B>(val, b, j, a, t) == values_dot::<R, X, BlockQ8_0>(val, x, y),
{
    let (dx, dy) = (val(x.scale_of()), val(rhalf::<R>(y.d)));
    let f = |e: int|
        (val(b.scale_at(j)) * (b.weight_of(j, e) as real)) * (val(rhalf::<R>(a.d@[t])) * (act_code(
            a,
            t,
            e,
        ) as real));
    let g = |e: int| val(scaled_value(x, e)) * val(scaled_value::<R, BlockQ8_0>(y, e));
    assert forall|e: int| 0 <= e < 32 implies #[trigger] f(e) == g(e) by {
        assert(b.weight_of(j, e) == x.code_of(e));
        assert(act_code(a, t, e) == y.code_of(e));
        assert(-128 <= x.code_of(e) <= 127);
        let (p, q) = (x.code_of(e) as real, y.code_of(e) as real);
        assert(val(scaled_value(x, e)) == p * dx);
        assert(val(scaled_value::<R, BlockQ8_0>(y, e)) == q * dy);
        assert(dx * p == p * dx) by (nonlinear_arith);
        assert(dy * q == q * dy) by (nonlinear_arith);
    }
    lemma_rsum_eq(32, f, g);
}

/// No value of an activation rounds past the lowest code of the symmetric range.
pub open spec fn symmetric<R: Real>(lhs: Seq<R>, m: int, k: int) -> bool {
    forall|row: int, l: int, e: int|
        0 <= row < m && 0 <= l < k / 32 && 0 <= e < 32 ==> -127 <= rround(
            rmul(
                #[trigger] act_run(lhs, k, row, l)[e],
                reciprocal_of(byte_scale(act_run(lhs, k, row, l))),
            ),
        )
}

/// A row of an interleaved activation holds the codes its blocks would hold.
proof fn lemma_act_row<R: Real>(
    lhs: Seq<R>,
    acts: Seq<BlockQ8_0x4>,
    ys: Seq<BlockQ8_0>,
    m: int,
    k: int,
    row: int,
    l: int,
)
    requires
        symmetric(lhs, m, k),
        k % 32 == 0,
        0 <= k,
        lhs.len() == m * k,
        act_tiles(lhs, acts, m, k),
        quantised::<R, BlockQ8_0>(lhs, ys),
        0 <= row < m,
        0 <= l < k / 32,
    ensures
        ys.len() == m * (k / 32),
        0 <= row * (k / 32) + l < ys.len(),
        ({
            let a = acts[cell(k / 32, row / 4, l)];
            let y = ys[row * (k / 32) + l];
            &&& forall|e: int| 0 <= e < 32 ==> #[trigger] act_code(a, row % 4, e) == y.code_of(e)
            &&& a.d@[row % 4] == y.d
        }),
{
    let nb = k / 32;
    assert(k == 32 * nb);
    let len = ys.len() as int;
    assert(len == m * nb) by (nonlinear_arith)
        requires
            len * 32 == m * k,
            k == 32 * nb,
    ;
    let i = row * nb + l;
    assert(0 <= i < m * nb) by (nonlinear_arith)
        requires
            i == row * nb + l,
            0 <= row,
            row + 1 <= m,
            0 <= l < nb,
    ;
    let (g, t) = (row / 4, row % 4);
    let a = acts[cell(nb, g, l)];
    assert(row_holds(acts[cell(k / 32, g, l)], lhs, m, k, g, l, t));
    assert(tile_row(g, t) == row);
    let x = act_run(lhs, k, row, l);
    assert(row_encodes(a, t, x));
    let z = run(lhs, i, 32);
    assert(i * 32 == row * k + l * 32) by (nonlinear_arith)
        requires
            i == row * nb + l,
            k == 32 * nb,
    ;
    assert(z =~= x);
    assert(<BlockQ8_0 as Quantized<R>>::encodes(z, ys[i]));
    assert(i * 32 + 32 <= lhs.len() && 0 <= i * 32) by (nonlinear_arith)
        requires
            0 <= i,
            i + 1 <= len,
            lhs.len() == len * 32,
    ;
    assert forall|e: int| 0 <= e < 32 implies #[trigger] act_code(a, t, e) == ys[i].code_of(e) by {
        let inv = reciprocal_of(byte_scale(x));
        assert(-127 <= rround(rmul(act_run(lhs, k, row, l)[e], inv)));
        assert(act_code(a, t, e) == narrow_code(x[e], inv));
        assert(ys[i].qs@[e] == byte_code(x[e], inv));
    }
}

/// Cells that hold what the rows hold come to what the rows come to.
proof fn lemma_fused<R: Real, B: Octet<R>, X: Scaled<R>>(
    val: spec_fn(R) -> real,
    bs: Seq<B>,
    acts: Seq<BlockQ8_0x4>,
    xs: Seq<X>,
    ys: Seq<BlockQ8_0>,
    nb: nat,
    t: int,
    j: int,
)
    requires
        exact(val),
        0 <= t < 4,
        xs.len() == nb,
        ys.len() == nb,
        all_bytes32(xs),
        forall|l: int|
            0 <= l < nb ==> #[trigger] cell_holds::<R, B, X>(bs[l], j, xs[l], acts[l], t, ys[l]),
    ensures
        val(tile_chain::<R, B>(bs, acts, nb, t, j)) == val(
            lane_dot::<R, X, BlockQ8_0>(xs, ys, nb),
        ),
{
    assert forall|l: int| 0 <= l < nb implies column_bytes::<R, B>(#[trigger] bs[l], j) by {
        assert(cell_holds::<R, B, X>(bs[l], j, xs[l], acts[l], t, ys[l]));
        assert(bytes32(xs[l]));
        assert forall|e: int| 0 <= e < 32 implies -128 <= #[trigger] bs[l].weight_of(j, e) <= 127 by {
            assert(-128 <= xs[l].code_of(e) <= 127);
        }
    }
    tiles_are_the_values::<R, B>(val, bs, acts, nb, t, j);
    lanes_are_the_values::<R, X, BlockQ8_0>(val, xs, ys, nb);
    let f = |b: int| tile_values::<R, B>(val, bs[b], j, acts[b], t);
    let g = |b: int| values_dot::<R, X, BlockQ8_0>(val, xs[b], ys[b]);
    assert forall|l: int| 0 <= l < nb implies #[trigger] f(l) == g(l) by {
        assert(cell_holds::<R, B, X>(bs[l], j, xs[l], acts[l], t, ys[l]));
        assert(bytes32(xs[l]));
        lemma_cell_values::<R, B, X>(val, bs[l], j, xs[l], acts[l], t, ys[l]);
    }
    lemma_rsum_eq(nb, f, g);
}

/// q8_0, eight columns to a block: the product is, as numbers, the product over the rows, wherever
/// the activation keeps to the symmetric codes.
pub proof fn q8_0_octets_give_the_product<R: Real>(
    val: spec_fn(R) -> real,
    lhs: Seq<R>,
    raw: Seq<BlockQ8_0>,
    b: Seq<BlockQ8_0x8>,
    dst: Seq<R>,
    want: Seq<R>,
    m: int,
    k: int,
    n: int,
)
    requires
        exact(val),
        symmetric(lhs, m, k),
        0 <= m,
        0 <= k,
        0 <= n,
        n % 8 == 0,
        k % 32 == 0,
        lhs.len() == m * k,
        raw.len() == n * (k / 32),
        interleaved::<repack_q8_0_x8::Eights>(raw, b, n, k / 32),
        x8_product::<R, BlockQ8_0x8>(lhs, b, dst, m, k, n),
        dense_product::<R, BlockQ8_0>(lhs, raw, want, m, k, n),
    ensures
        forall|i: int| 0 <= i < m * n ==> val(#[trigger] dst[i]) == val(want[i]),
{
    let nb = k / 32;
    let p = choose|acts: Seq<BlockQ8_0x4>| #[trigger]
        act_tiles(lhs, acts, m, k) && dst.len() == m * n && (forall|row: int, col: int|
            0 <= row < m && 0 <= col < n ==> dst[#[trigger] cell(n, row, col)] == fused_cell::<
                R,
                BlockQ8_0x8,
            >(b, acts, k / 32, row, col));
    let q = choose|a: Seq<BlockQ8_0>| #[trigger]
        quantised::<R, BlockQ8_0>(lhs, a) && dense_cells::<R, BlockQ8_0>(raw, a, want, m, n, nb);
    assert forall|i: int| 0 <= i < m * n implies val(#[trigger] dst[i]) == val(want[i]) by {
        lemma_at(m, n, i);
        let (row, col) = (i / n, i % n);
        assert(dst[cell(n, row, col)] == fused_cell::<R, BlockQ8_0x8>(b, p, nb, row, col));
        assert(want[cell(n, row, col)] == dense_cell::<R, BlockQ8_0>(raw, q, nb, row, col));
        let (g, j, h, t) = (col / 8, col % 8, row / 4, row % 4);
        let (bs, acts) = (span(b, g, nb), span(p, h, nb));
        let (xs, ys) = (span(raw, col, nb), span(q, row, nb));
        if nb > 0 {
            lemma_act_row::<R>(lhs, p, q, m, k, row, 0);
        } else {
            lemma_no_blocks(lhs, q, m, k);
        }
        lemma_spans(raw, q, m, n, nb, row, col);
        lemma_group_inside(n / 8, nb, g);
        lemma_group_inside((m + 3) / 4, nb, h);
        assert(tile(g, j) == col);
        assert forall|l: int| 0 <= l < nb implies #[trigger] cell_holds::<R, BlockQ8_0x8, BlockQ8_0>(
            bs[l],
            j,
            xs[l],
            acts[l],
            t,
            ys[l],
        ) by {
            assert(bs[l] == b[cell(nb, g, l)]);
            assert(acts[l] == p[cell(nb, h, l)]);
            assert(xs[l] == raw[cell(nb, col, l)]);
            assert(ys[l] == q[row * nb + l]);
            assert(repack_q8_0_x8::Eights::holds(b[cell(nb, g, l)], j, raw[cell(nb, tile(g, j), l)]));
            repack_q8_0_x8::column_is_its_row::<R>(bs[l], j, xs[l]);
            lemma_act_row::<R>(lhs, p, q, m, k, row, l);
        }
        lemma_fused::<R, BlockQ8_0x8, BlockQ8_0>(val, bs, acts, xs, ys, nb as nat, t, j);
    }
}

/// mxfp4, eight columns to a block: the product is, as numbers, the product over the rows, wherever
/// the activation keeps to the symmetric codes.
pub proof fn mxfp4_octets_give_the_product<R: Real>(
    val: spec_fn(R) -> real,
    lhs: Seq<R>,
    raw: Seq<BlockMxFp4>,
    b: Seq<BlockMxFp4x8>,
    dst: Seq<R>,
    want: Seq<R>,
    m: int,
    k: int,
    n: int,
)
    requires
        exact(val),
        symmetric(lhs, m, k),
        0 <= m,
        0 <= k,
        0 <= n,
        n % 8 == 0,
        k % 32 == 0,
        lhs.len() == m * k,
        raw.len() == n * (k / 32),
        interleaved::<repack_mxfp4_x8::Eights>(raw, b, n, k / 32),
        x8_product::<R, BlockMxFp4x8>(lhs, b, dst, m, k, n),
        dense_product::<R, BlockMxFp4>(lhs, raw, want, m, k, n),
    ensures
        forall|i: int| 0 <= i < m * n ==> val(#[trigger] dst[i]) == val(want[i]),
{
    let nb = k / 32;
    let p = choose|acts: Seq<BlockQ8_0x4>| #[trigger]
        act_tiles(lhs, acts, m, k) && dst.len() == m * n && (forall|row: int, col: int|
            0 <= row < m && 0 <= col < n ==> dst[#[trigger] cell(n, row, col)] == fused_cell::<
                R,
                BlockMxFp4x8,
            >(b, acts, k / 32, row, col));
    let q = choose|a: Seq<BlockQ8_0>| #[trigger]
        quantised::<R, BlockQ8_0>(lhs, a) && dense_cells::<R, BlockMxFp4>(raw, a, want, m, n, nb);
    assert forall|i: int| 0 <= i < m * n implies val(#[trigger] dst[i]) == val(want[i]) by {
        lemma_at(m, n, i);
        let (row, col) = (i / n, i % n);
        assert(dst[cell(n, row, col)] == fused_cell::<R, BlockMxFp4x8>(b, p, nb, row, col));
        assert(want[cell(n, row, col)] == dense_cell::<R, BlockMxFp4>(raw, q, nb, row, col));
        let (g, j, h, t) = (col / 8, col % 8, row / 4, row % 4);
        let (bs, acts) = (span(b, g, nb), span(p, h, nb));
        let (xs, ys) = (span(raw, col, nb), span(q, row, nb));
        if nb > 0 {
            lemma_act_row::<R>(lhs, p, q, m, k, row, 0);
        } else {
            lemma_no_blocks(lhs, q, m, k);
        }
        lemma_spans(raw, q, m, n, nb, row, col);
        lemma_group_inside(n / 8, nb, g);
        lemma_group_inside((m + 3) / 4, nb, h);
        assert(tile(g, j) == col);
        assert forall|l: int| 0 <= l < nb implies #[trigger] cell_holds::<R, BlockMxFp4x8, BlockMxFp4>(
            bs[l],
            j,
            xs[l],
            acts[l],
            t,
            ys[l],
        ) by {
            assert(bs[l] == b[cell(nb, g, l)]);
            assert(acts[l] == p[cell(nb, h, l)]);
            assert(xs[l] == raw[cell(nb, col, l)]);
            assert(ys[l] == q[row * nb + l]);
            assert(repack_mxfp4_x8::Eights::holds(b[cell(nb, g, l)], j, raw[cell(nb, tile(g, j), l)]));
            repack_mxfp4_x8::column_is_its_row::<R>(bs[l], j, xs[l]);
            lemma_act_row::<R>(lhs, p, q, m, k, row, l);
        }
        lemma_fused::<R, BlockMxFp4x8, BlockMxFp4>(val, bs, acts, xs, ys, nb as nat, t, j);
    }
}

/// No values are no blocks.
proof fn lemma_no_blocks<R: Real>(lhs: Seq<R>, ys: Seq<BlockQ8_0>, m: int, k: int)
    requires
        quantised::<R, BlockQ8_0>(lhs, ys),
        lhs.len() == m * k,
        k % 32 == 0,
        k / 32 == 0,
    ensures
        ys.len() == m * (k / 32),
{
    assert(m * k == 0 && m * (k / 32) == 0) by (nonlinear_arith)
        requires
            k == 0,
            k / 32 == 0,
    ;
    assert(ys.len() * 32 == lhs.len());
}

/// Group `g` of `groups` lies inside the run.
proof fn lemma_group_inside(groups: int, nb: int, g: int)
    requires
        0 <= nb,
        0 <= g < groups,
    ensures
        0 <= g * nb,
        g * nb + nb <= cell(nb, groups, 0),
{
    assert(0 <= g * nb && g * nb + nb <= groups * nb) by (nonlinear_arith)
        requires
            0 <= g,
            g + 1 <= groups,
            0 <= nb,
    ;
}

} // verus!
