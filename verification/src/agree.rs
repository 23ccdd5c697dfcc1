//! Answers that agree: what a product comes to depends on its inputs alone, so work that is shared,
//! batched or fused gives what the separate calls give, value for value.
use vstd::prelude::*;
use crate::arith::{Half, Real, radd, rbits, rmul, rto_bits, rto_half};
use crate::blocks::{BlockFormat, Quantized, run};
use crate::bytes::{Decode, Encode, Experts, Multiply, expert_product, values_of};
use crate::coded::{cell, grouped};
use crate::dispatch::Job;
use crate::drivers::{
    MxFp4Tiles, Q40Tiles, Q50Tiles, Q80Tiles, packed_product, tiled_mxfp4_is_dense,
    tiled_q4_0_is_dense, tiled_q5_0_is_dense, tiled_q8_0_is_dense,
};
use crate::ffn::{GateFn, NormFn, Phases, gu_column, phases_hold, residual};
use crate::format::mxfp4::BlockMxFp4;
use crate::format::q4_0::BlockQ4_0;
use crate::format::q5_0::BlockQ5_0;
use crate::format::q8_0::BlockQ8_0;
use crate::grid::{ceil_div, chunk_covers, share_column, share_row, shares_partition};
use crate::layout::{Stored, run_laid, run_spelled, written_blocks_read_back};
use crate::matmul::{
    dense_cell, dense_cells, dense_product, gated_product, silu_of, widened,
};
use crate::tiled::{TileKernel, quantised, span, tiled_cell, tiled_product};

verus! {

/// Quantising a run again gives the blocks it gave before: sharing the blocks between calls
/// changes nothing.
pub proof fn quantised_once<R: Real, T: Stored<R>>(
    x: Seq<R>,
    a: Seq<T::ActivationBlock>,
    b: Seq<T::ActivationBlock>,
)
    requires
        quantised::<R, T::ActivationBlock>(x, a),
        quantised::<R, T::ActivationBlock>(x, b),
    ensures
        a == b,
{
    T::widths_match();
    let w = T::width() as int;
    let (n, m) = (a.len() as int, b.len() as int);
    assert(n == m) by (nonlinear_arith)
        requires
            n * w == m * w,
            0 < w,
    ;
    assert forall|i: int| 0 <= i < a.len() implies a[i] == b[i] by {
        T::activation_once(run(x, i, w), a[i], b[i]);
    }
    assert(a =~= b);
}

/// Bytes read as one run of blocks.
pub proof fn read_once<R: Real, T: Stored<R>>(bytes: Seq<u8>, a: Seq<T>, b: Seq<T>)
    requires
        run_laid::<R, T>(bytes, a),
        run_laid::<R, T>(bytes, b),
    ensures
        a == b,
{
    T::widths_match();
    let size = T::size() as int;
    let (n, m) = (a.len() as int, b.len() as int);
    assert(n == m) by (nonlinear_arith)
        requires
            n * size == m * size,
            0 < size,
    ;
    assert forall|i: int| 0 <= i < a.len() implies a[i] == b[i] by {
        T::laid_once(a[i], b[i], span(bytes, i, size));
    }
    assert(a =~= b);
}

/// Where value `i` of `[m, n]` lies.
pub(crate) proof fn lemma_at(m: int, n: int, i: int)
    requires
        0 <= i < m * n,
        0 <= m,
        0 <= n,
    ensures
        0 < n,
        0 <= i / n < m,
        0 <= i % n < n,
        i == cell(n, i / n, i % n),
{
    assert(0 < n) by (nonlinear_arith)
        requires
            0 < m * n,
            0 <= n,
    ;
    vstd::arithmetic::div_mod::lemma_fundamental_div_mod(i, n);
    vstd::arithmetic::div_mod::lemma_mod_bound(i, n);
    let q = i / n;
    assert(0 <= q < m) by (nonlinear_arith)
        requires
            0 < n,
            0 <= i < m * n,
            0 <= i - n * q < n,
    ;
    assert(n * q == q * n) by (nonlinear_arith);
}

/// Weights and values have one product.
pub proof fn product_once<R: Real, T: Stored<R>>(
    lhs: Seq<R>,
    rhs: Seq<T>,
    a: Seq<R>,
    b: Seq<R>,
    m: int,
    k: int,
    n: int,
)
    requires
        0 <= m,
        0 <= n,
        dense_product::<R, T>(lhs, rhs, a, m, k, n),
        dense_product::<R, T>(lhs, rhs, b, m, k, n),
    ensures
        a == b,
{
    let kb = k / T::width() as int;
    let p = choose|acts: Seq<T::ActivationBlock>| #[trigger]
        quantised::<R, T::ActivationBlock>(lhs, acts) && dense_cells::<R, T>(
            rhs,
            acts,
            a,
            m,
            n,
            kb,
        );
    let q = choose|acts: Seq<T::ActivationBlock>| #[trigger]
        quantised::<R, T::ActivationBlock>(lhs, acts) && dense_cells::<R, T>(
            rhs,
            acts,
            b,
            m,
            n,
            kb,
        );
    quantised_once::<R, T>(lhs, p, q);
    assert forall|i: int| 0 <= i < a.len() implies a[i] == b[i] by {
        lemma_at(m, n, i);
        assert(a[cell(n, i / n, i % n)] == dense_cell::<R, T>(rhs, p, kb, i / n, i % n));
        assert(b[cell(n, i / n, i % n)] == dense_cell::<R, T>(rhs, q, kb, i / n, i % n));
    }
    assert(a =~= b);
}

/// The blocks of row `r` of an activation are what the row alone is quantised to.
proof fn lemma_row_blocks<R: Real, T: Stored<R>>(
    lhs: Seq<R>,
    acts: Seq<T::ActivationBlock>,
    m: int,
    k: int,
    r: int,
)
    requires
        0 <= r < m,
        0 <= k,
        k % T::width() as int == 0,
        lhs.len() == m * k,
        quantised::<R, T::ActivationBlock>(lhs, acts),
    ensures
        quantised::<R, T::ActivationBlock>(
            span(lhs, r, k),
            span(acts, r, k / T::width() as int),
        ),
{
    T::widths_match();
    let w = T::width() as int;
    let kb = k / w;
    let len = acts.len() as int;
    vstd::arithmetic::div_mod::lemma_fundamental_div_mod(k, w);
    vstd::arithmetic::div_mod::lemma_div_pos_is_pos(k, w);
    assert(w * kb == kb * w) by (nonlinear_arith);
    assert(m * (kb * w) == (m * kb) * w) by (nonlinear_arith);
    let all = m * kb;
    assert(len == all) by (nonlinear_arith)
        requires
            len * w == all * w,
            0 < w,
    ;
    assert(0 <= r * k && r * k + k <= m * k && 0 <= r * kb && r * kb + kb <= m * kb)
        by (nonlinear_arith)
        requires
            0 <= r < m,
            0 <= k,
            0 <= kb,
    ;
    let row = span(lhs, r, k);
    let mine = span(acts, r, kb);
    assert forall|b: int| 0 <= b < mine.len() implies T::ActivationBlock::encodes(
        run(row, b, w),
        #[trigger] mine[b],
    ) by {
        assert(r * (kb * w) == (r * kb) * w) by (nonlinear_arith);
        let base = r * kb;
        assert((base + b) * w == base * w + b * w) by (nonlinear_arith);
        assert(0 <= b * w && b * w + w <= kb * w) by (nonlinear_arith)
            requires
                0 <= b,
                b + 1 <= kb,
                0 < w,
        ;
        assert(run(row, b, w) =~= run(lhs, base + b, w));
        assert(mine[b] == acts[base + b]);
    }
}

/// A row of a batch gets what it would get alone: row `r` of an `m`-row product is the product of
/// row `r` by itself.
pub proof fn rows_answer_alone<R: Real, T: Stored<R>>(
    lhs: Seq<R>,
    rhs: Seq<T>,
    dst: Seq<R>,
    alone: Seq<R>,
    m: int,
    k: int,
    n: int,
    r: int,
)
    requires
        0 <= r < m,
        0 <= k,
        0 <= n,
        k % T::width() as int == 0,
        lhs.len() == m * k,
        dense_product::<R, T>(lhs, rhs, dst, m, k, n),
        dense_product::<R, T>(span(lhs, r, k), rhs, alone, 1, k, n),
    ensures
        alone == span(dst, r, n),
{
    T::widths_match();
    let kb = k / T::width() as int;
    let p = choose|acts: Seq<T::ActivationBlock>| #[trigger]
        quantised::<R, T::ActivationBlock>(lhs, acts) && dense_cells::<R, T>(
            rhs,
            acts,
            dst,
            m,
            n,
            kb,
        );
    lemma_row_blocks::<R, T>(lhs, p, m, k, r);
    assert(r * k + k <= m * k && 0 <= r * k && 0 <= r * n && r * n + n <= m * n)
        by (nonlinear_arith)
        requires
            0 <= r < m,
            0 <= k,
            0 <= n,
    ;
    assert(1 * n == n) by (nonlinear_arith);
    assert forall|c: int| 0 <= c < n implies alone[c] == span(dst, r, n)[c] by {
        lemma_single_row::<R, T>(span(lhs, r, k), rhs, alone, span(p, r, kb), k, n, c);
        assert(dst[cell(n, r, c)] == dense_cell::<R, T>(rhs, p, kb, r, c));
    }
    assert(alone =~= span(dst, r, n));
}

/// `part` holds the cells of share `chunk` of a product.
pub open spec fn share_holds<R: Real, T: BlockFormat<R>>(
    rhs: Seq<T>,
    acts: Seq<T::ActivationBlock>,
    part: Seq<R>,
    n: int,
    kb: int,
    cols: int,
    chunk: int,
) -> bool {
    forall|col: int| #[trigger]
        chunk_covers(cols, n, share_column(n, cols, chunk), col) ==> part[col - share_column(
            n,
            cols,
            chunk,
        ) * cols] == dense_cell::<R, T>(rhs, acts, kb, share_row(n, cols, chunk), col)
}

/// `part` stands in the output where share `chunk` does.
pub open spec fn share_placed<R>(
    dst: Seq<R>,
    part: Seq<R>,
    n: int,
    cols: int,
    chunk: int,
) -> bool {
    forall|col: int| #[trigger]
        chunk_covers(cols, n, share_column(n, cols, chunk), col) ==> dst[cell(
            n,
            share_row(n, cols, chunk),
            col,
        )] == part[col - share_column(n, cols, chunk) * cols]
}

/// A product computed in shares is the product: the shares may be computed in any order, by any
/// worker, and each put where it belongs.
pub proof fn shares_make_the_product<R: Real, T: BlockFormat<R>>(
    rhs: Seq<T>,
    acts: Seq<T::ActivationBlock>,
    parts: Seq<Seq<R>>,
    dst: Seq<R>,
    m: int,
    n: int,
    kb: int,
    cols: int,
)
    requires
        0 < cols,
        dst.len() == m * n,
        parts.len() == ceil_div(n, cols) * m,
        forall|chunk: int|
            0 <= chunk < parts.len() ==> share_holds::<R, T>(
                rhs,
                acts,
                #[trigger] parts[chunk],
                n,
                kb,
                cols,
                chunk,
            ),
        forall|chunk: int|
            0 <= chunk < parts.len() ==> share_placed(dst, #[trigger] parts[chunk], n, cols, chunk),
    ensures
        dense_cells::<R, T>(rhs, acts, dst, m, n, kb),
{
    assert forall|row: int, col: int| 0 <= row < m && 0 <= col < n implies dst[#[trigger] cell(
        n,
        row,
        col,
    )] == dense_cell::<R, T>(rhs, acts, kb, row, col) by {
        shares_partition(m, n, cols, row, col);
        let chunk = row * ceil_div(n, cols) + col / cols;
        assert(share_holds::<R, T>(rhs, acts, parts[chunk], n, kb, cols, chunk));
        assert(share_placed(dst, parts[chunk], n, cols, chunk));
        assert(chunk_covers(cols, n, share_column(n, cols, chunk), col));
    }
}

/// Raw weights and values have one product.
pub proof fn byte_product_once<R: Real, T: Stored<R>>(job: Multiply<R>, a: Vec<R>, b: Vec<R>)
    requires
        <Multiply<R> as Job<R, T>>::owes(job, Ok(a)),
        <Multiply<R> as Job<R, T>>::owes(job, Ok(b)),
    ensures
        a@ == b@,
{
    let (m, k, n) = (job.shape.0 as int, job.shape.1 as int, job.shape.2 as int);
    let pa = |rhs: Seq<T>| dense_product::<R, T>(job.lhs@, rhs, a@, m, k, n);
    let pb = |rhs: Seq<T>| dense_product::<R, T>(job.lhs@, rhs, b@, m, k, n);
    let p = choose|rhs: Seq<T>| #[trigger] run_laid::<R, T>(job.bytes@, rhs) && pa(rhs);
    let q = choose|rhs: Seq<T>| #[trigger] run_laid::<R, T>(job.bytes@, rhs) && pb(rhs);
    read_once::<R, T>(job.bytes@, p, q);
    product_once::<R, T>(job.lhs@, p, a@, b@, m, k, n);
}

/// Over raw weights too, a row of a batch gets what it would get alone.
pub proof fn byte_rows_answer_alone<R: Real, T: Stored<R>>(
    job: Multiply<R>,
    all: Vec<R>,
    single: Multiply<R>,
    alone: Vec<R>,
    r: int,
)
    requires
        0 <= r < job.shape.0,
        single.shape == (1usize, job.shape.1, job.shape.2),
        single.bytes@ == job.bytes@,
        single.lhs@ == span(job.lhs@, r, job.shape.1 as int),
        <Multiply<R> as Job<R, T>>::owes(job, Ok(all)),
        <Multiply<R> as Job<R, T>>::owes(single, Ok(alone)),
    ensures
        alone@ == span(all@, r, job.shape.2 as int),
{
    let (m, k, n) = (job.shape.0 as int, job.shape.1 as int, job.shape.2 as int);
    let pa = |rhs: Seq<T>| dense_product::<R, T>(job.lhs@, rhs, all@, m, k, n);
    let pb = |rhs: Seq<T>| dense_product::<R, T>(single.lhs@, rhs, alone@, 1, k, n);
    let p = choose|rhs: Seq<T>| #[trigger] run_laid::<R, T>(job.bytes@, rhs) && pa(rhs);
    let q = choose|rhs: Seq<T>| #[trigger] run_laid::<R, T>(single.bytes@, rhs) && pb(rhs);
    read_once::<R, T>(job.bytes@, p, q);
    rows_answer_alone::<R, T>(job.lhs@, p, all@, alone@, m, k, n, r);
}

/// An expert in a batch gets what it would get alone.
pub proof fn experts_answer_alone<R: Real, T: Stored<R>>(
    job: Experts<R>,
    outs: Vec<Vec<R>>,
    e: int,
    alone: Vec<R>,
)
    requires
        <Experts<R> as Job<R, T>>::owes(job, Ok(outs)),
        0 <= e < outs@.len(),
        <Multiply<R> as Job<R, T>>::owes(expert_product(job, e), Ok(alone)),
    ensures
        outs@[e]@ == alone@,
{
    byte_product_once::<R, T>(expert_product(job, e), outs@[e], alone);
}

/// The gated product of one shared activation is `silu(gate) * up` of the two separate products.
pub proof fn gating_shares_its_activation<R: Real, T: Stored<R>>(
    lhs: Seq<Half>,
    gate: Seq<T>,
    up: Seq<T>,
    dst: Seq<Half>,
    gated: Seq<R>,
    raised: Seq<R>,
    m: int,
    k: int,
    n: int,
)
    requires
        0 <= m,
        0 <= n,
        gated_product::<R, T>(lhs, gate, up, dst, m, k, n),
        dense_product::<R, T>(widened::<R>(lhs), gate, gated, m, k, n),
        dense_product::<R, T>(widened::<R>(lhs), up, raised, m, k, n),
    ensures
        dst == Seq::new(
            (m * n) as nat,
            |i: int| rto_half::<R>(rmul(silu_of(gated[i]), raised[i])),
        ),
{
    let x = widened::<R>(lhs);
    let kb = k / T::width() as int;
    let p = choose|acts: Seq<T::ActivationBlock>| #[trigger]
        quantised::<R, T::ActivationBlock>(x, acts) && dst.len() == m * n && (forall|
            row: int,
            col: int,
        |
            0 <= row < m && 0 <= col < n ==> dst[#[trigger] cell(n, row, col)] == rto_half::<R>(
                rmul(
                    silu_of(dense_cell::<R, T>(gate, acts, kb, row, col)),
                    dense_cell::<R, T>(up, acts, kb, row, col),
                ),
            ));
    let g = choose|acts: Seq<T::ActivationBlock>| #[trigger]
        quantised::<R, T::ActivationBlock>(x, acts) && dense_cells::<R, T>(
            gate,
            acts,
            gated,
            m,
            n,
            kb,
        );
    let u = choose|acts: Seq<T::ActivationBlock>| #[trigger]
        quantised::<R, T::ActivationBlock>(x, acts) && dense_cells::<R, T>(
            up,
            acts,
            raised,
            m,
            n,
            kb,
        );
    quantised_once::<R, T>(x, p, g);
    quantised_once::<R, T>(x, p, u);
    assert forall|i: int| 0 <= i < dst.len() implies dst[i] == rto_half::<R>(
        rmul(silu_of(gated[i]), raised[i]),
    ) by {
        lemma_at(m, n, i);
        assert(gated[cell(n, i / n, i % n)] == dense_cell::<R, T>(gate, g, kb, i / n, i % n));
        assert(raised[cell(n, i / n, i % n)] == dense_cell::<R, T>(up, u, kb, i / n, i % n));
        assert(dst[cell(n, i / n, i % n)] == rto_half::<R>(
            rmul(
                silu_of(dense_cell::<R, T>(gate, p, kb, i / n, i % n)),
                dense_cell::<R, T>(up, p, kb, i / n, i % n),
            ),
        ));
    }
    assert(dst =~= Seq::new(
        (m * n) as nat,
        |i: int| rto_half::<R>(rmul(silu_of(gated[i]), raised[i])),
    ));
}

/// A tiled product over one quantisation of its activation is the product over any other.
pub proof fn tiles_share_their_activation<
    R: Real,
    T: Stored<R>,
    K: TileKernel<R, Act = T::ActivationBlock>,
>(
    lhs: Seq<R>,
    b: Seq<K::Block>,
    dst: Seq<R>,
    acts: Seq<T::ActivationBlock>,
    other: Seq<R>,
    m: int,
    k: int,
    n: int,
)
    requires
        0 <= m,
        0 <= n,
        packed_product::<R, T::ActivationBlock, K>(lhs, b, dst, m, k, n),
        quantised::<R, T::ActivationBlock>(lhs, acts),
        tiled_product::<R, K>(b, acts, other, m, n, k / T::width() as int),
    ensures
        dst == other,
{
    T::widths_match();
    let kb = k / T::width() as int;
    let p = choose|a: Seq<T::ActivationBlock>| #[trigger]
        quantised::<R, T::ActivationBlock>(lhs, a) && tiled_product::<R, K>(b, a, dst, m, n, kb);
    quantised_once::<R, T>(lhs, p, acts);
    assert forall|i: int| 0 <= i < dst.len() implies dst[i] == other[i] by {
        lemma_at(m, n, i);
        assert(dst[cell(n, i / n, i % n)] == tiled_cell::<R, K>(b, p, kb, i / n, i % n));
        assert(other[cell(n, i / n, i % n)] == tiled_cell::<R, K>(b, acts, kb, i / n, i % n));
    }
    assert(dst =~= other);
}

/// Tiles whose cells are the rows' products hold the product.
proof fn lemma_tiled_whole<R: Real, T: Stored<R>, K: TileKernel<R, Act = T::ActivationBlock>>(
    lhs: Seq<R>,
    raw: Seq<T>,
    b: Seq<K::Block>,
    dst: Seq<R>,
    want: Seq<R>,
    m: int,
    k: int,
    n: int,
)
    requires
        0 <= m,
        0 <= k,
        0 <= n,
        lhs.len() == m * k,
        k % T::width() as int == 0,
        packed_product::<R, T::ActivationBlock, K>(lhs, b, dst, m, k, n),
        dense_product::<R, T>(lhs, raw, want, m, k, n),
        forall|acts: Seq<T::ActivationBlock>, row: int, col: int|
            acts.len() == m * (k / T::width() as int) && 0 <= row < m && 0 <= col < n
                ==> #[trigger] tiled_cell::<R, K>(b, acts, k / T::width() as int, row, col)
                == dense_cell::<R, T>(raw, acts, k / T::width() as int, row, col),
    ensures
        dst == want,
{
    T::widths_match();
    let w = T::width() as int;
    let kb = k / w;
    let p = choose|a: Seq<T::ActivationBlock>| #[trigger]
        quantised::<R, T::ActivationBlock>(lhs, a) && tiled_product::<R, K>(b, a, dst, m, n, kb);
    let q = choose|a: Seq<T::ActivationBlock>| #[trigger]
        quantised::<R, T::ActivationBlock>(lhs, a) && dense_cells::<R, T>(raw, a, want, m, n, kb);
    quantised_once::<R, T>(lhs, p, q);
    vstd::arithmetic::div_mod::lemma_fundamental_div_mod(k, w);
    let len = p.len() as int;
    assert(len == m * kb) by (nonlinear_arith)
        requires
            len * w == m * k,
            k == w * kb,
            0 < w,
    ;
    assert forall|i: int| 0 <= i < dst.len() implies dst[i] == want[i] by {
        lemma_at(m, n, i);
        assert(dst[cell(n, i / n, i % n)] == tiled_cell::<R, K>(b, p, kb, i / n, i % n));
        assert(want[cell(n, i / n, i % n)] == dense_cell::<R, T>(raw, q, kb, i / n, i % n));
    }
    assert(dst =~= want);
}

/// q4_0: the product over grouped weights is the product over the rows they were grouped from,
/// value for value.
pub proof fn q4_0_groups_give_the_product<R: Real>(
    lhs: Seq<R>,
    raw: Seq<BlockQ4_0>,
    b: Seq<BlockQ4_0>,
    dst: Seq<R>,
    want: Seq<R>,
    m: int,
    k: int,
    n: int,
)
    requires
        0 <= m,
        0 <= k,
        0 <= n,
        n % 8 == 0,
        k % 32 == 0,
        lhs.len() == m * k,
        raw.len() == n * (k / 32),
        grouped(raw, b, n, k / 32),
        packed_product::<R, BlockQ8_0, Q40Tiles>(lhs, b, dst, m, k, n),
        dense_product::<R, BlockQ4_0>(lhs, raw, want, m, k, n),
    ensures
        dst == want,
{
    assert forall|acts: Seq<BlockQ8_0>, row: int, col: int|
        acts.len() == m * (k / 32) && 0 <= row < m && 0 <= col < n implies #[trigger] tiled_cell::<
        R,
        Q40Tiles,
    >(b, acts, k / 32, row, col) == dense_cell::<R, BlockQ4_0>(raw, acts, k / 32, row, col) by {
        tiled_q4_0_is_dense::<R>(raw, b, acts, m, n, k / 32, row, col);
    }
    lemma_tiled_whole::<R, BlockQ4_0, Q40Tiles>(lhs, raw, b, dst, want, m, k, n);
}

/// mxfp4: the product over grouped weights is the product over the rows they were grouped from,
/// value for value.
pub proof fn mxfp4_groups_give_the_product<R: Real>(
    lhs: Seq<R>,
    raw: Seq<BlockMxFp4>,
    b: Seq<BlockMxFp4>,
    dst: Seq<R>,
    want: Seq<R>,
    m: int,
    k: int,
    n: int,
)
    requires
        0 <= m,
        0 <= k,
        0 <= n,
        n % 8 == 0,
        k % 32 == 0,
        lhs.len() == m * k,
        raw.len() == n * (k / 32),
        grouped(raw, b, n, k / 32),
        packed_product::<R, BlockQ8_0, MxFp4Tiles>(lhs, b, dst, m, k, n),
        dense_product::<R, BlockMxFp4>(lhs, raw, want, m, k, n),
    ensures
        dst == want,
{
    assert forall|acts: Seq<BlockQ8_0>, row: int, col: int|
        acts.len() == m * (k / 32) && 0 <= row < m && 0 <= col < n implies #[trigger] tiled_cell::<
        R,
        MxFp4Tiles,
    >(b, acts, k / 32, row, col) == dense_cell::<R, BlockMxFp4>(raw, acts, k / 32, row, col) by {
        tiled_mxfp4_is_dense::<R>(raw, b, acts, m, n, k / 32, row, col);
    }
    lemma_tiled_whole::<R, BlockMxFp4, MxFp4Tiles>(lhs, raw, b, dst, want, m, k, n);
}

/// q5_0: the product over grouped weights is the product over the rows they were grouped from,
/// value for value.
pub proof fn q5_0_groups_give_the_product<R: Real>(
    lhs: Seq<R>,
    raw: Seq<BlockQ5_0>,
    b: Seq<BlockQ5_0>,
    dst: Seq<R>,
    want: Seq<R>,
    m: int,
    k: int,
    n: int,
)
    requires
        0 <= m,
        0 <= k,
        0 <= n,
        n % 8 == 0,
        k % 32 == 0,
        lhs.len() == m * k,
        raw.len() == n * (k / 32),
        grouped(raw, b, n, k / 32),
        packed_product::<R, BlockQ8_0, Q50Tiles>(lhs, b, dst, m, k, n),
        dense_product::<R, BlockQ5_0>(lhs, raw, want, m, k, n),
    ensures
        dst == want,
{
    assert forall|acts: Seq<BlockQ8_0>, row: int, col: int|
        acts.len() == m * (k / 32) && 0 <= row < m && 0 <= col < n implies #[trigger] tiled_cell::<
        R,
        Q50Tiles,
    >(b, acts, k / 32, row, col) == dense_cell::<R, BlockQ5_0>(raw, acts, k / 32, row, col) by {
        tiled_q5_0_is_dense::<R>(raw, b, acts, m, n, k / 32, row, col);
    }
    lemma_tiled_whole::<R, BlockQ5_0, Q50Tiles>(lhs, raw, b, dst, want, m, k, n);
}

/// q8_0: the product over grouped weights is the product over the rows they were grouped from,
/// value for value.
pub proof fn q8_0_groups_give_the_product<R: Real>(
    lhs: Seq<R>,
    raw: Seq<BlockQ8_0>,
    b: Seq<BlockQ8_0>,
    dst: Seq<R>,
    want: Seq<R>,
    m: int,
    k: int,
    n: int,
)
    requires
        0 <= m,
        0 <= k,
        0 <= n,
        n % 8 == 0,
        k % 32 == 0,
        lhs.len() == m * k,
        raw.len() == n * (k / 32),
        grouped(raw, b, n, k / 32),
        packed_product::<R, BlockQ8_0, Q80Tiles>(lhs, b, dst, m, k, n),
        dense_product::<R, BlockQ8_0>(lhs, raw, want, m, k, n),
    ensures
        dst == want,
{
    assert forall|acts: Seq<BlockQ8_0>, row: int, col: int|
        acts.len() == m * (k / 32) && 0 <= row < m && 0 <= col < n implies #[trigger] tiled_cell::<
        R,
        Q80Tiles,
    >(b, acts, k / 32, row, col) == dense_cell::<R, BlockQ8_0>(raw, acts, k / 32, row, col) by {
        tiled_q8_0_is_dense::<R>(raw, b, acts, m, n, k / 32, row, col);
    }
    lemma_tiled_whole::<R, BlockQ8_0, Q80Tiles>(lhs, raw, b, dst, want, m, k, n);
}

/// The fused feed-forward block leaves what its steps leave one after the other: gate and up
/// products of the normalised row, their gating, and the down product added to the row.
pub proof fn fused_block_is_sequential<
    R: Real,
    TG: Stored<R>,
    TD: Stored<R>,
    N: NormFn<R>,
    G: GateFn<R>,
>(
    x: Seq<R>,
    inter: int,
    gate: Seq<TG>,
    up: Seq<TG>,
    down: Seq<TD>,
    scale: Option<R>,
    norm: N,
    act: G,
    o: Phases<R>,
    aq_g: Seq<TG::ActivationBlock>,
    aq_d: Seq<TD::ActivationBlock>,
    gated: Seq<R>,
    raised: Seq<R>,
    lowered: Seq<R>,
)
    requires
        0 <= inter,
        phases_hold::<R, TG, TD, N, G>(
            x,
            inter,
            Some(gate),
            up,
            down,
            scale,
            norm,
            act,
            o,
            aq_g,
            aq_d,
        ),
        dense_product::<R, TG>(norm.normed(x), gate, gated, 1, x.len() as int, inter),
        dense_product::<R, TG>(norm.normed(x), up, raised, 1, x.len() as int, inter),
        dense_product::<R, TD>(o.act@, down, lowered, 1, inter, x.len() as int),
    ensures
        o.act@ == Seq::new(inter as nat, |i: int| act.gated(gated[i], raised[i])),
        o.x@ == Seq::new(x.len(), |c: int| radd(x[c], residual(lowered[c], scale))),
{
    let hidden = x.len() as int;
    let kb_g = hidden / TG::width() as int;
    assert forall|i: int| 0 <= i < inter implies o.act@[i] == act.gated(gated[i], raised[i]) by {
        lemma_single_row::<R, TG>(norm.normed(x), gate, gated, aq_g, hidden, inter, i);
        lemma_single_row::<R, TG>(norm.normed(x), up, raised, aq_g, hidden, inter, i);
        assert(gu_column(Some(gate), up, inter, kb_g, i) == span(gate, i, kb_g));
        assert(gu_column(Some(gate), up, inter, kb_g, inter + i) == span(up, i, kb_g));
        assert(o.gu@[i] == gated[i]);
        assert(o.gu@[inter + i] == raised[i]);
    }
    assert forall|c: int| 0 <= c < hidden implies o.x@[c] == radd(
        x[c],
        residual(lowered[c], scale),
    ) by {
        lemma_single_row::<R, TD>(o.act@, down, lowered, aq_d, inter, hidden, c);
    }
    assert(o.act@ =~= Seq::new(inter as nat, |i: int| act.gated(gated[i], raised[i])));
    assert(o.x@ =~= Seq::new(x.len(), |c: int| radd(x[c], residual(lowered[c], scale))));
}

/// A product of one row, over the blocks that row quantises to.
proof fn lemma_single_row<R: Real, T: Stored<R>>(
    lhs: Seq<R>,
    rhs: Seq<T>,
    dst: Seq<R>,
    acts: Seq<T::ActivationBlock>,
    k: int,
    n: int,
    c: int,
)
    requires
        lhs.len() == k,
        quantised::<R, T::ActivationBlock>(lhs, acts),
        dense_product::<R, T>(lhs, rhs, dst, 1, k, n),
        0 <= c < n,
    ensures
        dst[c] == T::dot_of(span(rhs, c, k / T::width() as int), acts),
{
    T::widths_match();
    let w = T::width() as int;
    let kb = k / w;
    let p = choose|a: Seq<T::ActivationBlock>| #[trigger]
        quantised::<R, T::ActivationBlock>(lhs, a) && dense_cells::<R, T>(rhs, a, dst, 1, n, kb);
    quantised_once::<R, T>(lhs, p, acts);
    assert(dst[cell(n, 0, c)] == dense_cell::<R, T>(rhs, p, kb, 0, c));
    assert(cell(n, 0, c) == c) by (nonlinear_arith)
        requires
            cell(n, 0, c) == 0 * n + c,
    ;
    let len = acts.len() as int;
    vstd::arithmetic::div_mod::lemma_div_multiples_vanish(len, w);
    assert(len * w == w * len) by (nonlinear_arith);
    assert(0 * kb == 0) by (nonlinear_arith);
    assert(span(acts, 0, kb) =~= acts);
}

/// What is written is read back as the values of the blocks it was written from, wherever a
/// pattern reads back as the value it came from.
pub proof fn encoded_values_decode<R: Real, T: Stored<R>>(
    from: Encode<R>,
    bytes: Vec<u8>,
    to: Decode,
    back: Vec<R>,
)
    requires
        <Encode<R> as Job<R, T>>::owes(from, Ok(bytes)),
        to.bytes@ == bytes@,
        <Decode as Job<R, T>>::owes(to, Ok(back)),
        forall|x: R| rbits::<R>(#[trigger] rto_bits::<R>(x)) == x,
    ensures
        exists|blocks: Seq<T>| #[trigger]
            quantised::<R, T>(from.xs@, blocks) && back@ == values_of::<R, T>(blocks),
{
    T::widths_match();
    let size = T::size() as int;
    let written = choose|blocks: Seq<T>| #[trigger]
        quantised::<R, T>(from.xs@, blocks) && run_spelled::<R, T>(bytes@, blocks);
    let read = choose|blocks: Seq<T>| #[trigger]
        run_laid::<R, T>(to.bytes@, blocks) && back@ == values_of::<R, T>(blocks);
    let (n, m) = (written.len() as int, read.len() as int);
    assert(n == m) by (nonlinear_arith)
        requires
            n * size == m * size,
            0 < size,
    ;
    written_blocks_read_back::<R, T>(bytes@, written, read);
    assert(quantised::<R, T>(from.xs@, written));
}

} // verus!
