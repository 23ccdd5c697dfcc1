//! The matrix product, in the values that weights and activations reconstruct to.
use vstd::prelude::*;
use crate::arith::{Half, Real, rhalf, rto_half};
use crate::blocks::{BlockFormat, Quantized};
use crate::coded::cell;
use crate::exact::numbers::{exact, lemma_rsum_eq, rsum};
use crate::exact::values::{
    block_values, encoded_sums_are_kept, iq2_dot_is_of_values, mxfp4_dot_is_of_values,
    q2k_dot_is_of_values, q3k_dot_is_of_values, q4_0_dot_is_of_values, q4k_dot_is_of_values,
    q5_0_dot_is_of_values, q5k_dot_is_of_values, q6k_dot_is_of_values, q8_0_dot_is_of_values,
    q8k_dot_is_of_values, sums_kept, values_product,
};
use crate::format::iq2_xxs::BlockIq2Xxs;
use crate::format::mxfp4::BlockMxFp4;
use crate::format::q2_k::BlockQ2K;
use crate::format::q3_k::BlockQ3K;
use crate::format::q4_0::BlockQ4_0;
use crate::format::q4_k::BlockQ4K;
use crate::format::q5_0::BlockQ5_0;
use crate::format::q5_k::BlockQ5K;
use crate::format::q6_k::BlockQ6K;
use crate::format::q8_0::BlockQ8_0;
use crate::format::q8_k::BlockQ8K;
use crate::matmul::{dense_cells, dense_product, half_product};
use crate::tiled::{quantised, span};

verus! {

/// `acts` is what `lhs` encodes to, `w` values to a block.
pub open spec fn taken<R: Real, B: Quantized<R>>(lhs: Seq<R>, acts: Seq<B>, w: int) -> bool {
    &&& lhs.len() == acts.len() * w
    &&& forall|b: int|
        0 <= b < acts.len() ==> B::encodes(lhs.subrange(b * w, b * w + w), #[trigger] acts[b])
}

/// The place of a cell in a matrix of `n` columns.
pub open spec fn place(n: int, row: int, col: int) -> int {
    row * n + col
}

/// Every cell is the dot product of what its column of weights and its row of activations
/// reconstruct to, `kb` blocks of `w` values each.
pub open spec fn cells_of_values<R: Real, T: BlockFormat<R>>(
    val: spec_fn(R) -> real,
    rhs: Seq<T>,
    acts: Seq<T::ActivationBlock>,
    dst: Seq<R>,
    m: int,
    n: int,
    kb: int,
    w: nat,
) -> bool {
    &&& dst.len() == m * n
    &&& forall|row: int, col: int|
        0 <= row < m && 0 <= col < n ==> val(dst[#[trigger] place(n, row, col)]) == rsum(
            kb as nat,
            |b: int|
                block_values::<R, T, T::ActivationBlock>(
                    val,
                    rhs[col * kb + b],
                    acts[row * kb + b],
                    w,
                ),
        )
}

/// `dst [m, n]` is the product of `lhs [m, k]`, encoded, and `rhs [n, k]`, in values.
pub open spec fn product_of_values<R: Real, T: BlockFormat<R>>(
    val: spec_fn(R) -> real,
    lhs: Seq<R>,
    rhs: Seq<T>,
    dst: Seq<R>,
    m: int,
    k: int,
    n: int,
    w: nat,
) -> bool {
    exists|acts: Seq<T::ActivationBlock>| #[trigger]
        taken::<R, T::ActivationBlock>(lhs, acts, w as int) && cells_of_values::<R, T>(
            val,
            rhs,
            acts,
            dst,
            m,
            n,
            k / w as int,
            w,
        )
}

/// The shapes of a product: whole blocks, and as many weights as there are columns for.
pub open spec fn shaped(lhs: nat, rhs: nat, m: int, k: int, n: int, w: nat) -> bool {
    &&& 0 <= m && 0 <= k && 0 <= n && 0 < w
    &&& k % w as int == 0
    &&& lhs == m * k
    &&& n * (k / w as int) <= rhs
}

proof fn lemma_spans(m: int, k: int, n: int, w: int, acts: int, rhs: int)
    requires
        0 <= m,
        0 <= k,
        0 <= n,
        0 < w,
        k % w == 0,
        m * k == acts * w,
        n * (k / w) <= rhs,
    ensures
        acts == m * (k / w),
        forall|r: int|
            0 <= r < m ==> 0 <= #[trigger] (r * (k / w)) && r * (k / w) + k / w <= acts,
        forall|c: int|
            0 <= c < n ==> 0 <= #[trigger] (c * (k / w)) && c * (k / w) + k / w <= rhs,
        0 <= k / w,
{
    let kb = k / w;
    vstd::arithmetic::div_mod::lemma_fundamental_div_mod(k, w);
    assert(k == w * kb);
    vstd::arithmetic::div_mod::lemma_div_pos_is_pos(k, w);
    assert(m * k == (m * kb) * w) by (nonlinear_arith)
        requires
            k == w * kb,
    ;
    vstd::arithmetic::mul::lemma_mul_equality_converse(w, acts, m * kb);
    assert forall|r: int| 0 <= r < m implies 0 <= #[trigger] (r * kb) && r * kb + kb <= acts by {
        assert(0 <= r * kb && r * kb + kb <= m * kb) by (nonlinear_arith)
            requires
                0 <= r < m,
                0 <= kb,
        ;
    }
    assert forall|c: int| 0 <= c < n implies 0 <= #[trigger] (c * kb) && c * kb + kb <= rhs by {
        assert(0 <= c * kb && c * kb + kb <= n * kb) by (nonlinear_arith)
            requires
                0 <= c < n,
                0 <= kb,
        ;
    }
}

/// Where a format's products are those of its values, on what its activations encode to, the matrix
/// product is that of the values.
pub proof fn products_are_of_values<R: Real, T: BlockFormat<R>>(
    val: spec_fn(R) -> real,
    lhs: Seq<R>,
    rhs: Seq<T>,
    dst: Seq<R>,
    m: int,
    k: int,
    n: int,
    w: nat,
    ok: spec_fn(T::ActivationBlock) -> bool,
)
    requires
        exact(val),
        T::width() == w,
        T::ActivationBlock::width() == w,
        shaped(lhs.len(), rhs.len(), m, k, n, w),
        dense_product::<R, T>(lhs, rhs, dst, m, k, n),
        forall|x: Seq<R>, b: T::ActivationBlock| #[trigger]
            T::ActivationBlock::encodes(x, b) ==> ok(b),
        forall|xs: Seq<T>, ys: Seq<T::ActivationBlock>|
            (forall|j: int| 0 <= j < ys.len() ==> ok(#[trigger] ys[j])) ==> val(
                #[trigger] T::dot_of(xs, ys),
            ) == values_product::<R, T, T::ActivationBlock>(val, xs, ys, w),
    ensures
        product_of_values::<R, T>(val, lhs, rhs, dst, m, k, n, w),
{
    let kb = k / w as int;
    let acts = choose|acts: Seq<T::ActivationBlock>| #[trigger]
        quantised::<R, T::ActivationBlock>(lhs, acts) && dense_cells::<R, T>(
            rhs,
            acts,
            dst,
            m,
            n,
            k / T::width() as int,
        );
    assert forall|b: int| 0 <= b < acts.len() implies T::ActivationBlock::encodes(
        lhs.subrange(b * w, b * w + w),
        #[trigger] acts[b],
    ) by {
        assert(T::ActivationBlock::encodes(crate::blocks::run(lhs, b, w as int), acts[b]));
    }
    assert(taken::<R, T::ActivationBlock>(lhs, acts, w as int));
    lemma_spans(m, k, n, w as int, acts.len() as int, rhs.len() as int);
    assert forall|row: int, col: int| 0 <= row < m && 0 <= col < n implies val(
        dst[#[trigger] place(n, row, col)],
    ) == rsum(
        kb as nat,
        |b: int|
            block_values::<R, T, T::ActivationBlock>(val, rhs[col * kb + b], acts[row * kb + b], w),
    ) by {
        assert(cell(n, row, col) == place(n, row, col));
        let (xs, ys) = (span(rhs, col, kb), span(acts, row, kb));
        assert(0 <= row * kb && row * kb + kb <= acts.len());
        assert(0 <= col * kb && col * kb + kb <= rhs.len());
        assert(xs.len() == kb && ys.len() == kb);
        assert forall|j: int| 0 <= j < ys.len() implies ok(#[trigger] ys[j]) by {
            assert(ys[j] == acts[row * kb + j]);
            let b = row * kb + j;
            assert(T::ActivationBlock::encodes(lhs.subrange(b * w, b * w + w), acts[b]));
        }
        assert(val(T::dot_of(xs, ys)) == values_product::<R, T, T::ActivationBlock>(
            val,
            xs,
            ys,
            w,
        ));
        let f = |b: int| block_values::<R, T, T::ActivationBlock>(val, xs[b], ys[b], w);
        let g = |b: int|
            block_values::<R, T, T::ActivationBlock>(val, rhs[col * kb + b], acts[row * kb + b], w);
        assert forall|b: int| 0 <= b < kb implies #[trigger] f(b) == g(b) by {
            assert(xs[b] == rhs[col * kb + b] && ys[b] == acts[row * kb + b]);
        }
        lemma_rsum_eq(kb as nat, f, g);
    }
}

/// q4_0: the matrix product is that of the values.
pub proof fn q4_0_product_is_of_values<R: Real>(
    val: spec_fn(R) -> real,
    lhs: Seq<R>,
    rhs: Seq<BlockQ4_0>,
    dst: Seq<R>,
    m: int,
    k: int,
    n: int,
)
    requires
        exact(val),
        shaped(lhs.len(), rhs.len(), m, k, n, 32),
        dense_product::<R, BlockQ4_0>(lhs, rhs, dst, m, k, n),
    ensures
        product_of_values::<R, BlockQ4_0>(val, lhs, rhs, dst, m, k, n, 32),
{
    let ok = |y: BlockQ8_0| true;
    assert forall|xs: Seq<BlockQ4_0>, ys: Seq<BlockQ8_0>| true implies val(
        #[trigger] <BlockQ4_0 as BlockFormat<R>>::dot_of(xs, ys),
    ) == values_product::<R, BlockQ4_0, BlockQ8_0>(val, xs, ys, 32) by {
        q4_0_dot_is_of_values::<R>(val, xs, ys);
    }
    products_are_of_values::<R, BlockQ4_0>(val, lhs, rhs, dst, m, k, n, 32, ok);
}

/// q5_0: the matrix product is that of the values.
pub proof fn q5_0_product_is_of_values<R: Real>(
    val: spec_fn(R) -> real,
    lhs: Seq<R>,
    rhs: Seq<BlockQ5_0>,
    dst: Seq<R>,
    m: int,
    k: int,
    n: int,
)
    requires
        exact(val),
        shaped(lhs.len(), rhs.len(), m, k, n, 32),
        dense_product::<R, BlockQ5_0>(lhs, rhs, dst, m, k, n),
    ensures
        product_of_values::<R, BlockQ5_0>(val, lhs, rhs, dst, m, k, n, 32),
{
    let ok = |y: BlockQ8_0| true;
    assert forall|xs: Seq<BlockQ5_0>, ys: Seq<BlockQ8_0>| true implies val(
        #[trigger] <BlockQ5_0 as BlockFormat<R>>::dot_of(xs, ys),
    ) == values_product::<R, BlockQ5_0, BlockQ8_0>(val, xs, ys, 32) by {
        q5_0_dot_is_of_values::<R>(val, xs, ys);
    }
    products_are_of_values::<R, BlockQ5_0>(val, lhs, rhs, dst, m, k, n, 32, ok);
}

/// q8_0: the matrix product is that of the values.
pub proof fn q8_0_product_is_of_values<R: Real>(
    val: spec_fn(R) -> real,
    lhs: Seq<R>,
    rhs: Seq<BlockQ8_0>,
    dst: Seq<R>,
    m: int,
    k: int,
    n: int,
)
    requires
        exact(val),
        shaped(lhs.len(), rhs.len(), m, k, n, 32),
        dense_product::<R, BlockQ8_0>(lhs, rhs, dst, m, k, n),
    ensures
        product_of_values::<R, BlockQ8_0>(val, lhs, rhs, dst, m, k, n, 32),
{
    let ok = |y: BlockQ8_0| true;
    assert forall|xs: Seq<BlockQ8_0>, ys: Seq<BlockQ8_0>| true implies val(
        #[trigger] <BlockQ8_0 as BlockFormat<R>>::dot_of(xs, ys),
    ) == values_product::<R, BlockQ8_0, BlockQ8_0>(val, xs, ys, 32) by {
        q8_0_dot_is_of_values::<R>(val, xs, ys);
    }
    products_are_of_values::<R, BlockQ8_0>(val, lhs, rhs, dst, m, k, n, 32, ok);
}

/// mxfp4: the matrix product is that of the values.
pub proof fn mxfp4_product_is_of_values<R: Real>(
    val: spec_fn(R) -> real,
    lhs: Seq<R>,
    rhs: Seq<BlockMxFp4>,
    dst: Seq<R>,
    m: int,
    k: int,
    n: int,
)
    requires
        exact(val),
        shaped(lhs.len(), rhs.len(), m, k, n, 32),
        dense_product::<R, BlockMxFp4>(lhs, rhs, dst, m, k, n),
    ensures
        product_of_values::<R, BlockMxFp4>(val, lhs, rhs, dst, m, k, n, 32),
{
    let ok = |y: BlockQ8_0| true;
    assert forall|xs: Seq<BlockMxFp4>, ys: Seq<BlockQ8_0>| true implies val(
        #[trigger] <BlockMxFp4 as BlockFormat<R>>::dot_of(xs, ys),
    ) == values_product::<R, BlockMxFp4, BlockQ8_0>(val, xs, ys, 32) by {
        mxfp4_dot_is_of_values::<R>(val, xs, ys);
    }
    products_are_of_values::<R, BlockMxFp4>(val, lhs, rhs, dst, m, k, n, 32, ok);
}

/// q2_K: the matrix product is that of the values.
pub proof fn q2k_product_is_of_values<R: Real>(
    val: spec_fn(R) -> real,
    lhs: Seq<R>,
    rhs: Seq<BlockQ2K>,
    dst: Seq<R>,
    m: int,
    k: int,
    n: int,
)
    requires
        exact(val),
        shaped(lhs.len(), rhs.len(), m, k, n, 256),
        dense_product::<R, BlockQ2K>(lhs, rhs, dst, m, k, n),
    ensures
        product_of_values::<R, BlockQ2K>(val, lhs, rhs, dst, m, k, n, 256),
{
    let ok = |y: BlockQ8K<R>| sums_kept(y);
    assert forall|x: Seq<R>, b: BlockQ8K<R>| #[trigger]
        <BlockQ8K<R> as Quantized<R>>::encodes(x, b) implies ok(b) by {
        encoded_sums_are_kept::<R>(x, b);
    }
    assert forall|xs: Seq<BlockQ2K>, ys: Seq<BlockQ8K<R>>| (forall|j: int| 0 <= j < ys.len() ==> ok(#[trigger] ys[j])) implies val(
        #[trigger] <BlockQ2K as BlockFormat<R>>::dot_of(xs, ys),
    ) == values_product::<R, BlockQ2K, BlockQ8K<R>>(val, xs, ys, 256) by {
        assert forall|b: int| 0 <= b < ys.len() implies sums_kept(#[trigger] ys[b]) by {
            assert(ok(ys[b]));
        }
        q2k_dot_is_of_values::<R>(val, xs, ys);
    }
    products_are_of_values::<R, BlockQ2K>(val, lhs, rhs, dst, m, k, n, 256, ok);
}

/// q3_K: the matrix product is that of the values.
pub proof fn q3k_product_is_of_values<R: Real>(
    val: spec_fn(R) -> real,
    lhs: Seq<R>,
    rhs: Seq<BlockQ3K>,
    dst: Seq<R>,
    m: int,
    k: int,
    n: int,
)
    requires
        exact(val),
        shaped(lhs.len(), rhs.len(), m, k, n, 256),
        dense_product::<R, BlockQ3K>(lhs, rhs, dst, m, k, n),
    ensures
        product_of_values::<R, BlockQ3K>(val, lhs, rhs, dst, m, k, n, 256),
{
    let ok = |y: BlockQ8K<R>| true;
    assert forall|xs: Seq<BlockQ3K>, ys: Seq<BlockQ8K<R>>| true implies val(
        #[trigger] <BlockQ3K as BlockFormat<R>>::dot_of(xs, ys),
    ) == values_product::<R, BlockQ3K, BlockQ8K<R>>(val, xs, ys, 256) by {
        q3k_dot_is_of_values::<R>(val, xs, ys);
    }
    products_are_of_values::<R, BlockQ3K>(val, lhs, rhs, dst, m, k, n, 256, ok);
}

/// q4_K: the matrix product is that of the values.
pub proof fn q4k_product_is_of_values<R: Real>(
    val: spec_fn(R) -> real,
    lhs: Seq<R>,
    rhs: Seq<BlockQ4K>,
    dst: Seq<R>,
    m: int,
    k: int,
    n: int,
)
    requires
        exact(val),
        shaped(lhs.len(), rhs.len(), m, k, n, 256),
        dense_product::<R, BlockQ4K>(lhs, rhs, dst, m, k, n),
    ensures
        product_of_values::<R, BlockQ4K>(val, lhs, rhs, dst, m, k, n, 256),
{
    let ok = |y: BlockQ8K<R>| sums_kept(y);
    assert forall|x: Seq<R>, b: BlockQ8K<R>| #[trigger]
        <BlockQ8K<R> as Quantized<R>>::encodes(x, b) implies ok(b) by {
        encoded_sums_are_kept::<R>(x, b);
    }
    assert forall|xs: Seq<BlockQ4K>, ys: Seq<BlockQ8K<R>>| (forall|j: int| 0 <= j < ys.len() ==> ok(#[trigger] ys[j])) implies val(
        #[trigger] <BlockQ4K as BlockFormat<R>>::dot_of(xs, ys),
    ) == values_product::<R, BlockQ4K, BlockQ8K<R>>(val, xs, ys, 256) by {
        assert forall|b: int| 0 <= b < ys.len() implies sums_kept(#[trigger] ys[b]) by {
            assert(ok(ys[b]));
        }
        q4k_dot_is_of_values::<R>(val, xs, ys);
    }
    products_are_of_values::<R, BlockQ4K>(val, lhs, rhs, dst, m, k, n, 256, ok);
}

/// q5_K: the matrix product is that of the values.
pub proof fn q5k_product_is_of_values<R: Real>(
    val: spec_fn(R) -> real,
    lhs: Seq<R>,
    rhs: Seq<BlockQ5K>,
    dst: Seq<R>,
    m: int,
    k: int,
    n: int,
)
    requires
        exact(val),
        shaped(lhs.len(), rhs.len(), m, k, n, 256),
        dense_product::<R, BlockQ5K>(lhs, rhs, dst, m, k, n),
    ensures
        product_of_values::<R, BlockQ5K>(val, lhs, rhs, dst, m, k, n, 256),
{
    let ok = |y: BlockQ8K<R>| sums_kept(y);
    assert forall|x: Seq<R>, b: BlockQ8K<R>| #[trigger]
        <BlockQ8K<R> as Quantized<R>>::encodes(x, b) implies ok(b) by {
        encoded_sums_are_kept::<R>(x, b);
    }
    assert forall|xs: Seq<BlockQ5K>, ys: Seq<BlockQ8K<R>>| (forall|j: int| 0 <= j < ys.len() ==> ok(#[trigger] ys[j])) implies val(
        #[trigger] <BlockQ5K as BlockFormat<R>>::dot_of(xs, ys),
    ) == values_product::<R, BlockQ5K, BlockQ8K<R>>(val, xs, ys, 256) by {
        assert forall|b: int| 0 <= b < ys.len() implies sums_kept(#[trigger] ys[b]) by {
            assert(ok(ys[b]));
        }
        q5k_dot_is_of_values::<R>(val, xs, ys);
    }
    products_are_of_values::<R, BlockQ5K>(val, lhs, rhs, dst, m, k, n, 256, ok);
}

/// q6_K: the matrix product is that of the values.
pub proof fn q6k_product_is_of_values<R: Real>(
    val: spec_fn(R) -> real,
    lhs: Seq<R>,
    rhs: Seq<BlockQ6K>,
    dst: Seq<R>,
    m: int,
    k: int,
    n: int,
)
    requires
        exact(val),
        shaped(lhs.len(), rhs.len(), m, k, n, 256),
        dense_product::<R, BlockQ6K>(lhs, rhs, dst, m, k, n),
    ensures
        product_of_values::<R, BlockQ6K>(val, lhs, rhs, dst, m, k, n, 256),
{
    let ok = |y: BlockQ8K<R>| sums_kept(y);
    assert forall|x: Seq<R>, b: BlockQ8K<R>| #[trigger]
        <BlockQ8K<R> as Quantized<R>>::encodes(x, b) implies ok(b) by {
        encoded_sums_are_kept::<R>(x, b);
    }
    assert forall|xs: Seq<BlockQ6K>, ys: Seq<BlockQ8K<R>>| (forall|j: int| 0 <= j < ys.len() ==> ok(#[trigger] ys[j])) implies val(
        #[trigger] <BlockQ6K as BlockFormat<R>>::dot_of(xs, ys),
    ) == values_product::<R, BlockQ6K, BlockQ8K<R>>(val, xs, ys, 256) by {
        assert forall|b: int| 0 <= b < ys.len() implies sums_kept(#[trigger] ys[b]) by {
            assert(ok(ys[b]));
        }
        q6k_dot_is_of_values::<R>(val, xs, ys);
    }
    products_are_of_values::<R, BlockQ6K>(val, lhs, rhs, dst, m, k, n, 256, ok);
}

/// q8_K: the matrix product is that of the values.
pub proof fn q8k_product_is_of_values<R: Real>(
    val: spec_fn(R) -> real,
    lhs: Seq<R>,
    rhs: Seq<BlockQ8K<R>>,
    dst: Seq<R>,
    m: int,
    k: int,
    n: int,
)
    requires
        exact(val),
        shaped(lhs.len(), rhs.len(), m, k, n, 256),
        dense_product::<R, BlockQ8K<R>>(lhs, rhs, dst, m, k, n),
    ensures
        product_of_values::<R, BlockQ8K<R>>(val, lhs, rhs, dst, m, k, n, 256),
{
    let ok = |y: BlockQ8K<R>| true;
    assert forall|xs: Seq<BlockQ8K<R>>, ys: Seq<BlockQ8K<R>>| true implies val(
        #[trigger] <BlockQ8K<R> as BlockFormat<R>>::dot_of(xs, ys),
    ) == values_product::<R, BlockQ8K<R>, BlockQ8K<R>>(val, xs, ys, 256) by {
        q8k_dot_is_of_values::<R>(val, xs, ys);
    }
    products_are_of_values::<R, BlockQ8K<R>>(val, lhs, rhs, dst, m, k, n, 256, ok);
}

/// iq2_xxs: the matrix product is that of the values.
pub proof fn iq2_product_is_of_values<R: Real>(
    val: spec_fn(R) -> real,
    lhs: Seq<R>,
    rhs: Seq<BlockIq2Xxs>,
    dst: Seq<R>,
    m: int,
    k: int,
    n: int,
)
    requires
        exact(val),
        shaped(lhs.len(), rhs.len(), m, k, n, 256),
        dense_product::<R, BlockIq2Xxs>(lhs, rhs, dst, m, k, n),
    ensures
        product_of_values::<R, BlockIq2Xxs>(val, lhs, rhs, dst, m, k, n, 256),
{
    let ok = |y: BlockQ8K<R>| true;
    assert forall|xs: Seq<BlockIq2Xxs>, ys: Seq<BlockQ8K<R>>| true implies val(
        #[trigger] <BlockIq2Xxs as BlockFormat<R>>::dot_of(xs, ys),
    ) == values_product::<R, BlockIq2Xxs, BlockQ8K<R>>(val, xs, ys, 256) by {
        iq2_dot_is_of_values::<R>(val, xs, ys);
    }
    products_are_of_values::<R, BlockIq2Xxs>(val, lhs, rhs, dst, m, k, n, 256, ok);
}

/// A half-precision product is the product of the numbers its activations stand for, each cell
/// rounded once.
pub proof fn half_products_are_products<R: Real, T: BlockFormat<R>>(
    lhs: Seq<Half>,
    wide: Seq<R>,
    rhs: Seq<T>,
    dst: Seq<Half>,
    m: int,
    k: int,
    n: int,
)
    requires
        half_product::<R, T>(lhs, rhs, dst, m, k, n),
        wide.len() == lhs.len(),
        forall|i: int| 0 <= i < lhs.len() ==> #[trigger] wide[i] == rhalf::<R>(lhs[i]),
    ensures
        exists|full: Seq<R>| #[trigger]
            dense_product::<R, T>(wide, rhs, full, m, k, n) && dst.len() == full.len() && forall|
                i: int,
            |
                0 <= i < dst.len() ==> #[trigger] dst[i] == rto_half::<R>(full[i]),
{
    let full = choose|full: Seq<R>| #[trigger]
        dense_product::<R, T>(crate::matmul::widened::<R>(lhs), rhs, full, m, k, n) && dst
            == crate::matmul::narrowed::<R>(full);
    assert(wide =~= crate::matmul::widened::<R>(lhs));
    assert(dense_product::<R, T>(wide, rhs, full, m, k, n));
}

} // verus!
