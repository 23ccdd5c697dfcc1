//! The formats whose blocks are the values themselves.
use vstd::prelude::*;
use crate::arith::{Brain, Half, Real, radd, rdiv, rexp, rhalf, rint, rmul, rneg, rto_half};
use crate::blocks::{BlockFormat, Quantized};
use crate::coded::{cell, shared};
use crate::exact::attention::Reading;
use crate::exact::carrier::{products, strides_are_plain};
use crate::exact::matrix::{
    place, product_of_values, products_are_of_values, shaped, taken,
};
use crate::exact::numbers::{exact, lemma_rsum_eq, rsum};
use crate::exact::rows::{lemma_logistic, reads_roots};
use crate::exact::values::{block_values, values_product};
use crate::float::{Carrier, Single};
use crate::matmul::{dense_product, gated_product};
use crate::ops::activation::{half_gated, silu_at};

verus! {

proof fn lemma_plain<R: Real, C: Carrier<R> + Quantized<R>>(
    val: spec_fn(R) -> real,
    xs: Seq<C>,
    ys: Seq<C>,
)
    requires
        exact(val),
        forall|c: C, e: int| #[trigger] <C as Quantized<R>>::value(c, e) == <C as Carrier<R>>::stands_for(
            c,
        ),
    ensures
        products::<R, C>(val, xs, ys, shared(xs.len(), ys.len())) == values_product::<R, C, C>(
            val,
            xs,
            ys,
            1,
        ),
{
    let n = shared(xs.len(), ys.len());
    let f = |i: int|
        val(<C as Carrier<R>>::stands_for(xs[i])) * val(<C as Carrier<R>>::stands_for(ys[i]));
    let g = |b: int| block_values::<R, C, C>(val, xs[b], ys[b], 1);
    assert forall|b: int| 0 <= b < n implies #[trigger] f(b) == g(b) by {
        let h = |e: int|
            val(<C as Quantized<R>>::value(xs[b], e)) * val(<C as Quantized<R>>::value(ys[b], e));
        assert(rsum(1, h) == rsum(0, h) + h(0));
        assert(g(b) == rsum(1, h));
    }
    lemma_rsum_eq(n, f, g);
}

/// The product of two runs of f32 values is that of the values.
pub proof fn single_dot_is_of_values<R: Real>(
    val: spec_fn(R) -> real,
    xs: Seq<Single<R>>,
    ys: Seq<Single<R>>,
)
    requires
        exact(val),
    ensures
        val(<Single<R> as BlockFormat<R>>::dot_of(xs, ys)) == values_product::<R, Single<R>, Single<R>>(
            val,
            xs,
            ys,
            1,
        ),
{
    strides_are_plain::<R, Single<R>>(val, xs, ys, shared(xs.len(), ys.len()));
    lemma_plain::<R, Single<R>>(val, xs, ys);
}

/// The matrix product over f32 weights is that of the values.
pub proof fn single_product_is_of_values<R: Real>(
    val: spec_fn(R) -> real,
    lhs: Seq<R>,
    rhs: Seq<Single<R>>,
    dst: Seq<R>,
    m: int,
    k: int,
    n: int,
)
    requires
        exact(val),
        shaped(lhs.len(), rhs.len(), m, k, n, 1),
        dense_product::<R, Single<R>>(lhs, rhs, dst, m, k, n),
    ensures
        product_of_values::<R, Single<R>>(val, lhs, rhs, dst, m, k, n, 1),
{
    let ok = |y: Single<R>| true;
    assert forall|xs: Seq<Single<R>>, ys: Seq<Single<R>>| true implies val(
        #[trigger] <Single<R> as BlockFormat<R>>::dot_of(xs, ys),
    ) == values_product::<R, Single<R>, Single<R>>(val, xs, ys, 1) by {
        single_dot_is_of_values::<R>(val, xs, ys);
    }
    products_are_of_values::<R, Single<R>>(val, lhs, rhs, dst, m, k, n, 1, ok);
}

/// The product of two runs of f16 values is that of the values.
pub proof fn half_dot_is_of_values<R: Real>(
    val: spec_fn(R) -> real,
    xs: Seq<Half>,
    ys: Seq<Half>,
)
    requires
        exact(val),
    ensures
        val(<Half as BlockFormat<R>>::dot_of(xs, ys)) == values_product::<R, Half, Half>(
            val,
            xs,
            ys,
            1,
        ),
{
    strides_are_plain::<R, Half>(val, xs, ys, shared(xs.len(), ys.len()));
    lemma_plain::<R, Half>(val, xs, ys);
}

/// The matrix product over f16 weights is that of the values.
pub proof fn half_product_is_of_values<R: Real>(
    val: spec_fn(R) -> real,
    lhs: Seq<R>,
    rhs: Seq<Half>,
    dst: Seq<R>,
    m: int,
    k: int,
    n: int,
)
    requires
        exact(val),
        shaped(lhs.len(), rhs.len(), m, k, n, 1),
        dense_product::<R, Half>(lhs, rhs, dst, m, k, n),
    ensures
        product_of_values::<R, Half>(val, lhs, rhs, dst, m, k, n, 1),
{
    let ok = |y: Half| true;
    assert forall|xs: Seq<Half>, ys: Seq<Half>| true implies val(
        #[trigger] <Half as BlockFormat<R>>::dot_of(xs, ys),
    ) == values_product::<R, Half, Half>(val, xs, ys, 1) by {
        half_dot_is_of_values::<R>(val, xs, ys);
    }
    products_are_of_values::<R, Half>(val, lhs, rhs, dst, m, k, n, 1, ok);
}

/// The product of two runs of bf16 values is that of the values.
pub proof fn brain_dot_is_of_values<R: Real>(
    val: spec_fn(R) -> real,
    xs: Seq<Brain>,
    ys: Seq<Brain>,
)
    requires
        exact(val),
    ensures
        val(<Brain as BlockFormat<R>>::dot_of(xs, ys)) == values_product::<R, Brain, Brain>(
            val,
            xs,
            ys,
            1,
        ),
{
    strides_are_plain::<R, Brain>(val, xs, ys, shared(xs.len(), ys.len()));
    lemma_plain::<R, Brain>(val, xs, ys);
}

/// The matrix product over bf16 weights is that of the values.
pub proof fn brain_product_is_of_values<R: Real>(
    val: spec_fn(R) -> real,
    lhs: Seq<R>,
    rhs: Seq<Brain>,
    dst: Seq<R>,
    m: int,
    k: int,
    n: int,
)
    requires
        exact(val),
        shaped(lhs.len(), rhs.len(), m, k, n, 1),
        dense_product::<R, Brain>(lhs, rhs, dst, m, k, n),
    ensures
        product_of_values::<R, Brain>(val, lhs, rhs, dst, m, k, n, 1),
{
    let ok = |y: Brain| true;
    assert forall|xs: Seq<Brain>, ys: Seq<Brain>| true implies val(
        #[trigger] <Brain as BlockFormat<R>>::dot_of(xs, ys),
    ) == values_product::<R, Brain, Brain>(val, xs, ys, 1) by {
        brain_dot_is_of_values::<R>(val, xs, ys);
    }
    products_are_of_values::<R, Brain>(val, lhs, rhs, dst, m, k, n, 1, ok);
}

/// Two half-precision projections, `g` gating `u`: each answer is the rounding of a number that, times
/// `1 + exp(-g)`, is `g * u`.
pub proof fn half_gates_weigh_by_the_logistic<R: Real>(
    m: Reading<R>,
    g: Seq<Half>,
    u: Seq<Half>,
    i: int,
)
    requires
        m.faithful(),
        reads_roots(m),
        0 <= i < g.len(),
        (m.finite)(rhalf::<R>(g[i])),
        (m.finite)(rhalf::<R>(u[i])),
    ensures
        exists|y: R|
            half_gated::<R>(g, u)[i] == #[trigger] rto_half::<R>(y) && (m.finite)(y) && (m.val)(y) * (
            1 as real + (m.exp)(-(m.val)(rhalf::<R>(g[i])))) == (m.val)(rhalf::<R>(g[i])) * (m.val)(
                rhalf::<R>(u[i]),
            ),
{
    let (gv, uv) = (rhalf::<R>(g[i]), rhalf::<R>(u[i]));
    lemma_logistic(m, gv);
    let y = rmul(silu_at(gv), uv);
    let (a, b, d) = ((m.val)(silu_at(gv)), (m.val)(uv), 1 as real + (m.exp)(-(m.val)(gv)));
    assert((a * b) * d == (a * d) * b) by (nonlinear_arith);
    assert(half_gated::<R>(g, u)[i] == rto_half::<R>(y));
}

/// Cell `(row, col)` of a gated product: of the two products `g` and `u` of a row, the rounding of
/// `g / (1 + exp(-g)) * u`.
pub open spec fn gated_cell<R: Real, T: BlockFormat<R>>(
    gate: Seq<T>,
    up: Seq<T>,
    acts: Seq<T::ActivationBlock>,
    kb: int,
    row: int,
    col: int,
    y: Half,
) -> bool {
    let a = acts.subrange(row * kb, row * kb + kb);
    let g = T::dot_of(gate.subrange(col * kb, col * kb + kb), a);
    let u = T::dot_of(up.subrange(col * kb, col * kb + kb), a);
    y == rto_half::<R>(rmul(rdiv(g, radd(rint::<R>(1), rexp(rneg(g)))), u))
}

/// Gate and up projections of one half-precision activation: both products are taken of the same
/// encoded rows.
pub proof fn gated_products_share_their_rows<R: Real, T: BlockFormat<R>>(
    lhs: Seq<Half>,
    wide: Seq<R>,
    gate: Seq<T>,
    up: Seq<T>,
    dst: Seq<Half>,
    m: int,
    k: int,
    n: int,
    w: nat,
)
    requires
        gated_product::<R, T>(lhs, gate, up, dst, m, k, n),
        T::width() == w,
        T::ActivationBlock::width() == w,
        0 < w,
        wide.len() == lhs.len(),
        forall|i: int| 0 <= i < lhs.len() ==> #[trigger] wide[i] == rhalf::<R>(lhs[i]),
    ensures
        exists|acts: Seq<T::ActivationBlock>| #[trigger]
            taken::<R, T::ActivationBlock>(wide, acts, w as int) && dst.len() == m * n && forall|
                row: int,
                col: int,
            |
                0 <= row < m && 0 <= col < n ==> gated_cell::<R, T>(
                    gate,
                    up,
                    acts,
                    k / w as int,
                    row,
                    col,
                    dst[#[trigger] place(n, row, col)],
                ),
{
    let acts = choose|acts: Seq<T::ActivationBlock>| #[trigger]
        crate::tiled::quantised::<R, T::ActivationBlock>(crate::matmul::widened::<R>(lhs), acts)
            && dst.len() == m * n && (forall|row: int, col: int|
            0 <= row < m && 0 <= col < n ==> dst[#[trigger] cell(n, row, col)] == rto_half::<R>(
                rmul(
                    crate::matmul::silu_of(
                        crate::matmul::dense_cell::<R, T>(
                            gate,
                            acts,
                            k / T::width() as int,
                            row,
                            col,
                        ),
                    ),
                    crate::matmul::dense_cell::<R, T>(up, acts, k / T::width() as int, row, col),
                ),
            ));
    assert(wide =~= crate::matmul::widened::<R>(lhs));
    assert forall|b: int| 0 <= b < acts.len() implies T::ActivationBlock::encodes(
        wide.subrange(b * w, b * w + w),
        #[trigger] acts[b],
    ) by {
        assert(T::ActivationBlock::encodes(crate::blocks::run(wide, b, w as int), acts[b]));
    }
    assert(taken::<R, T::ActivationBlock>(wide, acts, w as int));
    assert forall|row: int, col: int| 0 <= row < m && 0 <= col < n implies gated_cell::<R, T>(
        gate,
        up,
        acts,
        k / w as int,
        row,
        col,
        dst[#[trigger] place(n, row, col)],
    ) by {
        assert(cell(n, row, col) == place(n, row, col));
    }
}

} // verus!
