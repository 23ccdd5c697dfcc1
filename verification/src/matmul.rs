//! The matrix product over blocks as they are stored: `[m, k]` values against `[n, k]` weights.
//!
//! The activation is quantised once, row by row, to the block type its weights meet; each cell of
//! the output is then one dot product. Which worker computes which cell does not enter the
//! result: a cell is the format's own product of a row and a column, and `dot_columns` is what a
//! worker runs for the chunk it was handed.
use vstd::prelude::*;
use crate::arith::{
    Half, Real, lawful, radd, rdiv, rexp, rhalf, rint, rmul, rneg, rto_half, exp, int_to, narrow,
    neg, over, plus, times, widen, zero,
};
use crate::blocks::{BlockFormat, Quantized};
use crate::coded::cell;
use crate::error::{Entry, Error};
use crate::grid::lemma_cell_inside;
use crate::tiled::{quantised, quantize_all, span, span_of};

verus! {

/// `a * b`, where it fits.
pub fn product_fits(a: usize, b: usize) -> (r: Option<usize>)
    ensures
        r matches Some(p) ==> p == a * b,
        r is None ==> a * b > usize::MAX,
{
    a.checked_mul(b)
}

/// Cell `(row, col)` of a product: the format's product of a column and a quantised row.
pub open spec fn dense_cell<R: Real, T: BlockFormat<R>>(
    rhs: Seq<T>,
    acts: Seq<T::ActivationBlock>,
    kb: int,
    row: int,
    col: int,
) -> R {
    T::dot_of(span(rhs, col, kb), span(acts, row, kb))
}

/// `dst` is the product of the weights and the quantised rows.
pub open spec fn dense_cells<R: Real, T: BlockFormat<R>>(
    rhs: Seq<T>,
    acts: Seq<T::ActivationBlock>,
    dst: Seq<R>,
    m: int,
    n: int,
    kb: int,
) -> bool {
    &&& dst.len() == m * n
    &&& forall|row: int, col: int|
        0 <= row < m && 0 <= col < n ==> dst[#[trigger] cell(n, row, col)] == dense_cell::<R, T>(
            rhs,
            acts,
            kb,
            row,
            col,
        )
}

/// `dst` is `lhs` against the weights, `lhs` quantised to the block type the weights meet.
pub open spec fn dense_product<R: Real, T: BlockFormat<R>>(
    lhs: Seq<R>,
    rhs: Seq<T>,
    dst: Seq<R>,
    m: int,
    k: int,
    n: int,
) -> bool {
    exists|acts: Seq<T::ActivationBlock>| #[trigger]
        quantised::<R, T::ActivationBlock>(lhs, acts) && dense_cells::<R, T>(
            rhs,
            acts,
            dst,
            m,
            n,
            k / T::width() as int,
        )
}

/// The products of one quantised row with columns `c0 .. c1`.
pub fn dot_columns<R: Real, T: BlockFormat<R>>(
    rhs: &[T],
    act: &[T::ActivationBlock],
    kb: usize,
    c0: usize,
    c1: usize,
) -> (out: Vec<R>)
    requires
        lawful::<R>(),
        c0 <= c1,
        c1 * kb <= rhs@.len(),
    ensures
        out@.len() == c1 - c0,
        forall|i: int|
            0 <= i < out@.len() ==> #[trigger] out@[i] == T::dot_of(
                span(rhs@, c0 + i, kb as int),
                act@,
            ),
{
    let mut out: Vec<R> = Vec::with_capacity(c1 - c0);
    for c in c0..c1
        invariant
            lawful::<R>(),
            c0 <= c1,
            c1 * kb <= rhs@.len(),
            out@.len() == c - c0,
            forall|i: int|
                0 <= i < out@.len() ==> #[trigger] out@[i] == T::dot_of(
                    span(rhs@, c0 + i, kb as int),
                    act@,
                ),
    {
        assert((c + 1) * kb <= c1 * kb) by (nonlinear_arith)
            requires
                c + 1 <= c1,
                0 <= kb,
        ;
        out.push(T::dot(span_of(rhs, c, kb), act));
    }
    out
}

/// Every cell of a product, row by row.
pub(crate) fn all_cells<R: Real, T: BlockFormat<R>>(
    m: usize,
    n: usize,
    kb: usize,
    rhs: &[T],
    acts: &[T::ActivationBlock],
) -> (out: Vec<R>)
    requires
        lawful::<R>(),
        n * kb <= rhs@.len(),
        acts@.len() == m * kb,
    ensures
        dense_cells::<R, T>(rhs@, acts@, out@, m as int, n as int, kb as int),
{
    let mut out: Vec<R> = Vec::new();
    assert(0 * n == 0) by (nonlinear_arith);
    for row in 0..m
        invariant
            lawful::<R>(),
            n * kb <= rhs@.len(),
            acts@.len() == m * kb,
            out@.len() == row * n,
            forall|r: int, c: int|
                0 <= r < row && 0 <= c < n ==> out@[#[trigger] cell(n as int, r, c)] == dense_cell::<
                    R,
                    T,
                >(rhs@, acts@, kb as int, r, c),
    {
        assert((row + 1) * kb <= m * kb) by (nonlinear_arith)
            requires
                row + 1 <= m,
                0 <= kb,
        ;
        let act = span_of(acts, row, kb);
        let mut dots = dot_columns::<R, T>(rhs, act, kb, 0, n);
        let ghost fresh = dots@;
        let ghost before = out@;
        out.append(&mut dots);
        assert((row + 1) * n == row * n + n) by (nonlinear_arith);
        assert forall|r: int, c: int| 0 <= r < row + 1 && 0 <= c < n implies out@[#[trigger] cell(
            n as int,
            r,
            c,
        )] == dense_cell::<R, T>(rhs@, acts@, kb as int, r, c) by {
            if r < row {
                lemma_cell_inside(row as int, n as int, r, c);
                assert(out@[cell(n as int, r, c)] == before[cell(n as int, r, c)]);
            } else {
                assert(out@[row * n + c] == fresh[c]);
            }
        }
    }
    out
}

/// Copy one run over another.
pub fn copy_over<T: Copy>(src: &[T], dst: &mut [T])
    requires
        src@.len() == old(dst)@.len(),
    ensures
        final(dst)@ == src@,
{
    let n: usize = src.len();
    for i in 0..n
        invariant
            n == src@.len(),
            n == dst@.len(),
            forall|j: int| 0 <= j < i ==> #[trigger] dst@[j] == src@[j],
    {
        dst[i] = src[i];
    }
    assert(dst@ =~= src@);
}

/// `lhs [m, k]` against `rhs_t [n, k]`, into `dst [m, n]`, for `shape` = `(m, k, n)`.
///
/// An activation whose length is not the one its shape says is refused and nothing is written.
pub fn matmul<R: Real, T: BlockFormat<R>>(
    shape: (usize, usize, usize),
    lhs: &[R],
    rhs_t: &[T],
    dst: &mut [R],
) -> (r: Result<(), Error>)
    requires
        lawful::<R>(),
        T::width() == T::ActivationBlock::width(),
        shape.1 as int % T::width() as int == 0,
        shape.2 * (shape.1 as int / T::width() as int) <= rhs_t@.len(),
        old(dst)@.len() == shape.0 * shape.2,
    ensures
        r is Ok <==> lhs@.len() == shape.0 * shape.1,
        r is Ok ==> dense_product::<R, T>(
            lhs@,
            rhs_t@,
            final(dst)@,
            shape.0 as int,
            shape.1 as int,
            shape.2 as int,
        ),
        r matches Err(e) ==> e == (Error::Activation {
            entry: Entry::Matmul,
            len: lhs@.len() as usize,
            m: shape.0,
            k: shape.1,
            n: shape.2,
        }) && final(dst)@ == old(dst)@,
{
    let (m, k, n) = shape;
    let len: usize = lhs.len();
    let fits = match product_fits(m, k) {
        Some(p) => p == len,
        None => false,
    };
    if !fits {
        return Err(Error::Activation { entry: Entry::Matmul, len, m, k, n });
    }
    let acts = quantize_rows::<R, T::ActivationBlock>(lhs, m, k);
    let kb: usize = k / T::block_len();
    let out = all_cells::<R, T>(m, n, kb, rhs_t, &acts);
    copy_over(&out, dst);
    Ok(())
}

/// Quantise a row-major `[m, k]` activation.
pub fn quantize_rows<R: Real, B: Quantized<R>>(lhs: &[R], m: usize, k: usize) -> (out: Vec<B>)
    requires
        lawful::<R>(),
        k as int % B::width() as int == 0,
        lhs@.len() == m * k,
    ensures
        quantised::<R, B>(lhs@, out@),
        out@.len() == m * (k as int / B::width() as int),
{
    let w: usize = B::block_len();
    let kb: usize = k / w;
    proof {
        vstd::arithmetic::div_mod::lemma_fundamental_div_mod(k as int, w as int);
        assert(m * k == (m * kb) * w) by (nonlinear_arith)
            requires
                k == w * kb,
        ;
        vstd::arithmetic::div_mod::lemma_mod_multiples_basic(m * kb, w as int);
    }
    let out = quantize_all::<R, B>(lhs);
    assert(out@.len() == m * kb) by {
        assert(out@.len() * w == (m * kb) * w);
        vstd::arithmetic::mul::lemma_mul_equality_converse(w as int, out@.len() as int, m * kb);
    }
    out
}

// -- half-precision activations --

/// The values half-precision numbers stand for.
pub open spec fn widened<R: Real>(x: Seq<Half>) -> Seq<R> {
    Seq::new(x.len(), |i: int| rhalf::<R>(x[i]))
}

/// The values half-precision numbers stand for.
pub fn widen_all<R: Real>(x: &[Half]) -> (out: Vec<R>)
    requires
        lawful::<R>(),
    ensures
        out@ == widened::<R>(x@),
{
    let mut out: Vec<R> = Vec::with_capacity(x.len());
    for i in 0..x.len()
        invariant
            lawful::<R>(),
            out@.len() == i,
            forall|j: int| 0 <= j < i ==> #[trigger] out@[j] == rhalf::<R>(x@[j]),
    {
        out.push(widen(x[i]));
    }
    assert(out@ =~= widened::<R>(x@));
    out
}

/// `dst` is the product, rounded to half precision.
pub open spec fn half_product<R: Real, T: BlockFormat<R>>(
    lhs: Seq<Half>,
    rhs: Seq<T>,
    dst: Seq<Half>,
    m: int,
    k: int,
    n: int,
) -> bool {
    exists|full: Seq<R>| #[trigger]
        dense_product::<R, T>(widened::<R>(lhs), rhs, full, m, k, n) && dst == narrowed::<R>(full)
}

/// Values rounded to half precision.
pub open spec fn narrowed<R: Real>(x: Seq<R>) -> Seq<Half> {
    Seq::new(x.len(), |i: int| rto_half::<R>(x[i]))
}

/// Round each value to half precision.
fn narrow_over<R: Real>(src: &[R], dst: &mut [Half])
    requires
        lawful::<R>(),
        src@.len() == old(dst)@.len(),
    ensures
        final(dst)@ == narrowed::<R>(src@),
{
    let n: usize = src.len();
    for i in 0..n
        invariant
            lawful::<R>(),
            n == src@.len(),
            n == dst@.len(),
            forall|j: int| 0 <= j < i ==> #[trigger] dst@[j] == rto_half::<R>(src@[j]),
    {
        dst[i] = narrow(src[i]);
    }
    assert(dst@ =~= narrowed::<R>(src@));
}

/// The product of a half-precision activation, rounded to half precision.
pub fn matmul_f16<R: Real, T: BlockFormat<R>>(
    shape: (usize, usize, usize),
    lhs: &[Half],
    rhs_t: &[T],
    dst: &mut [Half],
) -> (r: Result<(), Error>)
    requires
        lawful::<R>(),
        T::width() == T::ActivationBlock::width(),
        shape.1 as int % T::width() as int == 0,
        shape.2 * (shape.1 as int / T::width() as int) <= rhs_t@.len(),
        old(dst)@.len() == shape.0 * shape.2,
    ensures
        r is Ok <==> lhs@.len() == shape.0 * shape.1,
        r is Ok ==> half_product::<R, T>(
            lhs@,
            rhs_t@,
            final(dst)@,
            shape.0 as int,
            shape.1 as int,
            shape.2 as int,
        ),
        r matches Err(e) ==> e == (Error::Activation {
            entry: Entry::MatmulF16,
            len: lhs@.len() as usize,
            m: shape.0,
            k: shape.1,
            n: shape.2,
        }) && final(dst)@ == old(dst)@,
{
    let room: usize = dst.len();
    let wide = widen_all::<R>(lhs);
    let mut full: Vec<R> = crate::sums::filled(zero::<R>(), room);
    if matmul::<R, T>(shape, &wide, rhs_t, &mut full).is_err() {
        let (m, k, n) = shape;
        return Err(Error::Activation { entry: Entry::MatmulF16, len: lhs.len(), m, k, n });
    }
    narrow_over(&full, dst);
    assert(dense_product::<R, T>(
        widened::<R>(lhs@),
        rhs_t@,
        full@,
        shape.0 as int,
        shape.1 as int,
        shape.2 as int,
    ));
    Ok(())
}

/// `g` times its logistic.
pub open spec fn silu_of<R: Real>(g: R) -> R {
    rdiv(g, radd(rint::<R>(1), rexp(rneg(g))))
}

/// `g` times its logistic.
pub fn silu_value<R: Real>(g: R) -> (r: R)
    requires
        lawful::<R>(),
    ensures
        r == silu_of(g),
{
    over(g, plus(int_to::<R>(1), exp(neg(g))))
}

/// `dst` is `silu(gate) * up`, rounded to half precision once.
pub open spec fn gated_product<R: Real, T: BlockFormat<R>>(
    lhs: Seq<Half>,
    gate: Seq<T>,
    up: Seq<T>,
    dst: Seq<Half>,
    m: int,
    k: int,
    n: int,
) -> bool {
    exists|acts: Seq<T::ActivationBlock>| #[trigger]
        quantised::<R, T::ActivationBlock>(widened::<R>(lhs), acts) && dst.len() == m * n && (
        forall|row: int, col: int|
            0 <= row < m && 0 <= col < n ==> dst[#[trigger] cell(n, row, col)] == rto_half::<R>(
                rmul(
                    silu_of(dense_cell::<R, T>(gate, acts, k / T::width() as int, row, col)),
                    dense_cell::<R, T>(up, acts, k / T::width() as int, row, col),
                ),
            ))
}

/// Gate and up projections of one half-precision activation, quantised once, and
/// `silu(gate) * up` of them.
pub fn matmul_f16_gate_up_silu<R: Real, T: BlockFormat<R>>(
    shape: (usize, usize, usize),
    lhs: &[Half],
    gate_t: &[T],
    up_t: &[T],
    dst: &mut [Half],
) -> (r: Result<(), Error>)
    requires
        lawful::<R>(),
        T::width() == T::ActivationBlock::width(),
        shape.1 as int % T::width() as int == 0,
        shape.2 * (shape.1 as int / T::width() as int) <= gate_t@.len(),
        shape.2 * (shape.1 as int / T::width() as int) <= up_t@.len(),
        old(dst)@.len() == shape.0 * shape.2,
    ensures
        r is Ok <==> lhs@.len() == shape.0 * shape.1,
        r is Ok ==> gated_product::<R, T>(
            lhs@,
            gate_t@,
            up_t@,
            final(dst)@,
            shape.0 as int,
            shape.1 as int,
            shape.2 as int,
        ),
        r matches Err(e) ==> e == (Error::Activation {
            entry: Entry::GateUpSilu,
            len: lhs@.len() as usize,
            m: shape.0,
            k: shape.1,
            n: shape.2,
        }) && final(dst)@ == old(dst)@,
{
    let (m, k, n) = shape;
    let len: usize = lhs.len();
    let fits = match product_fits(m, k) {
        Some(p) => p == len,
        None => false,
    };
    if !fits {
        return Err(Error::Activation { entry: Entry::GateUpSilu, len, m, k, n });
    }
    let wide = widen_all::<R>(lhs);
    let acts = quantize_rows::<R, T::ActivationBlock>(&wide, m, k);
    let kb: usize = k / T::block_len();
    let g = all_cells::<R, T>(m, n, kb, gate_t, &acts);
    let u = all_cells::<R, T>(m, n, kb, up_t, &acts);
    let room: usize = dst.len();
    for i in 0..room
        invariant
            lawful::<R>(),
            room == dst@.len(),
            g@.len() == room,
            u@.len() == room,
            forall|j: int|
                0 <= j < i ==> #[trigger] dst@[j] == rto_half::<R>(rmul(silu_of(g@[j]), u@[j])),
    {
        dst[i] = narrow(times(silu_value(g[i]), u[i]));
    }
    assert forall|row: int, col: int| 0 <= row < m && 0 <= col < n implies dst@[#[trigger] cell(
        n as int,
        row,
        col,
    )] == rto_half::<R>(
        rmul(
            silu_of(dense_cell::<R, T>(gate_t@, acts@, kb as int, row, col)),
            dense_cell::<R, T>(up_t@, acts@, kb as int, row, col),
        ),
    ) by {
        lemma_cell_inside(m as int, n as int, row, col);
        assert(g@[cell(n as int, row, col)] == dense_cell::<R, T>(
            gate_t@,
            acts@,
            kb as int,
            row,
            col,
        ));
        assert(u@[cell(n as int, row, col)] == dense_cell::<R, T>(
            up_t@,
            acts@,
            kb as int,
            row,
            col,
        ));
    }
    assert(quantised::<R, T::ActivationBlock>(widened::<R>(lhs@), acts@));
    Ok(())
}

} // verus!
