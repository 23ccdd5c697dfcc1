//! Normalisation as an operation, for callers holding a raw weight tensor.
use vstd::prelude::*;
use crate::arith::{
    Real, count_to, lawful, over, plus, radd, rcount, rdiv, rmul, rsqrt, sqrt, times, zero,
};
use crate::error::Error;
use crate::ffn::NormFn;
use crate::ops::rows::{lemma_no_rows, lemma_row_appended, rows_of, rowwise};
use crate::sums::fsum;
use crate::tensor::{
    Pairwise, Tensor, broadcast, copy_run, elems, joined, lemma_stretches_to_itself,
    stretched_pairs,
};
use crate::tiled::{span, span_of};

verus! {

/// The root of the mean of a row's squares and `eps`.
pub open spec fn rms<R: Real>(row: Seq<R>, eps: R) -> R {
    rsqrt(
        radd(
            rdiv(
                fsum(row.len(), |i: int| rmul(row[i], row[i])),
                rcount::<R>(row.len() as usize),
            ),
            eps,
        ),
    )
}

/// A row over its root mean square.
pub open spec fn levelled<R: Real>(row: Seq<R>, eps: R) -> Seq<R> {
    Seq::new(row.len(), |i: int| rdiv(row[i], rms(row, eps)))
}

/// A row over its root mean square, each value times its weight.
pub open spec fn normed<R: Real>(row: Seq<R>, w: Seq<R>, eps: R) -> Seq<R> {
    Seq::new(row.len(), |i: int| rmul(rdiv(row[i], rms(row, eps)), w[i]))
}

/// Every row normalised.
pub open spec fn norm_rows<R: Real>(x: Seq<R>, w: Seq<R>, eps: R, hidden: int) -> spec_fn(
    int,
) -> Seq<R> {
    |r: int| normed(span(x, r, hidden), w, eps)
}

/// Every row levelled.
pub open spec fn level_rows<R: Real>(x: Seq<R>, eps: R, hidden: int) -> spec_fn(int) -> Seq<R> {
    |r: int| levelled(span(x, r, hidden), eps)
}

/// A row's root mean square.
fn rms_of<R: Real>(row: &[R], eps: R) -> (r: R)
    requires
        lawful::<R>(),
    ensures
        r == rms(row@, eps),
{
    let n: usize = row.len();
    let ghost f = |i: int| rmul(row@[i], row@[i]);
    let mut ss = zero::<R>();
    for i in 0..n
        invariant
            lawful::<R>(),
            n == row@.len(),
            f == |i: int| rmul(row@[i], row@[i]),
            ss == fsum(i as nat, f),
    {
        ss = plus(ss, times(row[i], row[i]));
    }
    sqrt(plus(over(ss, count_to::<R>(n)), eps))
}

/// A levelled row.
fn level_row<R: Real>(row: &[R], eps: R) -> (out: Vec<R>)
    requires
        lawful::<R>(),
    ensures
        out@ == levelled(row@, eps),
{
    let d = rms_of(row, eps);
    let mut out: Vec<R> = Vec::with_capacity(row.len());
    for i in 0..row.len()
        invariant
            lawful::<R>(),
            d == rms(row@, eps),
            out@.len() == i,
            forall|k: int| 0 <= k < i ==> #[trigger] out@[k] == levelled(row@, eps)[k],
    {
        out.push(over(row[i], d));
    }
    assert(out@ =~= levelled(row@, eps));
    out
}

/// A normalised row.
fn norm_row<R: Real>(row: &[R], w: &[R], eps: R) -> (out: Vec<R>)
    requires
        lawful::<R>(),
        row@.len() == w@.len(),
    ensures
        out@ == normed(row@, w@, eps),
{
    let d = rms_of(row, eps);
    let mut out: Vec<R> = Vec::with_capacity(row.len());
    for i in 0..row.len()
        invariant
            lawful::<R>(),
            row@.len() == w@.len(),
            d == rms(row@, eps),
            out@.len() == i,
            forall|k: int| 0 <= k < i ==> #[trigger] out@[k] == normed(row@, w@, eps)[k],
    {
        out.push(times(over(row[i], d), w[i]));
    }
    assert(out@ =~= normed(row@, w@, eps));
    out
}

/// Every row of a tensor over its root mean square.
pub(crate) fn level_all<R: Real>(x: &Tensor<R>, eps: R) -> (r: Result<Tensor<R>, Error>)
    requires
        lawful::<R>(),
        x.wf(),
    ensures
        r is Ok <==> x.dims@.len() > 0,
        r matches Err(e) ==> e == (Error::Rank { want: 1, have: 0 }),
        r matches Ok(t) ==> t.wf() && t.dims@ == x.dims@ && rowwise(
            t.data@,
            elems(x.dims@.drop_last()),
            x.last_dim(),
            level_rows(x.data@, eps, x.last_dim()),
        ),
{
    let hidden: usize = match x.last() {
        Ok(n) => n,
        Err(e) => return Err(e),
    };
    if hidden == 0 {
        assert(elems(x.dims@.drop_last()) * 0 == 0) by (nonlinear_arith);
        return Ok(x.copied());
    }
    let n: usize = rows_of(x, hidden);
    let size: usize = x.data.len();
    let ghost f = level_rows(x.data@, eps, hidden as int);
    let mut data: Vec<R> = Vec::with_capacity(size);
    proof {
        lemma_no_rows(hidden as int, f);
    }
    for r in 0..n
        invariant
            lawful::<R>(),
            n * hidden == x.data@.len(),
            f == level_rows(x.data@, eps, hidden as int),
            rowwise(data@, r as int, hidden as int, f),
    {
        assert((r + 1) * hidden <= n * hidden) by (nonlinear_arith)
            requires
                r + 1 <= n,
                0 <= hidden,
        ;
        let row = span_of(&x.data, r, hidden);
        let mut out = level_row(row, eps);
        proof {
            lemma_row_appended(data@, out@, r as int, hidden as int, f);
        }
        data.append(&mut out);
    }
    Ok(Tensor { dims: copy_run(&x.dims), data })
}

/// What normalising gives. A weight of one value for each of the last dimension is applied row by
/// row; any other is stretched over the levelled rows.
pub open spec fn norms<R: Real>(
    x: Tensor<R>,
    weight: Tensor<R>,
    eps: R,
    r: Result<Tensor<R>, Error>,
) -> bool {
    let dims = joined(x.dims@, weight.dims@);
    if x.dims@.len() == 0 {
        r == Err::<Tensor<R>, Error>(Error::Rank { want: 1, have: 0 })
    } else if weight.dims@ == seq![x.dims@.last()] {
        r is Ok && r->Ok_0.wf() && r->Ok_0.dims@ == x.dims@ && rowwise(
            r->Ok_0.data@,
            elems(x.dims@.drop_last()),
            x.last_dim(),
            norm_rows(x.data@, weight.data@, eps, x.last_dim()),
        )
    } else if dims is None || elems(dims->0) > usize::MAX {
        r == Err::<Tensor<R>, Error>(Error::Shape)
    } else {
        r is Ok && r->Ok_0.wf() && r->Ok_0.dims@ == dims->0 && exists|level: Seq<R>| #[trigger]
            weighs(x, weight, eps, level, r->Ok_0.data@)
    }
}

/// `out` is the weight, stretched over the levelled rows.
pub open spec fn weighs<R: Real>(
    x: Tensor<R>,
    weight: Tensor<R>,
    eps: R,
    level: Seq<R>,
    out: Seq<R>,
) -> bool {
    &&& rowwise(
        level,
        elems(x.dims@.drop_last()),
        x.last_dim(),
        level_rows(x.data@, eps, x.last_dim()),
    )
    &&& out == stretched_pairs(Pairwise::Product, x.dims@, level, weight.dims@, weight.data@)
}

/// RMS normalisation: `x / sqrt(mean(x^2, last_dim) + eps) * weight`.
pub fn rms_norm<R: Real>(x: &Tensor<R>, weight: &Tensor<R>, eps: R) -> (r: Result<
    Tensor<R>,
    Error,
>)
    requires
        lawful::<R>(),
        x.wf(),
        weight.wf(),
    ensures
        norms(*x, *weight, eps, r),
{
    let hidden: usize = match x.last() {
        Ok(n) => n,
        Err(e) => return Err(e),
    };
    let wrank: usize = weight.dims.len();
    let plain = wrank == 1 && weight.dims[0] == hidden;
    assert(plain == (weight.dims@ =~= seq![x.dims@.last()]));
    if !plain {
        let level = match level_all(x, eps) {
            Ok(t) => t,
            Err(e) => return Err(e),
        };
        let r = broadcast(Pairwise::Product, &level, weight);
        assert(r is Ok ==> weighs(*x, *weight, eps, level.data@, r->Ok_0.data@));
        return r;
    }
    if hidden == 0 {
        assert(elems(x.dims@.drop_last()) * 0 == 0) by (nonlinear_arith);
        return Ok(x.copied());
    }
    let n: usize = rows_of(x, hidden);
    let size: usize = x.data.len();
    proof {
        crate::tensor::lemma_elems_of_short(weight.dims@);
    }
    let ghost f = norm_rows(x.data@, weight.data@, eps, hidden as int);
    let mut data: Vec<R> = Vec::with_capacity(size);
    proof {
        lemma_no_rows(hidden as int, f);
    }
    for r in 0..n
        invariant
            lawful::<R>(),
            n * hidden == x.data@.len(),
            weight.data@.len() == hidden,
            f == norm_rows(x.data@, weight.data@, eps, hidden as int),
            rowwise(data@, r as int, hidden as int, f),
    {
        assert((r + 1) * hidden <= n * hidden) by (nonlinear_arith)
            requires
                r + 1 <= n,
                0 <= hidden,
        ;
        let row = span_of(&x.data, r, hidden);
        let mut out = norm_row(row, &weight.data, eps);
        proof {
            lemma_row_appended(data@, out@, r as int, hidden as int, f);
        }
        data.append(&mut out);
    }
    Ok(Tensor { dims: copy_run(&x.dims), data })
}

/// The shapes the fused residual and norm serve.
pub open spec fn residual_fits(a: Seq<usize>, b: Seq<usize>, w: Seq<usize>) -> bool {
    a == b && a.len() > 0 && a.last() > 0 && w == seq![a.last()]
}

/// Residual and norm in one pass: `(sum, rms_norm(sum))` of `sum = a + b`. `None` where the
/// shapes are off this path.
pub fn fused_add_rmsnorm_f32<R: Real>(
    a: &Tensor<R>,
    b: &Tensor<R>,
    weight: &Tensor<R>,
    eps: R,
) -> (r: Result<Option<(Tensor<R>, Tensor<R>)>, Error>)
    requires
        lawful::<R>(),
        a.wf(),
        b.wf(),
        weight.wf(),
    ensures
        r is Ok,
        r->Ok_0 is Some <==> residual_fits(a.dims@, b.dims@, weight.dims@),
        r->Ok_0 matches Some(o) ==> o.0.wf() && o.1.wf() && o.0.dims@ == a.dims@ && o.1.dims@
            == a.dims@ && o.0.data@ == Seq::new(
            a.data@.len(),
            |i: int| radd(a.data@[i], b.data@[i]),
        ) && rowwise(
            o.1.data@,
            elems(a.dims@.drop_last()),
            a.last_dim(),
            norm_rows(o.0.data@, weight.data@, eps, a.last_dim()),
        ),
{
    let (rank, brank, wrank): (usize, usize, usize) = (
        a.dims.len(),
        b.dims.len(),
        weight.dims.len(),
    );
    if rank != brank || rank == 0 || wrank != 1 {
        return Ok(None);
    }
    for i in 0..rank
        invariant
            rank == a.dims@.len(),
            rank == b.dims@.len(),
            forall|k: int| 0 <= k < i ==> #[trigger] a.dims@[k] == b.dims@[k],
    {
        if a.dims[i] != b.dims[i] {
            return Ok(None);
        }
    }
    assert(a.dims@ =~= b.dims@);
    let hidden: usize = a.dims[rank - 1];
    if hidden == 0 || weight.dims[0] != hidden {
        return Ok(None);
    }
    assert(weight.dims@ =~= seq![a.dims@.last()]);
    proof {
        crate::tensor::lemma_elems_of_short(weight.dims@);
    }
    let size: usize = a.data.len();
    let ghost want = Seq::new(a.data@.len(), |i: int| radd(a.data@[i], b.data@[i]));
    let n: usize = rows_of(a, hidden);
    let mut sum: Vec<R> = Vec::with_capacity(size);
    for i in 0..size
        invariant
            lawful::<R>(),
            size == a.data@.len(),
            size == b.data@.len(),
            want == Seq::new(a.data@.len(), |i: int| radd(a.data@[i], b.data@[i])),
            sum@.len() == i,
            forall|k: int| 0 <= k < i ==> #[trigger] sum@[k] == want[k],
    {
        sum.push(plus(a.data[i], b.data[i]));
    }
    assert(sum@ =~= want);
    let ghost f = norm_rows(sum@, weight.data@, eps, hidden as int);
    let mut data: Vec<R> = Vec::with_capacity(size);
    proof {
        lemma_no_rows(hidden as int, f);
    }
    for r in 0..n
        invariant
            lawful::<R>(),
            n * hidden == sum@.len(),
            weight.data@.len() == hidden,
            f == norm_rows(sum@, weight.data@, eps, hidden as int),
            rowwise(data@, r as int, hidden as int, f),
    {
        assert((r + 1) * hidden <= n * hidden) by (nonlinear_arith)
            requires
                r + 1 <= n,
                0 <= hidden,
        ;
        let row = span_of(&sum, r, hidden);
        let mut out = norm_row(row, &weight.data, eps);
        proof {
            lemma_row_appended(data@, out@, r as int, hidden as int, f);
        }
        data.append(&mut out);
    }
    Ok(
        Some(
            (
                Tensor { dims: copy_run(&a.dims), data: sum },
                Tensor { dims: copy_run(&a.dims), data },
            ),
        ),
    )
}

/// The fused pass computes what the two steps do: the sum of two tensors of one shape is their
/// stretched sum, and the norm is that of it.
pub proof fn fused_residual_is_unfused<R: Real>(dims: Seq<usize>, a: Seq<R>, b: Seq<R>)
    requires
        a.len() == elems(dims),
        b.len() == elems(dims),
    ensures
        joined(dims, dims) == Some(dims),
        stretched_pairs(Pairwise::Sum, dims, a, dims, b) == Seq::new(
            a.len(),
            |i: int| radd(a[i], b[i]),
        ),
{
    lemma_joined_with_itself(dims);
    let s = stretched_pairs(Pairwise::Sum, dims, a, dims, b);
    let t = Seq::new(a.len(), |i: int| radd(a[i], b[i]));
    assert forall|i: int| 0 <= i < a.len() implies s[i] == t[i] by {
        lemma_stretches_to_itself(dims, i);
    }
    assert(s =~= t);
}

proof fn lemma_joined_with_itself(dims: Seq<usize>)
    ensures
        joined(dims, dims) == Some(dims),
    decreases dims.len(),
{
    if dims.len() > 0 {
        lemma_joined_with_itself(dims.drop_last());
        assert(dims.drop_last().push(dims.last()) =~= dims);
    }
}

/// The norm of one row, with its own weight.
pub struct RmsNorm<R> {
    pub weight: Vec<R>,
    pub eps: R,
}

impl<R: Real> NormFn<R> for RmsNorm<R> {
    /// Values past the last weight stay as they are.
    open spec fn normed(&self, x: Seq<R>) -> Seq<R> {
        Seq::new(
            x.len(),
            |i: int|
                if i < self.weight@.len() {
                    rmul(rdiv(x[i], rms(x, self.eps)), self.weight@[i])
                } else {
                    x[i]
                },
        )
    }

    fn norm(&self, x: &[R]) -> (out: Vec<R>) {
        let d = rms_of(x, self.eps);
        let mut out: Vec<R> = Vec::with_capacity(x.len());
        for i in 0..x.len()
            invariant
                lawful::<R>(),
                d == rms(x@, self.eps),
                out@.len() == i,
                forall|k: int| 0 <= k < i ==> #[trigger] out@[k] == self.normed(x@)[k],
        {
            if i < self.weight.len() {
                out.push(times(over(x[i], d), self.weight[i]));
            } else {
                out.push(x[i]);
            }
        }
        assert(out@ =~= self.normed(x@));
        out
    }
}

} // verus!
