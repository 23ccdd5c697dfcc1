//! Softmax, plain and in the masked and scaled shapes attention needs.
use vstd::prelude::*;
use crate::arith::{
    Real, exp, inf, lawful, ln, lt, minus, neg, over, plus, radd, rdiv, rexp, rinf, rln, rlt, rmul,
    rneg, rsub, times, zero,
};
use crate::coded::cell;
use crate::error::Error;
use crate::float::Carrier;
use crate::grid::lemma_cell_inside;
use crate::ops::rows::{
    lemma_no_rows, lemma_row_appended, lemma_rows_unique, rows_of, rowwise,
};
use crate::sums::fsum;
use crate::tensor::{
    Pairwise, Tensor, around, broadcast_add, copy_run, elems, inner, joined, lemma_elems_by_dim,
    lemma_elems_nonneg, lemma_elems_of_short, lemma_strand_inside, lemma_strand_unique,
    lemma_stretches_to_itself, outer, source, strand, stretched_pairs,
};
use crate::tiled::{span, span_of};

verus! {

/// The largest of a row's first `n` values, from minus infinity up.
pub open spec fn top<R: Real>(row: Seq<R>, n: nat) -> R
    decreases n,
{
    if n == 0 {
        rneg(rinf::<R>())
    } else {
        let m = top(row, (n - 1) as nat);
        if rlt(m, row[n - 1]) {
            row[n - 1]
        } else {
            m
        }
    }
}

/// The sum of the exponentials of a row's values, each over `m`.
pub open spec fn exp_sum<R: Real>(row: Seq<R>, m: R) -> R {
    fsum(row.len(), |i: int| rexp(rsub(row[i], m)))
}

/// The softmax of a row: each exponential's share of their sum.
pub open spec fn soft<R: Real>(row: Seq<R>) -> Seq<R> {
    let m = top(row, row.len());
    Seq::new(row.len(), |j: int| rdiv(rexp(rsub(row[j], m)), exp_sum(row, m)))
}

/// The logarithm of the softmax of a row.
pub open spec fn log_soft<R: Real>(row: Seq<R>) -> Seq<R> {
    let m = top(row, row.len());
    Seq::new(row.len(), |j: int| rsub(rsub(row[j], m), rln(exp_sum(row, m))))
}

/// A row's largest value.
pub fn top_of<R: Real>(row: &[R]) -> (m: R)
    requires
        lawful::<R>(),
    ensures
        m == top(row@, row@.len()),
{
    let mut m = neg(inf::<R>());
    for i in 0..row.len()
        invariant
            lawful::<R>(),
            m == top(row@, i as nat),
    {
        if lt(m, row[i]) {
            m = row[i];
        }
    }
    m
}

/// The sum of a row's exponentials over `m`.
pub fn exp_sum_of<R: Real>(row: &[R], m: R) -> (s: R)
    requires
        lawful::<R>(),
    ensures
        s == exp_sum(row@, m),
{
    let ghost f = |i: int| rexp(rsub(row@[i], m));
    let mut s = zero::<R>();
    for i in 0..row.len()
        invariant
            lawful::<R>(),
            f == |i: int| rexp(rsub(row@[i], m)),
            s == fsum(i as nat, f),
    {
        s = plus(s, exp(minus(row[i], m)));
    }
    s
}

/// A row's softmax.
pub fn soft_row<R: Real>(row: &[R]) -> (out: Vec<R>)
    requires
        lawful::<R>(),
    ensures
        out@ == soft(row@),
{
    let m = top_of(row);
    let s = exp_sum_of(row, m);
    let mut out: Vec<R> = Vec::with_capacity(row.len());
    for j in 0..row.len()
        invariant
            lawful::<R>(),
            m == top(row@, row@.len()),
            s == exp_sum(row@, m),
            out@.len() == j,
            forall|i: int| 0 <= i < j ==> #[trigger] out@[i] == soft(row@)[i],
    {
        out.push(over(exp(minus(row[j], m)), s));
    }
    assert(out@ =~= soft(row@));
    out
}

/// The logarithm of a row's softmax.
fn log_soft_row<R: Real>(row: &[R]) -> (out: Vec<R>)
    requires
        lawful::<R>(),
    ensures
        out@ == log_soft(row@),
{
    let m = top_of(row);
    let s = ln(exp_sum_of(row, m));
    let mut out: Vec<R> = Vec::with_capacity(row.len());
    for j in 0..row.len()
        invariant
            lawful::<R>(),
            m == top(row@, row@.len()),
            s == rln(exp_sum(row@, m)),
            out@.len() == j,
            forall|i: int| 0 <= i < j ==> #[trigger] out@[i] == log_soft(row@)[i],
    {
        out.push(minus(minus(row[j], m), s));
    }
    assert(out@ =~= log_soft(row@));
    out
}

// -- over the last dimension --

/// The softmax of each row of `cols` values.
pub open spec fn soft_rows<R: Real>(x: Seq<R>, cols: int) -> spec_fn(int) -> Seq<R> {
    |r: int| soft(span(x, r, cols))
}

/// Softmax over the last dimension: `exp(x - rowmax) / sum(exp(x - rowmax))`.
pub fn softmax_last_dim<R: Real>(x: &Tensor<R>) -> (r: Result<Tensor<R>, Error>)
    requires
        lawful::<R>(),
        x.wf(),
    ensures
        r is Ok <==> x.dims@.len() > 0,
        r matches Err(e) ==> e == (Error::Rank { want: 1, have: 0 }),
        r matches Ok(t) ==> t.wf() && t.dims@ == x.dims@ && rowwise(
            t.data@,
            elems(x.dims@.drop_last()),
            x.last_dim(),
            soft_rows(x.data@, x.last_dim()),
        ),
{
    let cols: usize = match x.last() {
        Ok(n) => n,
        Err(e) => return Err(e),
    };
    if cols == 0 {
        assert(elems(x.dims@.drop_last()) * 0 == 0) by (nonlinear_arith);
        return Ok(x.copied());
    }
    let rows: usize = rows_of(x, cols);
    let size: usize = x.data.len();
    let ghost f = soft_rows(x.data@, cols as int);
    let mut data: Vec<R> = Vec::with_capacity(size);
    proof {
        lemma_no_rows(cols as int, f);
    }
    for r in 0..rows
        invariant
            lawful::<R>(),
            f == soft_rows(x.data@, cols as int),
            rows * cols == x.data@.len(),
            rowwise(data@, r as int, cols as int, f),
    {
        assert((r + 1) * cols <= rows * cols) by (nonlinear_arith)
            requires
                r + 1 <= rows,
                0 <= cols,
        ;
        let row = span_of(&x.data, r, cols);
        let mut out = soft_row(row);
        proof {
            lemma_row_appended(data@, out@, r as int, cols as int, f);
        }
        data.append(&mut out);
    }
    Ok(Tensor { dims: copy_run(&x.dims), data })
}

/// The mask is one row of `cols` for each of `pq` query positions.
pub open spec fn mask_fits(dims: Seq<usize>, mask: int) -> bool {
    dims.len() >= 2 && dims.last() > 0 && dims[dims.len() - 2] > 0 && mask == dims[dims.len() - 2]
        * dims.last()
}

/// Row `r` of the scores, with the mask of its query position added.
pub open spec fn masked_row<R: Real>(x: Seq<R>, mask: Seq<R>, pq: int, cols: int, r: int) -> Seq<
    R,
> {
    Seq::new(
        cols as nat,
        |j: int| radd(x[cell(cols, r, j)], mask[cell(cols, r % pq, j)]),
    )
}

/// The softmax of each masked row.
pub open spec fn soft_masked_rows<R: Real>(
    x: Seq<R>,
    mask: Seq<R>,
    pq: int,
    cols: int,
) -> spec_fn(int) -> Seq<R> {
    |r: int| soft(masked_row(x, mask, pq, cols, r))
}

/// What the unfused pair gives: the softmax of the stretched sum.
pub open spec fn soft_of_sum<R: Real>(
    ad: Seq<usize>,
    x: Seq<R>,
    mask: Tensor<R>,
    r: Result<Tensor<R>, Error>,
) -> bool {
    let dims = joined(ad, mask.dims@);
    let sum = stretched_pairs(Pairwise::Sum, ad, x, mask.dims@, mask.data@);
    &&& r is Ok <==> dims is Some && elems(dims->0) <= usize::MAX
    &&& r matches Err(e) ==> e == Error::Shape
    &&& r matches Ok(t) ==> t.wf() && t.dims@ == dims->0 && rowwise(
        t.data@,
        elems(dims->0.drop_last()),
        dims->0.last() as int,
        soft_rows(sum, dims->0.last() as int),
    )
}

/// The masked softmax of scores `x` of shape `ad`: row by row where the mask has a row for each
/// query position, of the stretched sum otherwise.
pub open spec fn soft_masked<R: Real>(
    ad: Seq<usize>,
    x: Seq<R>,
    mask: Tensor<R>,
    r: Result<Tensor<R>, Error>,
) -> bool {
    if ad.len() == 0 {
        r == Err::<Tensor<R>, Error>(Error::Rank { want: 1, have: 0 })
    } else if mask_fits(ad, mask.data@.len() as int) {
        r is Ok && r->Ok_0.wf() && r->Ok_0.dims@ == ad && rowwise(
            r->Ok_0.data@,
            elems(ad.drop_last()),
            ad.last() as int,
            soft_masked_rows(x, mask.data@, ad[ad.len() - 2] as int, ad.last() as int),
        )
    } else {
        soft_of_sum(ad, x, mask, r)
    }
}

/// `softmax_last_dim(att + mask)` in one pass. A mask of one row per query position is added on
/// the way, without the sum being built; any other mask is stretched over the scores first.
pub fn softmax_last_dim_masked<R: Real>(att: &Tensor<R>, mask: &Tensor<R>) -> (r: Result<
    Tensor<R>,
    Error,
>)
    requires
        lawful::<R>(),
        att.wf(),
        mask.wf(),
    ensures
        soft_masked(att.dims@, att.data@, *mask, r),
{
    let cols: usize = match att.last() {
        Ok(n) => n,
        Err(e) => return Err(e),
    };
    let rank: usize = att.dims.len();
    let pq: usize = if rank >= 2 {
        att.dims[rank - 2]
    } else {
        0
    };
    let held: usize = mask.data.len();
    let fits = cols > 0 && pq > 0 && (match pq.checked_mul(cols) {
        Some(n) => n == held,
        None => false,
    });
    if !fits {
        return match broadcast_add(att, mask) {
            Ok(sum) => softmax_last_dim(&sum),
            Err(e) => Err(e),
        };
    }
    let rows: usize = rows_of(att, cols);
    let size: usize = att.data.len();
    let ghost f = soft_masked_rows(att.data@, mask.data@, pq as int, cols as int);
    let mut data: Vec<R> = Vec::with_capacity(size);
    proof {
        lemma_no_rows(cols as int, f);
    }
    for r in 0..rows
        invariant
            lawful::<R>(),
            f == soft_masked_rows(att.data@, mask.data@, pq as int, cols as int),
            rows * cols == att.data@.len(),
            size == att.data@.len(),
            held == mask.data@.len(),
            held == pq * cols,
            pq > 0,
            rowwise(data@, r as int, cols as int, f),
    {
        let p: usize = r % pq;
        let ghost want = masked_row(att.data@, mask.data@, pq as int, cols as int, r as int);
        let mut row: Vec<R> = Vec::with_capacity(cols);
        for j in 0..cols
            invariant
                lawful::<R>(),
                want == masked_row(att.data@, mask.data@, pq as int, cols as int, r as int),
                rows * cols == att.data@.len(),
                size == att.data@.len(),
                held == mask.data@.len(),
                held == pq * cols,
                p == r as int % pq as int,
                p < pq,
                r < rows,
                row@.len() == j,
                forall|i: int| 0 <= i < j ==> #[trigger] row@[i] == want[i],
        {
            proof {
                lemma_cell_inside(rows as int, cols as int, r as int, j as int);
                lemma_cell_inside(pq as int, cols as int, p as int, j as int);
                assert(0 <= r * cols && 0 <= p * cols) by (nonlinear_arith)
                    requires
                        0 <= r,
                        0 <= p,
                        0 <= cols,
                ;
            }
            row.push(plus(att.data[r * cols + j], mask.data[p * cols + j]));
        }
        assert(row@ =~= want);
        let mut out = soft_row(&row);
        proof {
            lemma_row_appended(data@, out@, r as int, cols as int, f);
        }
        data.append(&mut out);
    }
    Ok(Tensor { dims: copy_run(&att.dims), data })
}

/// Stored scores, widened and scaled.
pub open spec fn scaled<R: Real, C: Carrier<R>>(x: Seq<C>, s: R) -> Seq<R> {
    Seq::new(x.len(), |i: int| rmul(x[i].stands_for(), s))
}

/// Scale, mask and softmax over the last dimension: the masked softmax of the scores, widened from
/// whatever they are stored at, times `scale`.
pub fn softmax_scaled_masked<R: Real, C: Carrier<R>>(
    att: &Tensor<C>,
    scale: R,
    mask: &Tensor<R>,
) -> (r: Result<Tensor<R>, Error>)
    requires
        lawful::<R>(),
        att.wf(),
        mask.wf(),
    ensures
        soft_masked(att.dims@, scaled(att.data@, scale), *mask, r),
{
    let mut data: Vec<R> = Vec::with_capacity(att.data.len());
    for i in 0..att.data.len()
        invariant
            lawful::<R>(),
            data@.len() == i,
            forall|j: int| 0 <= j < i ==> #[trigger] data@[j] == scaled(att.data@, scale)[j],
    {
        data.push(times(att.data[i].widened(), scale));
    }
    assert(data@ =~= scaled(att.data@, scale));
    let wide = Tensor { dims: copy_run(&att.dims), data };
    softmax_last_dim_masked(&wide, mask)
}

/// Adding the mask on the way changes nothing: for scores `[.., pq, cols]` and a mask
/// `[pq, cols]`, the rows whose softmax is taken are those of the stretched sum.
pub proof fn fused_mask_is_unfused<R: Real>(
    dims: Seq<usize>,
    x: Seq<R>,
    md: Seq<usize>,
    mask: Seq<R>,
    fused: Seq<R>,
    unfused: Seq<R>,
)
    requires
        dims.len() >= 2,
        md.len() == 2,
        md[0] == dims[dims.len() - 2],
        md[1] == dims.last(),
        md[0] > 0,
        md[1] > 0,
        x.len() == elems(dims),
        mask.len() == elems(md),
        rowwise(
            fused,
            elems(dims.drop_last()),
            dims.last() as int,
            soft_masked_rows(x, mask, md[0] as int, md[1] as int),
        ),
        rowwise(
            unfused,
            elems(dims.drop_last()),
            dims.last() as int,
            soft_rows(stretched_pairs(Pairwise::Sum, dims, x, md, mask), dims.last() as int),
        ),
    ensures
        mask_fits(dims, mask.len() as int),
        joined(dims, md) == Some(dims),
        fused == unfused,
{
    let (pq, cols) = (md[0] as int, md[1] as int);
    lemma_elems_of_short(md);
    lemma_joined_with_tail(dims, md);
    lemma_elems_nonneg(dims.drop_last());
    let rows = elems(dims.drop_last());
    let sum = stretched_pairs(Pairwise::Sum, dims, x, md, mask);
    let f = soft_masked_rows(x, mask, pq, cols);
    let g = soft_rows(sum, cols);
    assert forall|r: int| 0 <= r < rows implies #[trigger] f(r) == g(r) by {
        let a = masked_row(x, mask, pq, cols, r);
        let b = span(sum, r, cols);
        assert(r * cols + cols <= rows * cols && 0 <= r * cols) by (nonlinear_arith)
            requires
                0 <= r,
                r + 1 <= rows,
                0 <= cols,
        ;
        assert forall|j: int| 0 <= j < cols implies a[j] == b[j] by {
            lemma_cell_inside(rows, cols, r, j);
            let i = cell(cols, r, j);
            lemma_stretches_to_itself(dims, i);
            lemma_source_of_tail(dims, md, r, j);
            assert(b[j] == sum[i]);
        }
        assert(a =~= b);
    }
    lemma_rows_unique(fused, unfused, rows, cols, f, g);
}

/// A shape joined with its own two last dimensions is itself.
proof fn lemma_joined_with_tail(dims: Seq<usize>, md: Seq<usize>)
    requires
        dims.len() >= 2,
        md.len() == 2,
        md[0] == dims[dims.len() - 2],
        md[1] == dims.last(),
    ensures
        joined(dims, md) == Some(dims),
{
    let (d1, m1) = (dims.drop_last(), md.drop_last());
    let (d2, m2) = (d1.drop_last(), m1.drop_last());
    assert(m2.len() == 0);
    reveal_with_fuel(joined, 3);
    assert(joined(d2, m2) == Some(d2)) by {
        if d2.len() == 0 {
            assert(d2 =~= m2);
        }
    }
    assert(d2.push(d1.last()) =~= d1);
    assert(d1.push(dims.last()) =~= dims);
    assert(joined(d1, m1) == Some(d1));
}

/// The mask row a row of the scores repeats.
proof fn lemma_source_of_tail(dims: Seq<usize>, md: Seq<usize>, r: int, j: int)
    requires
        dims.len() >= 2,
        md.len() == 2,
        md[0] == dims[dims.len() - 2],
        md[1] == dims.last(),
        md[0] > 0,
        0 <= r,
        0 <= j < dims.last(),
    ensures
        source(dims, md, cell(dims.last() as int, r, j)) == cell(
            dims.last() as int,
            r % (md[0] as int),
            j,
        ),
{
    let cols = dims.last() as int;
    let i = cell(cols, r, j);
    vstd::arithmetic::div_mod::lemma_fundamental_div_mod_converse(i, cols, r, j);
    let (d1, m1) = (dims.drop_last(), md.drop_last());
    assert(d1.last() == md[0] && m1.last() == md[0]);
    assert(m1.drop_last().len() == 0);
    reveal_with_fuel(source, 3);
    let pq = md[0] as int;
    assert(0 * m1.last() == 0) by (nonlinear_arith);
    vstd::arithmetic::div_mod::lemma_mod_bound(r, pq);
    if pq == 1 {
        assert(r % pq == 0);
    }
    assert(source(d1, m1, r) == r % pq);
    if cols == 1 {
        assert(j == 0);
    }
}

// -- over any dimension --

/// The values along one dimension.
pub open spec fn strand_at<R>(x: Seq<R>, size: int, inn: int, o: int, i: int) -> Seq<R> {
    Seq::new(size as nat, |k: int| x[strand(size, inn, o, k, i)])
}

/// Whether it is the softmax that is taken along a dimension, or its logarithm.
#[derive(Clone, Copy, PartialEq, Eq, Structural, Debug)]
pub enum Scale {
    Linear,
    Log,
}

pub open spec fn soft_in<R: Real>(scale: Scale, row: Seq<R>) -> Seq<R> {
    match scale {
        Scale::Linear => soft(row),
        Scale::Log => log_soft(row),
    }
}

/// What is done to the values along a dimension.
pub trait StrandMap<R: Real, T: Copy>: Copy {
    /// What a strand becomes.
    spec fn of(self, row: Seq<T>) -> Seq<T>;

    fn map(&self, row: &[T]) -> (out: Vec<T>)
        requires
            lawful::<R>(),
        ensures
            out@ == self.of(row@),
            out@.len() == row@.len(),
    ;
}

impl<R: Real> StrandMap<R, R> for Scale {
    open spec fn of(self, row: Seq<R>) -> Seq<R> {
        soft_in(self, row)
    }

    fn map(&self, row: &[R]) -> Vec<R> {
        match self {
            Scale::Linear => soft_row(row),
            Scale::Log => log_soft_row(row),
        }
    }
}

/// Every strand along `dim` of `out` is what `map` makes of that strand of `x`.
pub open spec fn mapped_along<R: Real, T: Copy, M: StrandMap<R, T>>(
    map: M,
    x: Seq<T>,
    out: Seq<T>,
    dims: Seq<usize>,
    dim: int,
) -> bool {
    &&& out.len() == x.len()
    &&& forall|o: int, j: int, i: int|
        0 <= o < outer(dims, dim) && 0 <= j < dims[dim] && 0 <= i < inner(dims, dim) ==> out[
            #[trigger] strand(dims[dim] as int, inner(dims, dim), o, j, i)
        ] == map.of(strand_at(x, dims[dim] as int, inner(dims, dim), o, i))[j]
}

/// Every strand along `dim` of `out` is the softmax of that strand of `x`.
pub open spec fn soft_along<R: Real>(
    scale: Scale,
    x: Seq<R>,
    out: Seq<R>,
    dims: Seq<usize>,
    dim: int,
) -> bool {
    mapped_along::<R, R, Scale>(scale, x, out, dims, dim)
}

/// Every strand along a dimension, mapped.
pub(crate) fn along<R: Real, T: Copy, M: StrandMap<R, T>>(map: M, x: &Tensor<T>, dim: usize) -> (r:
    Result<Tensor<T>, Error>)
    requires
        lawful::<R>(),
        x.wf(),
    ensures
        r is Ok <==> dim < x.dims@.len(),
        r matches Err(e) ==> e == (Error::Axis { dim, rank: x.dims@.len() as usize }),
        r matches Ok(t) ==> t.wf() && t.dims@ == x.dims@ && mapped_along::<R, T, M>(
            map,
            x.data@,
            t.data@,
            x.dims@,
            dim as int,
        ),
{
    let rank: usize = x.dims.len();
    if dim >= rank {
        return Err(Error::Axis { dim, rank });
    }
    let total: usize = x.data.len();
    proof {
        lemma_elems_by_dim(x.dims@, dim as int);
    }
    if total == 0 {
        proof {
            let (a, b, c) = (
                outer(x.dims@, dim as int),
                x.dims@[dim as int] as int,
                inner(x.dims@, dim as int),
            );
            assert forall|o: int, j: int, i: int|
                0 <= o < a && 0 <= j < b && 0 <= i < c implies x.data@[
                #[trigger] strand(b, c, o, j, i)
            ] == map.of(strand_at(x.data@, b, c, o, i))[j] by {
                lemma_strand_inside(a, b, c, o, j, i);
            }
        }
        return Ok(x.copied());
    }
    let (out, size, inn) = around(x, dim);
    let mut data: Vec<T> = copy_run(&x.data);
    for o in 0..out
        invariant
            lawful::<R>(),
            x.data@.len() == total,
            data@.len() == total,
            (out * size) * inn == total,
            forall|p: int, j: int, i: int|
                0 <= p < o && 0 <= j < size && 0 <= i < inn ==> data@[
                    #[trigger] strand(size as int, inn as int, p, j, i)
                ] == map.of(strand_at(x.data@, size as int, inn as int, p, i))[j],
    {
        for i in 0..inn
            invariant
                lawful::<R>(),
                o < out,
                x.data@.len() == total,
                data@.len() == total,
                (out * size) * inn == total,
                forall|p: int, j: int, k: int|
                    0 <= j < size && 0 <= k < inn && (0 <= p < o || p == o && k < i) ==> data@[
                        #[trigger] strand(size as int, inn as int, p, j, k)
                    ] == map.of(strand_at(x.data@, size as int, inn as int, p, k))[j],
        {
            let row = read_strand(&x.data, (out, size, inn), o, i);
            let made = map.map(&row);
            write_strand(&mut data, &made, (out, size, inn), o, i);
            assert forall|p: int, j: int, k: int|
                0 <= j < size && 0 <= k < inn && (0 <= p < o || p == o && k < i + 1) implies data@[
                #[trigger] strand(size as int, inn as int, p, j, k)
            ] == map.of(strand_at(x.data@, size as int, inn as int, p, k))[j] by {
                lemma_strand_inside(out as int, size as int, inn as int, p, j, k);
                if p != o || k != i {
                    assert forall|l: int| 0 <= l < size implies strand(
                        size as int,
                        inn as int,
                        p,
                        j,
                        k,
                    ) != #[trigger] strand(size as int, inn as int, o as int, l, i as int) by {
                        if strand(size as int, inn as int, p, j, k) == strand(
                            size as int,
                            inn as int,
                            o as int,
                            l,
                            i as int,
                        ) {
                            lemma_strand_unique(
                                size as int,
                                inn as int,
                                p,
                                j,
                                k,
                                o as int,
                                l,
                                i as int,
                            );
                        }
                    }
                }
            }
        }
    }
    Ok(Tensor { dims: copy_run(&x.dims), data })
}

/// The place of a strand's element.
fn place_of(shape: (usize, usize, usize), o: usize, j: usize, i: usize) -> (r: usize)
    requires
        o < shape.0,
        j < shape.1,
        i < shape.2,
        (shape.0 * shape.1) * shape.2 <= usize::MAX,
    ensures
        r == strand(shape.1 as int, shape.2 as int, o as int, j as int, i as int),
        r < (shape.0 * shape.1) * shape.2,
{
    let (out, size, inn) = shape;
    proof {
        lemma_strand_inside(out as int, size as int, inn as int, o as int, j as int, i as int);
        let p = o * size + j;
        assert(0 <= o * size && 0 <= p * inn && p <= p * inn) by (nonlinear_arith)
            requires
                0 <= o,
                0 <= size,
                1 <= inn,
                0 <= p,
        ;
    }
    (o * size + j) * inn + i
}

/// The values of a strand.
fn read_strand<R: Copy>(x: &[R], shape: (usize, usize, usize), o: usize, i: usize) -> (row: Vec<R>)
    requires
        o < shape.0,
        i < shape.2,
        (shape.0 * shape.1) * shape.2 == x@.len(),
    ensures
        row@ == strand_at(x@, shape.1 as int, shape.2 as int, o as int, i as int),
{
    let total: usize = x.len();
    let ghost want = strand_at(x@, shape.1 as int, shape.2 as int, o as int, i as int);
    let mut row: Vec<R> = Vec::with_capacity(shape.1);
    for j in 0..shape.1
        invariant
            o < shape.0,
            i < shape.2,
            (shape.0 * shape.1) * shape.2 == x@.len(),
            total == x@.len(),
            want == strand_at(x@, shape.1 as int, shape.2 as int, o as int, i as int),
            row@.len() == j,
            forall|k: int| 0 <= k < j ==> #[trigger] row@[k] == want[k],
    {
        row.push(x[place_of(shape, o, j, i)]);
    }
    assert(row@ =~= want);
    row
}

/// Write the values of a strand.
fn write_strand<R: Copy>(
    data: &mut Vec<R>,
    row: &[R],
    shape: (usize, usize, usize),
    o: usize,
    i: usize,
)
    requires
        o < shape.0,
        i < shape.2,
        (shape.0 * shape.1) * shape.2 == old(data)@.len(),
        row@.len() == shape.1,
    ensures
        final(data)@.len() == old(data)@.len(),
        forall|j: int|
            0 <= j < shape.1 ==> final(data)@[
                #[trigger] strand(shape.1 as int, shape.2 as int, o as int, j, i as int)
            ] == row@[j],
        forall|q: int|
            0 <= q < old(data)@.len() && (forall|j: int|
                0 <= j < shape.1 ==> q != #[trigger] strand(
                    shape.1 as int,
                    shape.2 as int,
                    o as int,
                    j,
                    i as int,
                )) ==> #[trigger] final(data)@[q] == old(data)@[q],
{
    let total: usize = data.len();
    let ghost was = data@;
    for j in 0..shape.1
        invariant
            o < shape.0,
            i < shape.2,
            total == data@.len(),
            was.len() == total,
            (shape.0 * shape.1) * shape.2 == total,
            row@.len() == shape.1,
            forall|k: int|
                0 <= k < j ==> data@[
                    #[trigger] strand(shape.1 as int, shape.2 as int, o as int, k, i as int)
                ] == row@[k],
            forall|q: int|
                0 <= q < total && (forall|k: int|
                    0 <= k < shape.1 ==> q != #[trigger] strand(
                        shape.1 as int,
                        shape.2 as int,
                        o as int,
                        k,
                        i as int,
                    )) ==> #[trigger] data@[q] == was[q],
    {
        let p: usize = place_of(shape, o, j, i);
        data[p] = row[j];
        assert forall|k: int| 0 <= k < j + 1 implies data@[
            #[trigger] strand(shape.1 as int, shape.2 as int, o as int, k, i as int)
        ] == row@[k] by {
            lemma_strand_inside(
                shape.0 as int,
                shape.1 as int,
                shape.2 as int,
                o as int,
                k,
                i as int,
            );
            if k != j && strand(shape.1 as int, shape.2 as int, o as int, k, i as int) == p {
                lemma_strand_unique(
                    shape.1 as int,
                    shape.2 as int,
                    o as int,
                    k,
                    i as int,
                    o as int,
                    j as int,
                    i as int,
                );
            }
        }
    }
}

/// Softmax over any dimension.
pub fn softmax<R: Real>(x: &Tensor<R>, dim: usize) -> (r: Result<Tensor<R>, Error>)
    requires
        lawful::<R>(),
        x.wf(),
    ensures
        r is Ok <==> dim < x.dims@.len(),
        r matches Err(e) ==> e == (Error::Axis { dim, rank: x.dims@.len() as usize }),
        r matches Ok(t) ==> t.wf() && t.dims@ == x.dims@ && soft_along(
            Scale::Linear,
            x.data@,
            t.data@,
            x.dims@,
            dim as int,
        ),
{
    along::<R, R, Scale>(Scale::Linear, x, dim)
}

/// Log-softmax over any dimension: `x - logsumexp(x, dim)`.
pub fn log_softmax<R: Real>(x: &Tensor<R>, dim: usize) -> (r: Result<Tensor<R>, Error>)
    requires
        lawful::<R>(),
        x.wf(),
    ensures
        r is Ok <==> dim < x.dims@.len(),
        r matches Err(e) ==> e == (Error::Axis { dim, rank: x.dims@.len() as usize }),
        r matches Ok(t) ==> t.wf() && t.dims@ == x.dims@ && soft_along(
            Scale::Log,
            x.data@,
            t.data@,
            x.dims@,
            dim as int,
        ),
{
    along::<R, R, Scale>(Scale::Log, x, dim)
}

} // verus!
