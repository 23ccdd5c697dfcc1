//! The operations on tensors whose elements are stored narrow.
//!
//! A half-precision tensor is widened where an operation reduces it, and what comes out is stored at
//! its own width again. An operation that is a chain of elementwise steps stores each step. Every
//! function here is the one of the same name beside it, over elements of any width.
use vstd::prelude::*;
use crate::arith::{
    Real, exp, int_to, lawful, ln, minus, neg, over, plus, radd, rdiv, rexp, rint, rln, rmul, rneg,
    rsub, times, zero,
};
use crate::coded::cell;
use crate::error::Error;
use crate::exact::attention::Reading;
use crate::exact::context::causal;
use crate::float::{Carrier, Element, Kind};
use crate::ops::activation::silu_at;
use crate::ops::attention::{Chunk, Pairing, banded, banded_fault, chunk_fits, chunk_over};
use crate::ops::norm::{level_all, level_rows};
use crate::ops::rows::{lemma_no_rows, lemma_row_appended, rows_of, rowwise};
use crate::ops::softmax::{Scale, StrandMap, along, mapped_along, soft_rows, top, top_of};
use crate::sums::fsum;
use crate::tensor::{
    Pairwise, Tensor, broadcast, copy_run, elems, inner, joined, lemma_elems_by_dim, outer,
    stretched_pairs,
};
use crate::tiled::{span, span_of};

verus! {

/// The values a run of elements stands for.
pub open spec fn wide<R: Real, C: Carrier<R>>(x: Seq<C>) -> Seq<R> {
    Seq::new(x.len(), |i: int| x[i].stands_for())
}

/// Values, stored.
pub open spec fn narrow<R: Real, C: Element<R>>(x: Seq<R>) -> Seq<C> {
    Seq::new(x.len(), |i: int| C::nearest_to(x[i]))
}

/// The tensor of the values.
fn widened<R: Real, C: Carrier<R>>(x: &Tensor<C>) -> (t: Tensor<R>)
    requires
        lawful::<R>(),
    ensures
        t.dims@ == x.dims@,
        t.data@ == wide::<R, C>(x.data@),
{
    let mut data: Vec<R> = Vec::with_capacity(x.data.len());
    for i in 0..x.data.len()
        invariant
            lawful::<R>(),
            data@.len() == i,
            forall|j: int| 0 <= j < i ==> #[trigger] data@[j] == x.data@[j].stands_for(),
    {
        data.push(x.data[i].widened());
    }
    assert(data@ =~= wide::<R, C>(x.data@));
    Tensor { dims: copy_run(&x.dims), data }
}

/// The tensor of the values, stored.
fn stored<R: Real, C: Element<R>>(x: &Tensor<R>) -> (t: Tensor<C>)
    requires
        lawful::<R>(),
    ensures
        t.dims@ == x.dims@,
        t.data@ == narrow::<R, C>(x.data@),
{
    let mut data: Vec<C> = Vec::with_capacity(x.data.len());
    for i in 0..x.data.len()
        invariant
            lawful::<R>(),
            data@.len() == i,
            forall|j: int| 0 <= j < i ==> #[trigger] data@[j] == C::nearest_to(x.data@[j]),
    {
        data.push(C::stored(x.data[i]));
    }
    assert(data@ =~= narrow::<R, C>(x.data@));
    Tensor { dims: copy_run(&x.dims), data }
}

// -- softmax --

/// The softmax of wide rows of `cols`, stored.
pub open spec fn softens<R: Real, C: Element<R>>(x: Seq<R>, out: Seq<C>, rows: int, cols: int) -> bool {
    exists|full: Seq<R>| #[trigger]
        rowwise(full, rows, cols, soft_rows(x, cols)) && out == narrow::<R, C>(full)
}

/// Softmax over the last dimension: the reduction runs wide, and its result is stored.
pub fn softmax_last_dim<R: Real, C: Element<R>>(x: &Tensor<C>) -> (r: Result<Tensor<C>, Error>)
    requires
        lawful::<R>(),
        x.wf(),
    ensures
        r is Ok <==> x.dims@.len() > 0,
        r matches Err(e) ==> e == (Error::Rank { want: 1, have: 0 }),
        r matches Ok(t) ==> t.wf() && t.dims@ == x.dims@ && softens::<R, C>(
            wide::<R, C>(x.data@),
            t.data@,
            elems(x.dims@.drop_last()),
            x.last_dim(),
        ),
{
    match crate::ops::softmax::softmax_last_dim(&widened::<R, C>(x)) {
        Ok(full) => {
            let t = stored::<R, C>(&full);
            assert(rowwise(
                full.data@,
                elems(x.dims@.drop_last()),
                x.last_dim(),
                soft_rows(wide::<R, C>(x.data@), x.last_dim()),
            ));
            Ok(t)
        },
        Err(e) => Err(e),
    }
}

/// The stretched sum or product of two runs of elements, stored.
pub open spec fn pairs<R: Real, C: Element<R>>(
    op: Pairwise,
    ad: Seq<usize>,
    a: Seq<C>,
    bd: Seq<usize>,
    b: Seq<C>,
) -> Seq<C> {
    narrow::<R, C>(stretched_pairs(op, ad, wide::<R, C>(a), bd, wide::<R, C>(b)))
}

/// `softmax_last_dim(att + mask)`: the sum is stored before its softmax is taken.
pub fn softmax_last_dim_masked<R: Real, C: Element<R>>(att: &Tensor<C>, mask: &Tensor<C>) -> (r:
    Result<Tensor<C>, Error>)
    requires
        lawful::<R>(),
        att.wf(),
        mask.wf(),
    ensures
        ({
            let dims = joined(att.dims@, mask.dims@);
            let sum = pairs::<R, C>(
                Pairwise::Sum,
                att.dims@,
                att.data@,
                mask.dims@,
                mask.data@,
            );
            if dims is None || elems(dims->0) > usize::MAX {
                r == Err::<Tensor<C>, Error>(Error::Shape)
            } else if dims->0.len() == 0 {
                r == Err::<Tensor<C>, Error>(Error::Rank { want: 1, have: 0 })
            } else {
                r is Ok && r->Ok_0.wf() && r->Ok_0.dims@ == dims->0 && softens::<R, C>(
                    wide::<R, C>(sum),
                    r->Ok_0.data@,
                    elems(dims->0.drop_last()),
                    dims->0.last() as int,
                )
            }
        }),
{
    match broadcast(Pairwise::Sum, &widened::<R, C>(att), &widened::<R, C>(mask)) {
        Ok(sum) => softmax_last_dim::<R, C>(&stored::<R, C>(&sum)),
        Err(e) => Err(e),
    }
}

/// The values of a strand over its largest, each stored.
pub open spec fn shifted<R: Real, C: Element<R>>(row: Seq<C>) -> Seq<C> {
    let m = top(wide::<R, C>(row), row.len());
    Seq::new(row.len(), |j: int| C::nearest_to(rsub(row[j].stands_for(), m)))
}

/// Their exponentials, each stored.
pub open spec fn raised<R: Real, C: Element<R>>(row: Seq<C>) -> Seq<C> {
    let d = shifted::<R, C>(row);
    Seq::new(row.len(), |j: int| C::nearest_to(rexp(d[j].stands_for())))
}

/// The sum of the exponentials, taken wide and stored.
pub open spec fn total<R: Real, C: Element<R>>(row: Seq<C>) -> C {
    let e = raised::<R, C>(row);
    C::nearest_to(fsum(row.len(), |j: int| e[j].stands_for()))
}

/// The softmax of a strand, or its logarithm, every step of it stored.
pub open spec fn soft_steps<R: Real, C: Element<R>>(scale: Scale, row: Seq<C>) -> Seq<C> {
    let s = total::<R, C>(row).stands_for();
    match scale {
        Scale::Linear => {
            let e = raised::<R, C>(row);
            Seq::new(row.len(), |j: int| C::nearest_to(rdiv(e[j].stands_for(), s)))
        },
        Scale::Log => {
            let (d, l) = (shifted::<R, C>(row), C::nearest_to(rln(s)).stands_for());
            Seq::new(row.len(), |j: int| C::nearest_to(rsub(d[j].stands_for(), l)))
        },
    }
}

/// A softmax whose steps are stored.
#[derive(Clone, Copy, Debug)]
pub struct Steps {
    pub scale: Scale,
}

impl<R: Real, C: Element<R>> StrandMap<R, C> for Steps {
    open spec fn of(self, row: Seq<C>) -> Seq<C> {
        soft_steps::<R, C>(self.scale, row)
    }

    fn map(&self, row: &[C]) -> Vec<C> {
        let n: usize = row.len();
        let mut vals: Vec<R> = Vec::with_capacity(n);
        for j in 0..n
            invariant
                lawful::<R>(),
                n == row@.len(),
                vals@.len() == j,
                forall|k: int| 0 <= k < j ==> #[trigger] vals@[k] == row@[k].stands_for(),
        {
            vals.push(row[j].widened());
        }
        assert(vals@ =~= wide::<R, C>(row@));
        let m = top_of(&vals);
        let ghost (ds, es) = (shifted::<R, C>(row@), raised::<R, C>(row@));
        let mut d: Vec<C> = Vec::with_capacity(n);
        let mut e: Vec<C> = Vec::with_capacity(n);
        let mut sum = zero::<R>();
        for j in 0..n
            invariant
                lawful::<R>(),
                n == row@.len(),
                vals@ == wide::<R, C>(row@),
                m == top(wide::<R, C>(row@), row@.len()),
                ds == shifted::<R, C>(row@),
                es == raised::<R, C>(row@),
                d@.len() == j,
                e@.len() == j,
                forall|k: int| 0 <= k < j ==> #[trigger] d@[k] == ds[k],
                forall|k: int| 0 <= k < j ==> #[trigger] e@[k] == es[k],
                sum == fsum(j as nat, |k: int| es[k].stands_for()),
        {
            let x = C::stored(minus(vals[j], m));
            let y = C::stored(exp(x.widened()));
            sum = plus(sum, y.widened());
            d.push(x);
            e.push(y);
            assert(d@[j as int] == ds[j as int]);
            assert(e@[j as int] == es[j as int]);
        }
        let s = C::stored(sum).widened();
        let l = C::stored(ln(s)).widened();
        let ghost want = soft_steps::<R, C>(self.scale, row@);
        let mut out: Vec<C> = Vec::with_capacity(n);
        for j in 0..n
            invariant
                lawful::<R>(),
                n == row@.len(),
                ds == shifted::<R, C>(row@),
                es == raised::<R, C>(row@),
                d@.len() == n,
                e@.len() == n,
                forall|k: int| 0 <= k < n ==> #[trigger] d@[k] == ds[k],
                forall|k: int| 0 <= k < n ==> #[trigger] e@[k] == es[k],
                s == total::<R, C>(row@).stands_for(),
                l == C::nearest_to(rln(s)).stands_for(),
                want == soft_steps::<R, C>(self.scale, row@),
                out@.len() == j,
                forall|k: int| 0 <= k < j ==> #[trigger] out@[k] == want[k],
        {
            assert(d@[j as int] == ds[j as int]);
            assert(e@[j as int] == es[j as int]);
            match self.scale {
                Scale::Linear => out.push(C::stored(over(e[j].widened(), s))),
                Scale::Log => out.push(C::stored(minus(d[j].widened(), l))),
            }
        }
        assert(out@ =~= want);
        out
    }
}

/// Softmax over any dimension, each step of it stored.
pub fn softmax<R: Real, C: Element<R>>(x: &Tensor<C>, dim: usize) -> (r: Result<Tensor<C>, Error>)
    requires
        lawful::<R>(),
        x.wf(),
    ensures
        r is Ok <==> dim < x.dims@.len(),
        r matches Err(e) ==> e == (Error::Axis { dim, rank: x.dims@.len() as usize }),
        r matches Ok(t) ==> t.wf() && t.dims@ == x.dims@ && mapped_along::<R, C, Steps>(
            (Steps { scale: Scale::Linear }),
            x.data@,
            t.data@,
            x.dims@,
            dim as int,
        ),
{
    along::<R, C, Steps>(Steps { scale: Scale::Linear }, x, dim)
}

/// Log-softmax over any dimension, each step of it stored.
pub fn log_softmax<R: Real, C: Element<R>>(x: &Tensor<C>, dim: usize) -> (r: Result<Tensor<C>, Error>)
    requires
        lawful::<R>(),
        x.wf(),
    ensures
        r is Ok <==> dim < x.dims@.len(),
        r matches Err(e) ==> e == (Error::Axis { dim, rank: x.dims@.len() as usize }),
        r matches Ok(t) ==> t.wf() && t.dims@ == x.dims@ && mapped_along::<R, C, Steps>(
            (Steps { scale: Scale::Log }),
            x.data@,
            t.data@,
            x.dims@,
            dim as int,
        ),
{
    along::<R, C, Steps>(Steps { scale: Scale::Log }, x, dim)
}

// -- norm --

/// `out` is the weight, stretched over the levelled rows; the rows are levelled wide and stored
/// before the weight is applied, and each product is stored.
pub open spec fn weighs<R: Real, C: Element<R>>(
    x: Tensor<C>,
    weight: Tensor<C>,
    eps: R,
    level: Seq<R>,
    out: Seq<C>,
) -> bool {
    &&& rowwise(
        level,
        elems(x.dims@.drop_last()),
        x.last_dim(),
        level_rows(wide::<R, C>(x.data@), eps, x.last_dim()),
    )
    &&& out == pairs::<R, C>(
        Pairwise::Product,
        x.dims@,
        narrow::<R, C>(level),
        weight.dims@,
        weight.data@,
    )
}

/// RMS normalisation. The reduction runs wide; its result is stored at the input's width before the
/// weight is applied.
pub fn rms_norm<R: Real, C: Element<R>>(x: &Tensor<C>, weight: &Tensor<C>, eps: R) -> (r: Result<
    Tensor<C>,
    Error,
>)
    requires
        lawful::<R>(),
        x.wf(),
        weight.wf(),
    ensures
        ({
            let dims = joined(x.dims@, weight.dims@);
            if x.dims@.len() == 0 {
                r == Err::<Tensor<C>, Error>(Error::Rank { want: 1, have: 0 })
            } else if dims is None || elems(dims->0) > usize::MAX {
                r == Err::<Tensor<C>, Error>(Error::Shape)
            } else {
                r is Ok && r->Ok_0.wf() && r->Ok_0.dims@ == dims->0 && exists|level: Seq<R>|
                    #[trigger] weighs::<R, C>(*x, *weight, eps, level, r->Ok_0.data@)
            }
        }),
{
    let level = match level_all(&widened::<R, C>(x), eps) {
        Ok(t) => t,
        Err(e) => return Err(e),
    };
    let kept = stored::<R, C>(&level);
    match broadcast(Pairwise::Product, &widened::<R, C>(&kept), &widened::<R, C>(weight)) {
        Ok(full) => {
            let t = stored::<R, C>(&full);
            assert(weighs::<R, C>(*x, *weight, eps, level.data@, t.data@));
            Ok(t)
        },
        Err(e) => Err(e),
    }
}

// -- activations --

/// `1 / (exp(-v) + 1)`, each step stored.
pub open spec fn sigmoid_steps<R: Real, C: Element<R>>(v: C) -> C {
    let n = C::nearest_to(rneg(v.stands_for()));
    let e = C::nearest_to(rexp(n.stands_for()));
    let s = C::nearest_to(radd(e.stands_for(), rint::<R>(1)));
    C::nearest_to(rdiv(rint::<R>(1), s.stands_for()))
}

/// `v` times its sigmoid, each step stored.
pub open spec fn silu_steps<R: Real, C: Element<R>>(v: C) -> C {
    C::nearest_to(rmul(v.stands_for(), sigmoid_steps::<R, C>(v).stands_for()))
}

fn sigmoid_of<R: Real, C: Element<R>>(v: C) -> (r: C)
    requires
        lawful::<R>(),
    ensures
        r == sigmoid_steps::<R, C>(v),
{
    let n = C::stored(neg(v.widened()));
    let e = C::stored(exp(n.widened()));
    let s = C::stored(plus(e.widened(), int_to::<R>(1)));
    C::stored(over(int_to::<R>(1), s.widened()))
}

/// Sigmoid, each step stored.
pub fn sigmoid<R: Real, C: Element<R>>(x: &Tensor<C>) -> (r: Result<Tensor<C>, Error>)
    requires
        lawful::<R>(),
        x.wf(),
    ensures
        r matches Ok(t) && t.wf() && t.dims@ == x.dims@ && t.data@ == Seq::new(
            x.data@.len(),
            |i: int| sigmoid_steps::<R, C>(x.data@[i]),
        ),
{
    let ghost want = Seq::new(x.data@.len(), |i: int| sigmoid_steps::<R, C>(x.data@[i]));
    let mut data: Vec<C> = Vec::with_capacity(x.data.len());
    for i in 0..x.data.len()
        invariant
            lawful::<R>(),
            want == Seq::new(x.data@.len(), |i: int| sigmoid_steps::<R, C>(x.data@[i])),
            data@.len() == i,
            forall|j: int| 0 <= j < i ==> #[trigger] data@[j] == want[j],
    {
        data.push(sigmoid_of::<R, C>(x.data[i]));
    }
    assert(data@ =~= want);
    Ok(Tensor { dims: copy_run(&x.dims), data })
}

/// SiLU: each value times its sigmoid, each step stored.
pub fn silu<R: Real, C: Element<R>>(x: &Tensor<C>) -> (r: Result<Tensor<C>, Error>)
    requires
        lawful::<R>(),
        x.wf(),
    ensures
        r matches Ok(t) && t.wf() && t.dims@ == x.dims@ && t.data@ == Seq::new(
            x.data@.len(),
            |i: int| silu_steps::<R, C>(x.data@[i]),
        ),
{
    let ghost want = Seq::new(x.data@.len(), |i: int| silu_steps::<R, C>(x.data@[i]));
    let mut data: Vec<C> = Vec::with_capacity(x.data.len());
    for i in 0..x.data.len()
        invariant
            lawful::<R>(),
            want == Seq::new(x.data@.len(), |i: int| silu_steps::<R, C>(x.data@[i])),
            data@.len() == i,
            forall|j: int| 0 <= j < i ==> #[trigger] data@[j] == want[j],
    {
        let v = x.data[i];
        data.push(C::stored(times(v.widened(), sigmoid_of::<R, C>(v).widened())));
    }
    assert(data@ =~= want);
    Ok(Tensor { dims: copy_run(&x.dims), data })
}

/// `silu(gate) * up`, widened, gated and stored once at the width of the output.
pub open spec fn gated<R: Real, G: Carrier<R>, U: Carrier<R>, D: Element<R>>(
    g: Seq<G>,
    u: Seq<U>,
) -> Seq<D> {
    Seq::new(
        g.len(),
        |i: int| D::nearest_to(rmul(silu_at(g[i].stands_for()), u[i].stands_for())),
    )
}

/// Whether two shapes are one.
fn same_dims(a: &[usize], b: &[usize]) -> (r: bool)
    ensures
        r == (a@ == b@),
{
    if a.len() != b.len() {
        return false;
    }
    for i in 0..a.len()
        invariant
            a@.len() == b@.len(),
            forall|k: int| 0 <= k < i ==> #[trigger] a@[k] == b@[k],
    {
        if a[i] != b[i] {
            return false;
        }
    }
    assert(a@ =~= b@);
    true
}

/// Gated activation of two projections stored at any width, its result stored at the width `D`.
pub fn swiglu<R: Real, G: Carrier<R>, U: Carrier<R>, D: Element<R>>(
    gate: &Tensor<G>,
    up: &Tensor<U>,
) -> (r: Result<Tensor<D>, Error>)
    requires
        lawful::<R>(),
        gate.wf(),
        up.wf(),
    ensures
        r is Ok <==> gate.dims@ == up.dims@,
        r matches Err(e) ==> e == Error::Shape,
        r matches Ok(t) ==> t.wf() && t.dims@ == gate.dims@ && t.data@ == gated::<R, G, U, D>(
            gate.data@,
            up.data@,
        ),
{
    if !same_dims(&gate.dims, &up.dims) {
        return Err(Error::Shape);
    }
    let full = match crate::ops::activation::silu(&widened::<R, G>(gate)) {
        Ok(t) => t,
        Err(e) => return Err(e),
    };
    let ghost want = gated::<R, G, U, D>(gate.data@, up.data@);
    let size: usize = gate.data.len();
    let mut data: Vec<D> = Vec::with_capacity(size);
    for i in 0..size
        invariant
            lawful::<R>(),
            size == gate.data@.len(),
            size == up.data@.len(),
            full.data@ == Seq::new(size as nat, |i: int| silu_at(wide::<R, G>(gate.data@)[i])),
            want == gated::<R, G, U, D>(gate.data@, up.data@),
            data@.len() == i,
            forall|k: int| 0 <= k < i ==> #[trigger] data@[k] == want[k],
    {
        data.push(D::stored(times(full.data[i], up.data[i].widened())));
    }
    assert(data@ =~= want);
    Ok(Tensor { dims: copy_run(&gate.dims), data })
}

// -- rotary embedding --

/// `a * b`, stored.
pub open spec fn product<R: Real, C: Element<R>>(a: C, b: C) -> C {
    C::nearest_to(rmul(a.stands_for(), b.stands_for()))
}

/// `a - b`, stored.
pub open spec fn difference<R: Real, C: Element<R>>(a: C, b: C) -> C {
    C::nearest_to(rsub(a.stands_for(), b.stands_for()))
}

/// `a + b`, stored.
pub open spec fn sum<R: Real, C: Element<R>>(a: C, b: C) -> C {
    C::nearest_to(radd(a.stands_for(), b.stands_for()))
}

fn product_of<R: Real, C: Element<R>>(a: C, b: C) -> (r: C)
    requires
        lawful::<R>(),
    ensures
        r == product::<R, C>(a, b),
{
    C::stored(times(a.widened(), b.widened()))
}

fn difference_of<R: Real, C: Element<R>>(a: C, b: C) -> (r: C)
    requires
        lawful::<R>(),
    ensures
        r == difference::<R, C>(a, b),
{
    C::stored(minus(a.widened(), b.widened()))
}

fn sum_of<R: Real, C: Element<R>>(a: C, b: C) -> (r: C)
    requires
        lawful::<R>(),
    ensures
        r == sum::<R, C>(a, b),
{
    C::stored(plus(a.widened(), b.widened()))
}

/// The pairs of a row, each turned by the angle whose cosine and sine stand at `base + j`, each step
/// stored. A value without a partner is left out.
pub open spec fn turned<R: Real, C: Element<R>>(
    pairing: Pairing,
    x: Seq<C>,
    cos: Seq<C>,
    sin: Seq<C>,
    base: int,
) -> Seq<C> {
    let half = x.len() as int / 2;
    Seq::new(
        (2 * half) as nat,
        |p: int|
            match pairing {
                Pairing::Halves => if p < half {
                    difference::<R, C>(
                        product::<R, C>(x[p], cos[base + p]),
                        product::<R, C>(x[half + p], sin[base + p]),
                    )
                } else {
                    sum::<R, C>(
                        product::<R, C>(x[p], cos[base + (p - half)]),
                        product::<R, C>(x[p - half], sin[base + (p - half)]),
                    )
                },
                Pairing::Neighbours => if p % 2 == 0 {
                    difference::<R, C>(
                        product::<R, C>(x[p], cos[base + p / 2]),
                        product::<R, C>(x[p + 1], sin[base + p / 2]),
                    )
                } else {
                    sum::<R, C>(
                        product::<R, C>(x[p - 1], sin[base + p / 2]),
                        product::<R, C>(x[p], cos[base + p / 2]),
                    )
                },
            },
    )
}

/// The rows, row `r` turned by the angles of position `r % s`.
pub open spec fn turned_rows<R: Real, C: Element<R>>(
    pairing: Pairing,
    x: Seq<C>,
    cos: Seq<C>,
    sin: Seq<C>,
    s: int,
    d: int,
) -> spec_fn(int) -> Seq<C> {
    |r: int| turned::<R, C>(pairing, span(x, r, d), cos, sin, (r % s) * (d / 2))
}

/// A table has at least `s` rows, and `half` angles in each.
pub open spec fn table_fits<C>(t: Tensor<C>, s: int, half: int) -> bool {
    t.dims@.len() > 0 && s <= t.dims@[0] && (s > 0 ==> inner(t.dims@, 0) == half)
}

/// The shape of a rotated tensor: of halves, a value without a partner is left out.
pub open spec fn turned_dims(pairing: Pairing, x: Seq<usize>) -> Seq<usize> {
    match pairing {
        Pairing::Halves => x.update(3, (2 * (x[3] / 2)) as usize),
        Pairing::Neighbours => x,
    }
}

/// What a rotation gives.
pub open spec fn rotates<R: Real, C: Element<R>>(
    pairing: Pairing,
    x: Tensor<C>,
    cos: Tensor<C>,
    sin: Tensor<C>,
    r: Result<Tensor<C>, Error>,
) -> bool {
    if x.dims@.len() != 4 {
        r == Err::<Tensor<C>, Error>(Error::Rank { want: 4, have: x.dims@.len() as usize })
    } else {
        let (s, d) = (x.dims@[2] as int, x.dims@[3] as int);
        let odd = pairing == Pairing::Neighbours && d % 2 != 0 && x.data@.len() > 0;
        if !table_fits(cos, s, d / 2) || !table_fits(sin, s, d / 2) || odd {
            r == Err::<Tensor<C>, Error>(Error::Shape)
        } else {
            r is Ok && r->Ok_0.wf() && r->Ok_0.dims@ == turned_dims(pairing, x.dims@) && rowwise(
                r->Ok_0.data@,
                elems(x.dims@.drop_last()),
                2 * (d / 2),
                turned_rows::<R, C>(pairing, x.data@, cos.data@, sin.data@, s, d),
            )
        }
    }
}

/// Whether a table has what a rotation asks of it; if so, it holds an angle for every pair of every
/// position.
fn fits<C>(t: &Tensor<C>, s: usize, half: usize) -> (r: bool)
    requires
        t.wf(),
    ensures
        r == table_fits(*t, s as int, half as int),
        r ==> s * half <= t.data@.len(),
{
    let rank: usize = t.dims.len();
    if rank == 0 || t.dims[0] < s {
        return false;
    }
    if s == 0 {
        assert(0 * half == 0) by (nonlinear_arith);
        return true;
    }
    let (n, first): (usize, usize) = (t.data.len(), t.dims[0]);
    let per: usize = n / first;
    proof {
        lemma_elems_by_dim(t.dims@, 0);
        let i = inner(t.dims@, 0);
        assert(t.dims@.take(0).len() == 0);
        assert(outer(t.dims@, 0) == 1);
        assert(n == first * i) by (nonlinear_arith)
            requires
                n == (1 * first) * i,
        ;
        vstd::arithmetic::div_mod::lemma_div_multiples_vanish(i, first as int);
        assert(s * i <= first * i) by (nonlinear_arith)
            requires
                s <= first,
                0 <= i,
        ;
    }
    per == half
}

fn turn_row<R: Real, C: Element<R>>(
    pairing: Pairing,
    x: &[C],
    cos: &[C],
    sin: &[C],
    base: usize,
) -> (out: Vec<C>)
    requires
        lawful::<R>(),
        base + x@.len() as int / 2 <= cos@.len(),
        base + x@.len() as int / 2 <= sin@.len(),
    ensures
        out@ == turned::<R, C>(pairing, x@, cos@, sin@, base as int),
{
    let (d, cs, ss): (usize, usize, usize) = (x.len(), cos.len(), sin.len());
    let half: usize = d / 2;
    let ghost want = turned::<R, C>(pairing, x@, cos@, sin@, base as int);
    let mut out: Vec<C> = Vec::with_capacity(2 * half);
    for p in 0..2 * half
        invariant
            lawful::<R>(),
            d == x@.len(),
            cs == cos@.len(),
            ss == sin@.len(),
            half == d as int / 2,
            2 * half <= d,
            base + half <= cs,
            base + half <= ss,
            want == turned::<R, C>(pairing, x@, cos@, sin@, base as int),
            out@.len() == p,
            forall|i: int| 0 <= i < p ==> #[trigger] out@[i] == want[i],
    {
        let v = match pairing {
            Pairing::Halves => if p < half {
                difference_of::<R, C>(
                    product_of::<R, C>(x[p], cos[base + p]),
                    product_of::<R, C>(x[half + p], sin[base + p]),
                )
            } else {
                let j: usize = p - half;
                sum_of::<R, C>(
                    product_of::<R, C>(x[p], cos[base + j]),
                    product_of::<R, C>(x[j], sin[base + j]),
                )
            },
            Pairing::Neighbours => if p % 2 == 0 {
                let j: usize = p / 2;
                difference_of::<R, C>(
                    product_of::<R, C>(x[p], cos[base + j]),
                    product_of::<R, C>(x[p + 1], sin[base + j]),
                )
            } else {
                let j: usize = p / 2;
                sum_of::<R, C>(
                    product_of::<R, C>(x[p - 1], sin[base + j]),
                    product_of::<R, C>(x[p], cos[base + j]),
                )
            },
        };
        out.push(v);
    }
    assert(out@ =~= want);
    out
}

/// Turn the pairs of every head.
fn rotate<R: Real, C: Element<R>>(
    pairing: Pairing,
    x: &Tensor<C>,
    cos: &Tensor<C>,
    sin: &Tensor<C>,
) -> (r: Result<Tensor<C>, Error>)
    requires
        lawful::<R>(),
        x.wf(),
        cos.wf(),
        sin.wf(),
    ensures
        rotates::<R, C>(pairing, *x, *cos, *sin, r),
{
    let rank: usize = x.dims.len();
    if rank != 4 {
        return Err(Error::Rank { want: 4, have: rank });
    }
    let (s, d): (usize, usize) = (x.dims[2], x.dims[3]);
    let half: usize = d / 2;
    let odd = match pairing {
        Pairing::Neighbours => d % 2 != 0 && x.data.len() > 0,
        Pairing::Halves => false,
    };
    if !fits(cos, s, half) || !fits(sin, s, half) || odd {
        return Err(Error::Shape);
    }
    let w: usize = 2 * half;
    let mut dims = copy_run(&x.dims);
    match pairing {
        Pairing::Halves => {
            dims[3] = w;
        },
        Pairing::Neighbours => {},
    }
    assert(dims@ =~= turned_dims(pairing, x.dims@));
    assert(dims@.drop_last() =~= x.dims@.drop_last());
    let ghost f = turned_rows::<R, C>(pairing, x.data@, cos.data@, sin.data@, s as int, d as int);
    let ghost rows = elems(x.dims@.drop_last());
    if d == 0 || x.data.len() == 0 {
        proof {
            crate::tensor::lemma_elems_nonneg(x.dims@.drop_last());
            assert(rows * w == 0) by (nonlinear_arith)
                requires
                    d == 0 ==> w == 0,
                    d > 0 ==> rows * d == 0,
                    0 <= rows,
                    0 <= d,
            ;
            assert forall|r: int, j: int| 0 <= r < rows && 0 <= j < w implies Seq::<C>::empty()[
                #[trigger] cell(w as int, r, j)
            ] == f(r)[j] by {
                assert(0 < rows * w) by (nonlinear_arith)
                    requires
                        0 < rows,
                        0 < w,
                ;
            }
        }
        return Ok(Tensor { dims, data: Vec::new() });
    }
    let n: usize = rows_of(x, d);
    let size: usize = x.data.len();
    proof {
        // positions are there, or there would be no data
        assert(x.dims@.drop_last().last() == s);
        assert(rows == elems(x.dims@.drop_last().drop_last()) * s);
        assert(s > 0) by {
            if s == 0 {
                assert(elems(x.dims@.drop_last().drop_last()) * 0 == 0) by (nonlinear_arith);
                assert(0 * d == 0) by (nonlinear_arith);
            }
        }
        lemma_no_rows(w as int, f);
    }
    let mut data: Vec<C> = Vec::with_capacity(size);
    for r in 0..n
        invariant
            lawful::<R>(),
            0 < s,
            n * d == x.data@.len(),
            half == d as int / 2,
            w == 2 * half,
            s * half <= cos.data@.len(),
            s * half <= sin.data@.len(),
            f == turned_rows::<R, C>(pairing, x.data@, cos.data@, sin.data@, s as int, d as int),
            rowwise(data@, r as int, w as int, f),
    {
        assert((r + 1) * d <= n * d) by (nonlinear_arith)
            requires
                r + 1 <= n,
                0 <= d,
        ;
        let row = span_of(&x.data, r, d);
        let q: usize = r % s;
        let room: usize = cos.data.len();
        assert(0 <= q * half && q * half + half <= s * half) by (nonlinear_arith)
            requires
                0 <= q,
                q + 1 <= s,
                0 <= half,
        ;
        let mut out = turn_row::<R, C>(pairing, row, &cos.data, &sin.data, q * half);
        assert(out@ == f(r as int));
        proof {
            lemma_row_appended(data@, out@, r as int, w as int, f);
        }
        data.append(&mut out);
    }
    Ok(Tensor { dims, data })
}

/// Rotary embedding over the halves of a head, each step stored.
pub fn rope<R: Real, C: Element<R>>(x: &Tensor<C>, cos: &Tensor<C>, sin: &Tensor<C>) -> (r: Result<
    Tensor<C>,
    Error,
>)
    requires
        lawful::<R>(),
        x.wf(),
        cos.wf(),
        sin.wf(),
    ensures
        rotates::<R, C>(Pairing::Halves, *x, *cos, *sin, r),
{
    rotate::<R, C>(Pairing::Halves, x, cos, sin)
}

/// Rotary embedding over neighbours, each step stored.
pub fn rope_i<R: Real, C: Element<R>>(x: &Tensor<C>, cos: &Tensor<C>, sin: &Tensor<C>) -> (r: Result<
    Tensor<C>,
    Error,
>)
    requires
        lawful::<R>(),
        x.wf(),
        cos.wf(),
        sin.wf(),
    ensures
        rotates::<R, C>(Pairing::Neighbours, *x, *cos, *sin, r),
{
    rotate::<R, C>(Pairing::Neighbours, x, cos, sin)
}

// -- banded attention --

/// The banded attention of stored queries, keys and values.
pub open spec fn answers<R: Real, C: Element<R>>(
    q: Tensor<C>,
    k: Tensor<C>,
    v: Tensor<C>,
    seq: usize,
    past: usize,
    out: Seq<R>,
) -> bool {
    q.dims@[3] > 0 ==> exists|c: Chunk<R>| #[trigger]
        chunk_over(
            C::kind(),
            q.dims@,
            k.dims@,
            wide::<R, C>(q.data@),
            wide::<R, C>(k.data@),
            wide::<R, C>(v.data@),
            seq,
            past,
            c,
        ) && rowwise(out, c.heads * c.rows, c.hd as int, c.answers())
}

/// Causal attention over a prefill chunk of elements of any width. A score is stored at that width
/// as it leaves its product; the weights stay wide, and so does the result.
pub fn banded_causal_attention<R: Real, C: Element<R>>(
    q: &Tensor<C>,
    k: &Tensor<C>,
    v: &Tensor<C>,
    seq: usize,
    past: usize,
) -> (r: Result<Tensor<R>, Error>)
    requires
        lawful::<R>(),
        q.wf(),
        k.wf(),
        v.wf(),
    ensures
        r is Ok <==> q.dims@.len() == 4 && k.dims@.len() > 2 && chunk_fits(
            q.dims@,
            k.dims@,
            v.dims@,
            seq as int,
            past as int,
        ),
        r matches Err(e) ==> e == banded_fault(q.dims@, k.dims@),
        r matches Ok(t) ==> t.wf() && t.dims@ == q.dims@ && answers::<R, C>(
            *q,
            *k,
            *v,
            seq,
            past,
            t.data@,
        ),
        r matches Ok(t) ==> C::kind() == Kind::Single ==> forall|m: Reading<R>| #[trigger]
            m.faithful() && m.all_finite(wide::<R, C>(q.data@)) && m.all_finite(
                wide::<R, C>(k.data@),
            ) && m.all_finite(wide::<R, C>(v.data@)) ==> causal(
                m,
                wide::<R, C>(q.data@),
                wide::<R, C>(k.data@),
                wide::<R, C>(v.data@),
                q.dims@[1] as int,
                q.dims@[2] as int,
                k.dims@[2] as int,
                q.dims@[3] as int,
                seq as int,
                past as int,
                t.data@,
            ),
{
    banded(
        C::width_kind(),
        &widened::<R, C>(q),
        &widened::<R, C>(k),
        &widened::<R, C>(v),
        seq,
        past,
    )
}

} // verus!
