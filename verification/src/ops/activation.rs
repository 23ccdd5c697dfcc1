//! Activations, and the enum that names them.
use vstd::prelude::*;
use crate::arith::{
    Half, Real, erf, exp, from_bits, int_to, lawful, max, neg, over, plus, radd, rbits, rdiv, rerf,
    rexp, rhalf, rint, rmax, rmul, rneg, rtanh, rto_half, rzero, tanh, times, zero, sums_commute,
};
use crate::coded::cell;
use crate::error::Error;
use crate::ffn::GateFn;
use crate::ops::rows::{lemma_no_rows, lemma_row_appended, rows_of, rowwise};
use crate::tensor::{Tensor, copy_run, elems};
use crate::tiled::{span, span_of};

verus! {

/// `1 / (exp(-v) + 1)`.
pub open spec fn sigmoid_at<R: Real>(v: R) -> R {
    rdiv(rint::<R>(1), radd(rexp(rneg(v)), rint::<R>(1)))
}

/// `v * (1 / (1 + exp(-v)))`.
pub open spec fn silu_at<R: Real>(v: R) -> R {
    rmul(v, rdiv(rint::<R>(1), radd(rint::<R>(1), rexp(rneg(v)))))
}

/// The activations checkpoints name, and what each one is.
///
/// The GELU family is three entries on purpose: `gelu` means the error-function form, `gelu_new`
/// and `gelu_pytorch_tanh` the tanh approximation, and `quick_gelu` a third one,
/// `x * sigmoid(1.702 x)`.
#[derive(Clone, Copy, Debug, PartialEq, Eq, Structural)]
pub enum Activation {
    Gelu,
    NewGelu,
    Relu,
    Silu,
    Sigmoid,
    GeluPytorchTanh,
    QuickGelu,
}

impl Default for Activation {
    fn default() -> (a: Activation)
        ensures
            a == Activation::Gelu,
    {
        Activation::Gelu
    }
}

/// The pattern of 0.5.
pub const ONE_HALF: u32 = 0x3f000000;

/// The pattern of the reciprocal of the root of two.
pub const ROOT_HALF: u32 = 0x3f3504f3;

/// The pattern of the root of two over pi.
pub const ROOT_TWO_OVER_PI: u32 = 0x3f4c422a;

/// The pattern of 0.044715.
pub const TANH_CUBE: u32 = 0x3d372713;

/// The pattern of 1.702.
pub const QUICK: u32 = 0x3fd9db23;

/// The error-function form: `(erf(v / sqrt(2)) + 1) * 0.5 * v`.
pub open spec fn gelu_erf_at<R: Real>(v: R) -> R {
    rmul(
        rmul(radd(rerf(rmul(v, rbits::<R>(ROOT_HALF))), rint::<R>(1)), rbits::<R>(ONE_HALF)),
        v,
    )
}

/// The tanh approximation: `0.5 * v * (1 + tanh(c * v * (1 + 0.044715 * v * v)))`.
pub open spec fn gelu_tanh_at<R: Real>(v: R) -> R {
    let inner = radd(rint::<R>(1), rmul(rmul(rbits::<R>(TANH_CUBE), v), v));
    rmul(
        rmul(rbits::<R>(ONE_HALF), v),
        radd(rint::<R>(1), rtanh(rmul(rmul(rbits::<R>(ROOT_TWO_OVER_PI), v), inner))),
    )
}

impl Activation {
    /// What a value becomes.
    pub open spec fn at<R: Real>(self, v: R) -> R {
        match self {
            Activation::Gelu => gelu_erf_at(v),
            Activation::NewGelu => gelu_tanh_at(v),
            Activation::Relu => rmax(v, rzero::<R>()),
            Activation::Silu => silu_at(v),
            Activation::Sigmoid => sigmoid_at(v),
            Activation::GeluPytorchTanh => gelu_tanh_at(v),
            Activation::QuickGelu => rmul(v, sigmoid_at(rmul(v, rbits::<R>(QUICK)))),
        }
    }

    /// What a row of values becomes.
    pub open spec fn over<R: Real>(self, x: Seq<R>) -> Seq<R> {
        Seq::new(x.len(), |i: int| self.at(x[i]))
    }

    /// What a value becomes.
    fn value<R: Real>(&self, v: R) -> (r: R)
        requires
            lawful::<R>(),
        ensures
            r == self.at(v),
    {
        match self {
            Activation::Gelu => {
                let e = plus(erf(times(v, from_bits::<R>(ROOT_HALF))), int_to::<R>(1));
                times(times(e, from_bits::<R>(ONE_HALF)), v)
            },
            Activation::NewGelu | Activation::GeluPytorchTanh => {
                let cube = times(times(from_bits::<R>(TANH_CUBE), v), v);
                let inner = plus(int_to::<R>(1), cube);
                let t = tanh(times(times(from_bits::<R>(ROOT_TWO_OVER_PI), v), inner));
                times(times(from_bits::<R>(ONE_HALF), v), plus(int_to::<R>(1), t))
            },
            Activation::Relu => max(v, zero::<R>()),
            Activation::Silu => silu_of(v),
            Activation::Sigmoid => sigmoid_of(v),
            Activation::QuickGelu => times(v, sigmoid_of(times(v, from_bits::<R>(QUICK)))),
        }
    }

    /// Apply it to every value of a tensor.
    pub fn apply<R: Real>(&self, xs: &Tensor<R>) -> (r: Result<Tensor<R>, Error>)
        requires
            lawful::<R>(),
            xs.wf(),
        ensures
            r matches Ok(t) && t.wf() && t.dims@ == xs.dims@ && t.data@ == self.over(xs.data@),
    {
        let mut data: Vec<R> = Vec::with_capacity(xs.data.len());
        for i in 0..xs.data.len()
            invariant
                lawful::<R>(),
                data@.len() == i,
                forall|k: int| 0 <= k < i ==> #[trigger] data@[k] == self.over(xs.data@)[k],
        {
            data.push(self.value(xs.data[i]));
        }
        assert(data@ =~= self.over(xs.data@));
        Ok(Tensor { dims: copy_run(&xs.dims), data })
    }
}

/// `gelu_new` and `gelu_pytorch_tanh` name one function.
pub proof fn tanh_gelus_agree<R: Real>(v: R)
    ensures
        Activation::NewGelu.at(v) == Activation::GeluPytorchTanh.at(v),
{
}

fn sigmoid_of<R: Real>(v: R) -> (r: R)
    requires
        lawful::<R>(),
    ensures
        r == sigmoid_at(v),
{
    over(int_to::<R>(1), plus(exp(neg(v)), int_to::<R>(1)))
}

fn silu_of<R: Real>(v: R) -> (r: R)
    requires
        lawful::<R>(),
    ensures
        r == silu_at(v),
{
    times(v, over(int_to::<R>(1), plus(int_to::<R>(1), exp(neg(v)))))
}

/// Sigmoid: `1 / (1 + exp(-x))`.
pub fn sigmoid<R: Real>(x: &Tensor<R>) -> (r: Result<Tensor<R>, Error>)
    requires
        lawful::<R>(),
        x.wf(),
    ensures
        r matches Ok(t) && t.wf() && t.dims@ == x.dims@ && t.data@ == Seq::new(
            x.data@.len(),
            |i: int| sigmoid_at(x.data@[i]),
        ),
{
    let ghost want = Seq::new(x.data@.len(), |i: int| sigmoid_at(x.data@[i]));
    let r = Activation::Sigmoid.apply(x);
    assert(r->Ok_0.data@ =~= want);
    r
}

/// SiLU: `x * sigmoid(x)`, the reciprocal first and the product after it.
pub fn silu<R: Real>(x: &Tensor<R>) -> (r: Result<Tensor<R>, Error>)
    requires
        lawful::<R>(),
        x.wf(),
    ensures
        r matches Ok(t) && t.wf() && t.dims@ == x.dims@ && t.data@ == Seq::new(
            x.data@.len(),
            |i: int| silu_at(x.data@[i]),
        ),
{
    let ghost want = Seq::new(x.data@.len(), |i: int| silu_at(x.data@[i]));
    let r = Activation::Silu.apply(x);
    assert(r->Ok_0.data@ =~= want);
    r
}

/// SiLU is the value times its sigmoid, for a whole tensor: `x` times `sigmoid(x)` is `silu(x)`, value
/// for value, wherever a sum does not depend on the order of its terms.
pub proof fn silu_is_x_times_sigmoid<R: Real>(x: Seq<R>, s: Seq<R>, t: Seq<R>)
    requires
        sums_commute::<R>(),
        s == Seq::new(x.len(), |i: int| sigmoid_at(x[i])),
        t == Seq::new(x.len(), |i: int| silu_at(x[i])),
    ensures
        t == Seq::new(x.len(), |i: int| rmul(x[i], s[i])),
{
    assert forall|i: int| 0 <= i < x.len() implies t[i] == rmul(x[i], s[i]) by {
        let e = rexp(rneg(x[i]));
        assert(radd(rint::<R>(1), e) == radd(e, rint::<R>(1)));
    }
    assert(t =~= Seq::new(x.len(), |i: int| rmul(x[i], s[i])));
}

/// `silu(gate) * up` of a row `[gate | up]`.
pub open spec fn gated_row<R: Real>(row: Seq<R>) -> Seq<R> {
    let i = row.len() as int / 2;
    Seq::new(i as nat, |c: int| rmul(silu_at(row[c]), row[i + c]))
}

/// Every row gated.
pub open spec fn gated_rows<R: Real>(x: Seq<R>, last: int) -> spec_fn(int) -> Seq<R> {
    |r: int| gated_row(span(x, r, last))
}

/// One row of the gated activation.
pub fn silu_mul_row<R: Real>(row: &[R]) -> (out: Vec<R>)
    requires
        lawful::<R>(),
    ensures
        out@ == gated_row(row@),
{
    let n: usize = row.len();
    let half: usize = n / 2;
    let mut out: Vec<R> = Vec::with_capacity(half);
    for c in 0..half
        invariant
            lawful::<R>(),
            n == row@.len(),
            half == n as int / 2,
            out@.len() == c,
            forall|k: int| 0 <= k < c ==> #[trigger] out@[k] == gated_row(row@)[k],
    {
        out.push(times(silu_of(row[c]), row[half + c]));
    }
    assert(out@ =~= gated_row(row@));
    out
}

/// Gated activation of a packed projection: `[.., 2 i]` = `[gate | up]` in, `[.., i]` =
/// `silu(gate) * up` out. `None` where the last dimension is empty or odd.
pub fn split_silu_mul_f32<R: Real>(up_states: &Tensor<R>) -> (r: Result<Option<Tensor<R>>, Error>)
    requires
        lawful::<R>(),
        up_states.wf(),
    ensures
        r is Ok <==> up_states.dims@.len() > 0,
        r matches Err(e) ==> e == (Error::Rank { want: 1, have: 0 }),
        r matches Ok(o) ==> (o is Some <==> up_states.last_dim() > 0 && up_states.last_dim() % 2
            == 0),
        r matches Ok(Some(t)) ==> t.wf() && t.dims@ == up_states.dims@.update(
            up_states.dims@.len() - 1,
            (up_states.last_dim() / 2) as usize,
        ) && rowwise(
            t.data@,
            elems(up_states.dims@.drop_last()),
            up_states.last_dim() / 2,
            gated_rows(up_states.data@, up_states.last_dim()),
        ),
{
    let last: usize = match up_states.last() {
        Ok(n) => n,
        Err(e) => return Err(e),
    };
    if last == 0 || last % 2 != 0 {
        return Ok(None);
    }
    let half: usize = last / 2;
    let rank: usize = up_states.dims.len();
    let rows: usize = rows_of(up_states, last);
    let ghost f = gated_rows(up_states.data@, last as int);
    let mut data: Vec<R> = Vec::new();
    proof {
        lemma_no_rows(half as int, f);
    }
    for r in 0..rows
        invariant
            lawful::<R>(),
            rows * last == up_states.data@.len(),
            half == last as int / 2,
            f == gated_rows(up_states.data@, last as int),
            rowwise(data@, r as int, half as int, f),
    {
        assert((r + 1) * last <= rows * last) by (nonlinear_arith)
            requires
                r + 1 <= rows,
                0 <= last,
        ;
        let row = span_of(&up_states.data, r, last);
        let mut out = silu_mul_row(row);
        proof {
            lemma_row_appended(data@, out@, r as int, half as int, f);
        }
        data.append(&mut out);
    }
    let mut dims: Vec<usize> = copy_run(&up_states.dims);
    dims[rank - 1] = half;
    assert(dims@.drop_last() =~= up_states.dims@.drop_last());
    Ok(Some(Tensor { dims, data }))
}

/// `silu(gate) * up` in half precision: widened, gated, and rounded once.
pub open spec fn half_gated<R: Real>(g: Seq<Half>, u: Seq<Half>) -> Seq<Half> {
    Seq::new(g.len(), |i: int| rto_half::<R>(rmul(silu_at(rhalf(g[i])), rhalf(u[i]))))
}

/// Gated activation of two half-precision projections, in one pass.
pub fn swiglu<R: Real>(gate: &Tensor<Half>, up: &Tensor<Half>) -> (r: Result<Tensor<Half>, Error>)
    requires
        lawful::<R>(),
        gate.wf(),
        up.wf(),
    ensures
        r is Ok <==> gate.dims@ == up.dims@,
        r matches Err(e) ==> e == Error::Shape,
        r matches Ok(t) ==> t.wf() && t.dims@ == gate.dims@ && t.data@ == half_gated::<R>(
            gate.data@,
            up.data@,
        ),
{
    let r = crate::ops::stored::swiglu::<R, Half, Half, Half>(gate, up);
    assert(r matches Ok(t) ==> t.data@ =~= half_gated::<R>(gate.data@, up.data@));
    r
}

/// `min(v, l)`, as the chain of an affine step, a rectifier and an affine step computes it.
pub open spec fn capped<R: Real>(v: R, l: R) -> R {
    let t = rmax(radd(rmul(rint::<R>(-1i32 as i32), v), l), rzero::<R>());
    radd(rmul(rint::<R>(-1i32 as i32), t), l)
}

/// `max(v, -l)`, by the same chain.
pub open spec fn floored<R: Real>(v: R, l: R) -> R {
    let s = rmax(radd(rmul(rint::<R>(1), v), l), rzero::<R>());
    radd(rmul(rint::<R>(1), s), rneg(l))
}

/// A clamped gate and up value, gated: `x * sigmoid(alpha * x) * (g + 1)`.
pub open spec fn oai_gated<R: Real>(g: R, u: R, alpha: R, limit: R) -> R {
    let x = capped(g, limit);
    let gg = capped(floored(u, limit), limit);
    rmul(rmul(x, sigmoid_at(rmul(alpha, x))), radd(gg, rint::<R>(1)))
}

/// A value and its column's bias, zero where there is none.
pub open spec fn biased<R: Real>(v: R, bias: Option<&Tensor<R>>, i: int) -> R {
    radd(
        v,
        match bias {
            Some(b) => b.data@[i],
            None => rzero::<R>(),
        },
    )
}

fn capped_of<R: Real>(v: R, l: R) -> (r: R)
    requires
        lawful::<R>(),
    ensures
        r == capped(v, l),
{
    let t = max(plus(times(int_to::<R>(-1), v), l), zero::<R>());
    plus(times(int_to::<R>(-1), t), l)
}

fn floored_of<R: Real>(v: R, l: R) -> (r: R)
    requires
        lawful::<R>(),
    ensures
        r == floored(v, l),
{
    let s = max(plus(times(int_to::<R>(1), v), l), zero::<R>());
    plus(times(int_to::<R>(1), s), neg(l))
}

fn biased_of<R: Real>(v: R, bias: Option<&Tensor<R>>, i: usize) -> (r: R)
    requires
        lawful::<R>(),
        bias matches Some(b) ==> i < b.data@.len(),
    ensures
        r == biased(v, bias, i as int),
{
    match bias {
        Some(b) => plus(v, b.data[i]),
        None => plus(v, zero::<R>()),
    }
}

/// Row `r` of the clamped gated activation.
pub open spec fn oai_rows<R: Real>(
    g: Seq<R>,
    u: Seq<R>,
    gbias: Option<&Tensor<R>>,
    ubias: Option<&Tensor<R>>,
    alpha: R,
    limit: R,
    n: int,
) -> spec_fn(int) -> Seq<R> {
    |r: int|
        Seq::new(
            n as nat,
            |i: int|
                oai_gated(
                    biased(g[cell(n, r, i)], gbias, i),
                    biased(u[cell(n, r, i)], ubias, i),
                    alpha,
                    limit,
                ),
        )
}

/// The clamped gated activation in one pass over the rows, the per-column biases folded in.
///
/// `gate` and `up` are `[.., n]`; the biases, where present, hold `n` values at least.
pub fn swiglu_oai<R: Real>(
    gate: &Tensor<R>,
    up: &Tensor<R>,
    gbias: Option<&Tensor<R>>,
    ubias: Option<&Tensor<R>>,
    alpha: R,
    limit: R,
) -> (r: Result<Tensor<R>, Error>)
    requires
        lawful::<R>(),
        gate.wf(),
        gate.dims@.len() > 0,
        gate.last_dim() > 0,
        gate.data@.len() <= up.data@.len(),
        gate.data@.len() > 0 ==> (gbias matches Some(b) ==> gate.last_dim() <= b.data@.len()),
        gate.data@.len() > 0 ==> (ubias matches Some(b) ==> gate.last_dim() <= b.data@.len()),
    ensures
        r matches Ok(t) && t.wf() && t.dims@ == gate.dims@ && rowwise(
            t.data@,
            elems(gate.dims@.drop_last()),
            gate.last_dim(),
            oai_rows(gate.data@, up.data@, gbias, ubias, alpha, limit, gate.last_dim()),
        ),
{
    let rank: usize = gate.dims.len();
    let n: usize = gate.dims[rank - 1];
    let rows: usize = rows_of(gate, n);
    let size: usize = gate.data.len();
    let ghost f = oai_rows(gate.data@, up.data@, gbias, ubias, alpha, limit, n as int);
    let mut data: Vec<R> = Vec::with_capacity(size);
    proof {
        lemma_no_rows(n as int, f);
    }
    for r in 0..rows
        invariant
            lawful::<R>(),
            rows * n == size,
            size == gate.data@.len(),
            size <= up.data@.len(),
            size > 0 ==> (gbias matches Some(b) ==> n <= b.data@.len()),
            size > 0 ==> (ubias matches Some(b) ==> n <= b.data@.len()),
            f == oai_rows(gate.data@, up.data@, gbias, ubias, alpha, limit, n as int),
            rowwise(data@, r as int, n as int, f),
    {
        let mut row: Vec<R> = Vec::with_capacity(n);
        for i in 0..n
            invariant
                lawful::<R>(),
                r < rows,
                rows * n == size,
                size == gate.data@.len(),
                size <= up.data@.len(),
                size > 0 ==> (gbias matches Some(b) ==> n <= b.data@.len()),
                size > 0 ==> (ubias matches Some(b) ==> n <= b.data@.len()),
                f == oai_rows(gate.data@, up.data@, gbias, ubias, alpha, limit, n as int),
                row@.len() == i,
                forall|k: int| 0 <= k < i ==> #[trigger] row@[k] == f(r as int)[k],
        {
            proof {
                crate::grid::lemma_cell_inside(rows as int, n as int, r as int, i as int);
                assert(0 <= r * n) by (nonlinear_arith)
                    requires
                        0 <= r,
                        0 <= n,
                ;
            }
            let at: usize = r * n + i;
            let x = capped_of(biased_of(gate.data[at], gbias, i), limit);
            let gg = capped_of(floored_of(biased_of(up.data[at], ubias, i), limit), limit);
            let s = sigmoid_of(times(alpha, x));
            row.push(times(times(x, s), plus(gg, int_to::<R>(1))));
        }
        assert(row@ =~= f(r as int));
        proof {
            lemma_row_appended(data@, row@, r as int, n as int, f);
        }
        data.append(&mut row);
    }
    Ok(Tensor { dims: copy_run(&gate.dims), data })
}

/// `silu(gate) * up` of one pair of values.
#[derive(Clone, Copy, Debug)]
pub struct SiluGate;

impl<R: Real> GateFn<R> for SiluGate {
    open spec fn gated(&self, g: R, u: R) -> R {
        rmul(silu_at(g), u)
    }

    fn gate(&self, g: R, u: R) -> (r: R) {
        times(silu_of(g), u)
    }
}

} // verus!
