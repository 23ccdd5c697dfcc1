//! The operations on rows in numbers, element by element.
use vstd::prelude::*;
use crate::arith::{
    Real, radd, rcount, rdiv, rexp, rint, rmul, rneg, rsqrt, rzero,
};
use crate::blocks::{Quantized, paired, run};
use crate::coded::cell;
use crate::exact::attention::{Reading, lemma_sum, softmax_shares_one, softmax_weighs};
use crate::exact::numbers::{exact, lemma_rsum_eq, rsum};
use crate::kfit::importance_row;
use crate::ops::activation::{gated_row, gated_rows, sigmoid_at, silu_at};
use crate::ops::attention::{
    Pairing, causal_rows, head_row, heads_in_front, heads_move_in_front, repeated, rotates, turned_rows,
};
use crate::ops::norm::{norm_rows, rms};
use crate::ops::rows::rowwise;
use crate::ops::softmax::{masked_row, soft, soft_masked_rows, soft_rows};
use crate::sums::fsum;
use crate::tensor::Tensor;
use crate::tiled::span;

verus! {

proof fn lemma_row_inside(rows: int, n: int, r: int)
    requires
        0 <= r < rows,
        0 <= n,
    ensures
        0 <= r * n,
        r * n + n <= rows * n,
{
    assert(0 <= r * n && r * n + n <= rows * n) by (nonlinear_arith)
        requires
            0 <= r < rows,
            0 <= n,
    ;
}

// -- softmax --

/// Softmax over rows of `cols`: in every row the shares make one whole, and are to each other as the
/// exponentials of the row's values.
pub proof fn softmax_rows_weigh<R: Real>(
    m: Reading<R>,
    x: Seq<R>,
    t: Seq<R>,
    rows: int,
    cols: int,
    r: int,
    i: int,
    j: int,
)
    requires
        m.faithful(),
        m.all_finite(x),
        x.len() == rows * cols,
        rowwise(t, rows, cols, soft_rows(x, cols)),
        0 <= r < rows,
        0 <= i < cols,
        0 <= j < cols,
    ensures
        (m.val)(t[r * cols + i]) * (m.exp)((m.val)(x[r * cols + j])) == (m.val)(t[r * cols + j])
            * (m.exp)((m.val)(x[r * cols + i])),
        0 as real <= (m.val)(t[r * cols + i]),
        rsum(cols as nat, |c: int| (m.val)(t[r * cols + c])) == 1 as real,
{
    lemma_row_inside(rows, cols, r);
    let row = span(x, r, cols);
    assert forall|c: int| 0 <= c < row.len() implies (m.finite)(#[trigger] row[c]) by {
        assert(row[c] == x[r * cols + c]);
    }
    softmax_weighs(m, row, i, j);
    softmax_shares_one(m, row);
    let f = |c: int| (m.val)(soft(row)[c]);
    let g = |c: int| (m.val)(t[r * cols + c]);
    assert forall|c: int| 0 <= c < cols implies #[trigger] f(c) == g(c) by {
        assert(t[cell(cols, r, c)] == (soft_rows(x, cols))(r)[c]);
    }
    lemma_rsum_eq(cols as nat, f, g);
    assert(f(i) == g(i) && f(j) == g(j));
    assert(row[i] == x[r * cols + i] && row[j] == x[r * cols + j]);
    assert((m.finite)(soft(row)[i]));
}

/// Masked softmax over rows of `cols`, a mask row for each of `pq` query positions: likewise of the
/// scores with the mask of their position added.
pub proof fn masked_softmax_rows_weigh<R: Real>(
    m: Reading<R>,
    x: Seq<R>,
    mask: Seq<R>,
    t: Seq<R>,
    rows: int,
    pq: int,
    cols: int,
    r: int,
    i: int,
    j: int,
)
    requires
        m.faithful(),
        m.all_finite(x),
        m.all_finite(mask),
        x.len() == rows * cols,
        0 < pq,
        mask.len() == pq * cols,
        rowwise(t, rows, cols, soft_masked_rows(x, mask, pq, cols)),
        0 <= r < rows,
        0 <= i < cols,
        0 <= j < cols,
    ensures
        ({
            let s = |c: int| (m.val)(x[r * cols + c]) + (m.val)(mask[(r % pq) * cols + c]);
            (m.val)(t[r * cols + i]) * (m.exp)(s(j)) == (m.val)(t[r * cols + j]) * (m.exp)(s(i))
        }),
        rsum(cols as nat, |c: int| (m.val)(t[r * cols + c])) == 1 as real,
{
    lemma_row_inside(rows, cols, r);
    lemma_row_inside(pq, cols, r % pq);
    let row = masked_row(x, mask, pq, cols, r);
    assert forall|c: int| 0 <= c < row.len() implies (m.finite)(#[trigger] row[c]) && (m.val)(row[c])
        == (m.val)(x[r * cols + c]) + (m.val)(mask[(r % pq) * cols + c]) by {
        assert(row[c] == radd(x[r * cols + c], mask[(r % pq) * cols + c]));
        assert((m.finite)(x[r * cols + c]) && (m.finite)(mask[(r % pq) * cols + c]));
    }
    softmax_weighs(m, row, i, j);
    softmax_shares_one(m, row);
    let f = |c: int| (m.val)(soft(row)[c]);
    let g = |c: int| (m.val)(t[r * cols + c]);
    assert forall|c: int| 0 <= c < cols implies #[trigger] f(c) == g(c) by {
        assert(t[cell(cols, r, c)] == (soft_masked_rows(x, mask, pq, cols))(r)[c]);
    }
    lemma_rsum_eq(cols as nat, f, g);
    assert(f(i) == g(i) && f(j) == g(j));
    assert((m.finite)(row[i]) && (m.finite)(row[j]));
}

// -- root mean square --

/// One is one, negation negates, counts count and roots of what is not negative are roots.
pub open spec fn reads_roots<R: Real>(m: Reading<R>) -> bool {
    &&& m.is(rint::<R>(1), 1 as real)
    &&& forall|a: R| (m.finite)(a) ==> m.is(#[trigger] rneg(a), -(m.val)(a))
    &&& forall|n: usize| m.is(#[trigger] rcount::<R>(n), n as real)
    &&& forall|a: R|
        (m.finite)(a) && 0 as real <= (m.val)(a) ==> (m.finite)(#[trigger] rsqrt(a)) && 0 as real
            <= (m.val)(rsqrt(a)) && (m.val)(rsqrt(a)) * (m.val)(rsqrt(a)) == (m.val)(a)
}

/// A row of `h` values at `at`, over its root mean square `rho`, each value under its weight.
pub open spec fn levelled_by<R: Real>(
    m: Reading<R>,
    x: Seq<R>,
    w: Seq<R>,
    out: Seq<R>,
    at: int,
    h: int,
    eps: real,
    rho: real,
) -> bool {
    &&& rho > 0 as real
    &&& (h as real) * (rho * rho) == rsum(
        h as nat,
        |i: int| (m.val)(x[at + i]) * (m.val)(x[at + i]),
    ) + (h as real) * eps
    &&& forall|i: int|
        0 <= i < h ==> (m.val)(#[trigger] out[at + i]) * rho == (m.val)(x[at + i]) * (m.val)(w[i])
}

proof fn lemma_rho(n: real, q: real, e: real, s: real, rho: real)
    requires
        n > 0 as real,
        q * n == s,
        s + n * e > 0 as real,
        0 as real <= q + e ==> 0 as real <= rho && rho * rho == q + e,
    ensures
        0 as real <= q + e,
        rho > 0 as real,
        n * (rho * rho) == s + n * e,
{
    let t = q + e;
    assert(n * t == n * q + n * e) by (nonlinear_arith)
        requires
            t == q + e,
    ;
    assert(n * q == q * n) by (nonlinear_arith);
    assert(t > 0 as real) by (nonlinear_arith)
        requires
            n > 0 as real,
            n * t > 0 as real,
    ;
    assert(rho != 0 as real) by (nonlinear_arith)
        requires
            rho * rho > 0 as real,
    ;
}

/// Root-mean-square normalisation over rows of `h`.
pub proof fn norm_levels_rows<R: Real>(
    m: Reading<R>,
    x: Seq<R>,
    w: Seq<R>,
    eps: R,
    t: Seq<R>,
    rows: int,
    h: usize,
    r: int,
)
    requires
        m.faithful(),
        reads_roots(m),
        m.all_finite(x),
        m.all_finite(w),
        (m.finite)(eps),
        h > 0,
        w.len() == h,
        x.len() == rows * h,
        rowwise(t, rows, h as int, norm_rows(x, w, eps, h as int)),
        0 <= r < rows,
        rsum(h as nat, |i: int| (m.val)(x[r * h + i]) * (m.val)(x[r * h + i])) + (h as real) * (
        m.val)(eps) > 0 as real,
    ensures
        exists|rho: real| #[trigger]
            levelled_by(m, x, w, t, r * h, h as int, (m.val)(eps), rho),
{
    lemma_row_inside(rows, h as int, r);
    let row = span(x, r, h as int);
    assert(row.len() == h);
    let f = |i: int| rmul(row[i], row[i]);
    let g = |i: int| (m.val)(x[r * h + i]) * (m.val)(x[r * h + i]);
    assert forall|i: int| 0 <= i < h implies m.is(#[trigger] f(i), g(i)) by {
        assert(row[i] == x[r * h + i]);
        assert((m.finite)(x[r * h + i]));
    }
    lemma_sum(m, h as nat, f, g);
    let s = fsum(row.len(), |i: int| rmul(row[i], row[i]));
    assert(s == fsum(h as nat, f)) by {
        crate::sums::lemma_fsum_eq(h as nat, |i: int| rmul(row[i], row[i]), f);
    }
    let count = rcount::<R>(row.len() as usize);
    assert(m.is(rcount::<R>(h), h as real));
    let mean = rdiv(s, count);
    let under = radd(mean, eps);
    let root = rms(row, eps);
    assert(root == rsqrt(under));
    let (n, q, e, rho) = (h as real, (m.val)(mean), (m.val)(eps), (m.val)(root));
    lemma_rho(n, q, e, rsum(h as nat, g), rho);
    assert forall|i: int| 0 <= i < h implies (m.val)(#[trigger] t[r * h + i]) * rho == (m.val)(
        x[r * h + i],
    ) * (m.val)(w[i]) by {
        assert(t[cell(h as int, r, i)] == (norm_rows(x, w, eps, h as int))(r)[i]);
        assert(row[i] == x[r * h + i]);
        assert((m.finite)(x[r * h + i]) && (m.finite)(w[i]));
        let d = rdiv(row[i], root);
        assert(t[r * h + i] == rmul(d, w[i]));
        let (a, b) = ((m.val)(d), (m.val)(w[i]));
        assert((a * b) * rho == (a * rho) * b) by (nonlinear_arith);
    }
    assert(levelled_by(m, x, w, t, r * h, h as int, (m.val)(eps), rho));
}

// -- activations --

pub(crate) proof fn lemma_logistic<R: Real>(m: Reading<R>, v: R)
    requires
        m.faithful(),
        reads_roots(m),
        (m.finite)(v),
    ensures
        (m.finite)(sigmoid_at(v)),
        (m.val)(sigmoid_at(v)) * (1 as real + (m.exp)(-(m.val)(v))) == 1 as real,
        (m.finite)(silu_at(v)),
        (m.val)(silu_at(v)) * (1 as real + (m.exp)(-(m.val)(v))) == (m.val)(v),
{
    let e = (m.exp)(-(m.val)(v));
    assert(m.is(rneg(v), -(m.val)(v)));
    assert(m.is(rexp(rneg(v)), e));
    assert(e > 0 as real);
    let k = rdiv(rint::<R>(1), radd(rint::<R>(1), rexp(rneg(v))));
    let (a, x, d) = ((m.val)(k), (m.val)(v), 1 as real + e);
    assert(a * d == 1 as real);
    assert((x * a) * d == x * (a * d)) by (nonlinear_arith);
    assert(x * (1 as real) == x) by (nonlinear_arith);
}

/// Sigmoid: each value times one plus the exponential of its negative is one.
pub proof fn sigmoid_inverts_the_logistic<R: Real>(m: Reading<R>, x: Seq<R>, t: Seq<R>, i: int)
    requires
        m.faithful(),
        reads_roots(m),
        m.all_finite(x),
        t == Seq::new(x.len(), |i: int| sigmoid_at(x[i])),
        0 <= i < x.len(),
    ensures
        (m.val)(t[i]) * (1 as real + (m.exp)(-(m.val)(x[i]))) == 1 as real,
{
    lemma_logistic(m, x[i]);
}

/// Sigmoid-weighted: each value times one plus the exponential of its negative is the value it was.
pub proof fn silu_weighs_by_the_logistic<R: Real>(m: Reading<R>, x: Seq<R>, t: Seq<R>, i: int)
    requires
        m.faithful(),
        reads_roots(m),
        m.all_finite(x),
        t == Seq::new(x.len(), |i: int| silu_at(x[i])),
        0 <= i < x.len(),
    ensures
        (m.val)(t[i]) * (1 as real + (m.exp)(-(m.val)(x[i]))) == (m.val)(x[i]),
{
    lemma_logistic(m, x[i]);
}

/// The gated activation of rows of `2 * h`: the first half of a row gates the second.
pub proof fn gate_is_the_first_half<R: Real>(
    m: Reading<R>,
    x: Seq<R>,
    t: Seq<R>,
    rows: int,
    h: int,
    r: int,
    c: int,
)
    requires
        m.faithful(),
        reads_roots(m),
        m.all_finite(x),
        x.len() == rows * (2 * h),
        rowwise(t, rows, h, gated_rows(x, 2 * h)),
        0 <= r < rows,
        0 <= c < h,
    ensures
        (m.val)(t[r * h + c]) * (1 as real + (m.exp)(-(m.val)(x[r * (2 * h) + c]))) == (m.val)(
            x[r * (2 * h) + c],
        ) * (m.val)(x[r * (2 * h) + h + c]),
{
    lemma_row_inside(rows, 2 * h, r);
    let row = span(x, r, 2 * h);
    assert(row.len() == 2 * h && row.len() as int / 2 == h);
    assert(row[c] == x[r * (2 * h) + c] && row[h + c] == x[r * (2 * h) + (h + c)]);
    assert(t[cell(h, r, c)] == (gated_rows(x, 2 * h))(r)[c]);
    assert(gated_row(row)[c] == rmul(silu_at(row[c]), row[h + c]));
    lemma_logistic(m, row[c]);
    let (a, u, d) = (
        (m.val)(silu_at(row[c])),
        (m.val)(row[h + c]),
        1 as real + (m.exp)(-(m.val)(row[c])),
    );
    assert((m.finite)(x[r * (2 * h) + c]) && (m.finite)(x[r * (2 * h) + (h + c)]));
    assert((a * u) * d == (a * d) * u) by (nonlinear_arith);
}

// -- rotary embedding --

proof fn lemma_four(nb: int, nh: int, ns: int, b: int, h: int, s: int)
    requires
        0 <= b < nb,
        0 <= h < nh,
        0 <= s < ns,
    ensures
        0 <= (b * nh + h) * ns + s < (nb * nh) * ns,
        ((b * nh + h) * ns + s) % ns == s,
{
    lemma_row_inside(nb, nh, b);
    let q = b * nh + h;
    assert(0 <= q < nb * nh);
    lemma_row_inside(nb * nh, ns, q);
    vstd::arithmetic::div_mod::lemma_fundamental_div_mod_converse(q * ns + s, ns, q, s);
}

/// Rotary embedding over halves: at `[b, h, s]`, the pair `(j, j + d / 2)` is turned by the angle
/// whose cosine and sine stand at `[s, j]`.
pub proof fn halves_are_turned<R: Real>(
    val: spec_fn(R) -> real,
    x: Tensor<R>,
    cos: Tensor<R>,
    sin: Tensor<R>,
    t: Tensor<R>,
    b: int,
    h: int,
    s: int,
    j: int,
)
    requires
        exact(val),
        x.wf(),
        x.dims@.len() == 4,
        cos.dims@.len() > 0,
        rotates(Pairing::Halves, x, cos, sin, Ok(t)),
        0 <= b < x.dims@[0],
        0 <= h < x.dims@[1],
        0 <= s < x.dims@[2],
        0 <= j < x.dims@[3] as int / 2,
    ensures
        ({
            let d = x.dims@[3] as int;
            let p = ((b * x.dims@[1] + h) * x.dims@[2] + s) * d;
            let a = s * cos.dims@.last() + j;
            let (c, n) = (val(cos.data@[a]), val(sin.data@[a]));
            let (u, v) = (val(x.data@[p + j]), val(x.data@[p + d / 2 + j]));
            &&& val(t.data@[p + j]) == u * c - v * n
            &&& val(t.data@[p + d / 2 + j]) == v * c + u * n
        }),
{
    let d = x.dims@[3] as int;
    let r = (b * x.dims@[1] + h) * x.dims@[2] + s;
    let rows = (x.dims@[0] * x.dims@[1]) * x.dims@[2];
    lemma_four(x.dims@[0] as int, x.dims@[1] as int, x.dims@[2] as int, b, h, s);
    lemma_row_inside(rows, d, r);
    let row = span(x.data@, r, d);
    let half = d / 2;
    let f = turned_rows(
        Pairing::Halves,
        x.data@,
        cos.data@,
        sin.data@,
        x.dims@[2] as int,
        d,
        cos.dims@.last() as int,
    );
    assert(t.data@[cell(d, r, j)] == f(r)[j]);
    assert(t.data@[cell(d, r, half + j)] == f(r)[half + j]);
    assert(row[j] == x.data@[r * d + j] && row[half + j] == x.data@[r * d + (half + j)]);
    assert((half + j) - half == j);
}

/// Rotary embedding over neighbours: likewise the pair `(2 j, 2 j + 1)`.
pub proof fn neighbours_are_turned<R: Real>(
    val: spec_fn(R) -> real,
    x: Tensor<R>,
    cos: Tensor<R>,
    sin: Tensor<R>,
    t: Tensor<R>,
    b: int,
    h: int,
    s: int,
    j: int,
)
    requires
        exact(val),
        x.wf(),
        x.dims@.len() == 4,
        cos.dims@.len() > 0,
        rotates(Pairing::Neighbours, x, cos, sin, Ok(t)),
        0 <= b < x.dims@[0],
        0 <= h < x.dims@[1],
        0 <= s < x.dims@[2],
        0 <= j < x.dims@[3] as int / 2,
    ensures
        ({
            let d = x.dims@[3] as int;
            let p = ((b * x.dims@[1] + h) * x.dims@[2] + s) * d;
            let a = s * cos.dims@.last() + j;
            let (c, n) = (val(cos.data@[a]), val(sin.data@[a]));
            let (u, v) = (val(x.data@[p + 2 * j]), val(x.data@[p + 2 * j + 1]));
            &&& val(t.data@[p + 2 * j]) == u * c - v * n
            &&& val(t.data@[p + 2 * j + 1]) == u * n + v * c
        }),
{
    let d = x.dims@[3] as int;
    let r = (b * x.dims@[1] + h) * x.dims@[2] + s;
    let rows = (x.dims@[0] * x.dims@[1]) * x.dims@[2];
    lemma_four(x.dims@[0] as int, x.dims@[1] as int, x.dims@[2] as int, b, h, s);
    lemma_row_inside(rows, d, r);
    let row = span(x.data@, r, d);
    let f = turned_rows(
        Pairing::Neighbours,
        x.data@,
        cos.data@,
        sin.data@,
        x.dims@[2] as int,
        d,
        cos.dims@.last() as int,
    );
    assert(t.data@[cell(d, r, 2 * j)] == f(r)[2 * j]);
    assert(t.data@[cell(d, r, 2 * j + 1)] == f(r)[2 * j + 1]);
    assert(row[2 * j] == x.data@[r * d + 2 * j]);
    assert(row[2 * j + 1] == x.data@[r * d + (2 * j + 1)]);
    assert((2 * j) / 2 == j && (2 * j + 1) / 2 == j && (2 * j) % 2 == 0 && (2 * j + 1) % 2 == 1);
}

// -- heads --

/// Heads in front of positions: `[b, h, s, j]` of the answer is `[b, s, h, j]` of the projection.
pub proof fn heads_keep_their_values<T>(
    x: Seq<T>,
    o: Seq<T>,
    nb: int,
    heads: int,
    seq: int,
    hd: int,
    b: int,
    h: int,
    s: int,
    j: int,
)
    requires
        x.len() == ((nb * seq) * heads) * hd,
        rowwise(o, (nb * heads) * seq, hd, heads_in_front(x, heads, seq, hd)),
        0 <= b < nb,
        0 <= h < heads,
        0 <= s < seq,
        0 <= j < hd,
    ensures
        o[((b * heads + h) * seq + s) * hd + j] == x[((b * seq + s) * heads + h) * hd + j],
{
    lemma_four(nb, heads, seq, b, h, s);
    lemma_four(nb, seq, heads, b, s, h);
    heads_move_in_front(heads, seq, b, h, s);
    let (r, from) = ((b * heads + h) * seq + s, (b * seq + s) * heads + h);
    lemma_row_inside((nb * seq) * heads, hd, from);
    assert(head_row(heads, seq, r) == from);
    assert(o[cell(hd, r, j)] == (heads_in_front(x, heads, seq, hd))(r)[j]);
    assert(span(x, from, hd)[j] == x[from * hd + j]);
}

/// Repeated heads: each of the `n` copies of head `h` of batch `b` holds that head's values.
pub proof fn repeated_heads_keep_their_values<T>(
    x: Seq<T>,
    o: Seq<T>,
    nb: int,
    heads: int,
    n: int,
    w: int,
    b: int,
    h: int,
    i: int,
    j: int,
)
    requires
        x.len() == (nb * heads) * w,
        rowwise(o, (nb * heads) * n, w, repeated(x, w, n)),
        0 <= b < nb,
        0 <= h < heads,
        0 <= i < n,
        0 <= j < w,
    ensures
        o[((b * heads + h) * n + i) * w + j] == x[(b * heads + h) * w + j],
{
    lemma_four(nb, heads, n, b, h, i);
    lemma_row_inside(nb, heads, b);
    let q = b * heads + h;
    lemma_row_inside(nb * heads, w, q);
    vstd::arithmetic::div_mod::lemma_fundamental_div_mod_converse(q * n + i, n, q, i);
    assert(o[cell(w, q * n + i, j)] == (repeated(x, w, n))(q * n + i)[j]);
    assert(span(x, q, w)[j] == x[q * w + j]);
}

// -- runs of blocks --

/// Where a run of values has room for every block, and for no more, every block is paired.
pub proof fn matching_runs_are_whole(blocks: int, w: int)
    requires
        0 <= blocks,
        0 < w,
    ensures
        paired(blocks, blocks * w, w) == blocks,
{
    vstd::arithmetic::div_mod::lemma_div_multiples_vanish(blocks, w);
    assert(blocks * w == w * blocks) by (nonlinear_arith);
}

/// A matching run decodes whole: value `b * w + e` is value `e` of block `b`.
pub proof fn matching_runs_decode_whole<R: Real, B: Quantized<R>>(
    xs: Seq<B>,
    ys: Seq<R>,
    was: Seq<R>,
    w: nat,
    b: int,
    e: int,
)
    requires
        w == B::width(),
        0 < w,
        ys.len() == xs.len() * w,
        was.len() == ys.len(),
        forall|i: int|
            0 <= i < ys.len() ==> #[trigger] ys[i] == (if i < paired(
                xs.len() as int,
                was.len() as int,
                B::width() as int,
            ) * B::width() {
                xs[i / B::width() as int].value(i % B::width() as int)
            } else {
                was[i]
            }),
        0 <= b < xs.len(),
        0 <= e < w,
    ensures
        ys[b * w + e] == xs[b].value(e),
{
    matching_runs_are_whole(xs.len() as int, w as int);
    lemma_row_inside(xs.len() as int, w as int, b);
    vstd::arithmetic::div_mod::lemma_fundamental_div_mod_converse(b * w + e, w as int, b, e);
}

/// A matching run encodes whole: block `b` is what values `b * w .. b * w + w` encode to.
pub proof fn matching_runs_encode_whole<R: Real, B: Quantized<R>>(
    xs: Seq<R>,
    ys: Seq<B>,
    w: nat,
    b: int,
)
    requires
        w == B::width(),
        0 < w,
        xs.len() == ys.len() * w,
        forall|c: int|
            0 <= c < paired(ys.len() as int, xs.len() as int, B::width() as int) ==> B::encodes(
                run(xs, c, B::width() as int),
                #[trigger] ys[c],
            ),
        0 <= b < ys.len(),
    ensures
        B::encodes(xs.subrange(b * w, b * w + w), ys[b]),
{
    matching_runs_are_whole(ys.len() as int, w as int);
    assert(B::encodes(run(xs, b, w as int), ys[b]));
}

/// Under a row of importances for rows of `n` values, block `b` of a run of blocks of `w` takes the
/// importances of the columns it lies in.
pub proof fn importances_follow_the_columns<T>(imp: Seq<T>, b: int, n: int, w: int)
    requires
        0 <= b,
        0 < w,
        0 < n,
        n % w == 0,
    ensures
        run(imp, importance_row(b, n, w), w) == imp.subrange((b * w) % n, (b * w) % n + w),
{
    let k = n / w;
    vstd::arithmetic::div_mod::lemma_fundamental_div_mod(n, w);
    assert(n == w * k);
    assert(k > 0) by (nonlinear_arith)
        requires
            n == w * k,
            0 < n,
            0 < w,
    ;
    let (q, r) = (b / k, b % k);
    vstd::arithmetic::div_mod::lemma_fundamental_div_mod(b, k);
    assert(b * w == q * n + r * w) by (nonlinear_arith)
        requires
            b == k * q + r,
            n == w * k,
    ;
    assert(0 <= r * w < n) by (nonlinear_arith)
        requires
            0 <= r < k,
            0 < w,
            n == w * k,
    ;
    vstd::arithmetic::div_mod::lemma_fundamental_div_mod_converse(b * w, n, q, r * w);
}

/// The causal mask of `n` positions: position `i` sees `j` where `j` is not after it.
pub proof fn masks_hide_what_comes_after<R: Real>(t: Seq<R>, n: int, masked: R, i: int, j: int)
    requires
        rowwise(t, n, n, causal_rows(n, masked)),
        0 <= i < n,
        0 <= j < n,
    ensures
        t[i * n + j] == (if i < j {
            masked
        } else {
            rzero::<R>()
        }),
{
    assert(t[cell(n, i, j)] == (causal_rows(n, masked))(i)[j]);
}

} // verus!
