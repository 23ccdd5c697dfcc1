//! Causal attention in numbers: what each value of the answer is, in the elements of the queries,
//! the keys and the values.
use vstd::prelude::*;
use crate::arith::{Half, Real, rhalf, rto_half};
use crate::exact::attention::{Reading, finite_halves, lemma_banded_row, lemma_half_row};
use crate::exact::numbers::{lemma_rsum_eq, rsum};
use crate::float::Kind;
use crate::ops::attention::{Chunk, HalfChunk};

verus! {

/// The product of row `ra` of `a` and row `rb` of `b`, rows of `hd`: the sum over all `hd` places.
pub open spec fn row_product(
    a: spec_fn(int) -> real,
    b: spec_fn(int) -> real,
    hd: int,
    ra: int,
    rb: int,
) -> real {
    rsum(hd as nat, |j: int| a(ra * hd + j) * b(rb * hd + j))
}

/// How many keys position `p` of a chunk sees: those before the chunk, and its own up to `p`.
pub open spec fn visible(past: int, p: int, kv: int) -> nat {
    if past + p + 1 < kv {
        (past + p + 1) as nat
    } else {
        kv as nat
    }
}

/// `x` is value `i` of attention for row `r` of key head `g`: the values of the `n` keys the row
/// sees, each weighed by the exponential of its score, over the sum of the weights. The score of
/// key `c` is `scale` times the product of the row and the key.
pub open spec fn attends(
    exp: spec_fn(real) -> real,
    q: spec_fn(int) -> real,
    k: spec_fn(int) -> real,
    v: spec_fn(int) -> real,
    scale: real,
    rows: int,
    kv: int,
    hd: int,
    n: nat,
    g: int,
    r: int,
    i: int,
    x: real,
) -> bool {
    let w = |c: int| exp(scale * row_product(q, k, hd, g * rows + r, g * kv + c));
    x * rsum(n, w) == rsum(n, |c: int| w(c) * v((g * kv + c) * hd + i)) && rsum(n, w) > 0 as real
}

/// The numbers of a run of values.
pub open spec fn numbers<R: Real>(m: Reading<R>, s: Seq<R>) -> spec_fn(int) -> real {
    |i: int| (m.val)(s[i])
}

/// The numbers of a run of half-precision values.
pub open spec fn half_numbers<R: Real>(m: Reading<R>, s: Seq<Half>) -> spec_fn(int) -> real {
    |i: int| (m.val)(rhalf::<R>(s[i]))
}

/// `t` is causal attention over queries of `heads` key heads and `rows` rows each, keys and values
/// of `kv` rows, rows of `hd`: row `r` of a head stands at position `r % seq` of the chunk, after
/// `past` keys.
pub open spec fn causal<R: Real>(
    m: Reading<R>,
    q: Seq<R>,
    k: Seq<R>,
    v: Seq<R>,
    heads: int,
    rows: int,
    kv: int,
    hd: int,
    seq: int,
    past: int,
    t: Seq<R>,
) -> bool {
    forall|g: int, r: int, i: int|
        0 <= g < heads && 0 <= r < rows && 0 <= i < hd ==> (m.finite)(
            t[#[trigger] place(rows, hd, g, r, i)],
        ) && attends(
            m.exp,
            numbers(m, q),
            numbers(m, k),
            numbers(m, v),
            1 as real,
            rows,
            kv,
            hd,
            visible(past, r % seq, kv),
            g,
            r,
            i,
            (m.val)(t[place(rows, hd, g, r, i)]),
        )
}

/// Where value `i` of row `r` of head `g` lies.
pub open spec fn place(rows: int, hd: int, g: int, r: int, i: int) -> int {
    (g * rows + r) * hd + i
}

/// `y` is an answer of attention over half-precision values, rounded once.
pub open spec fn half_attends<R: Real>(
    m: Reading<R>,
    q: Seq<Half>,
    k: Seq<Half>,
    v: Seq<Half>,
    scale: R,
    rows: int,
    kv: int,
    hd: int,
    n: nat,
    g: int,
    r: int,
    i: int,
    y: Half,
) -> bool {
    exists|x: R|
        y == #[trigger] rto_half::<R>(x) && (m.finite)(x) && attends(
            m.exp,
            half_numbers(m, q),
            half_numbers(m, k),
            half_numbers(m, v),
            (m.val)(scale),
            rows,
            kv,
            hd,
            n,
            g,
            r,
            i,
            (m.val)(x),
        )
}

/// `t` is causal attention over half-precision values, each answer rounded once; the scores are
/// scaled by `scale`.
pub open spec fn causal_halves<R: Real>(
    m: Reading<R>,
    q: Seq<Half>,
    k: Seq<Half>,
    v: Seq<Half>,
    scale: R,
    heads: int,
    rows: int,
    kv: int,
    hd: int,
    seq: int,
    past: int,
    t: Seq<Half>,
) -> bool {
    forall|g: int, r: int, i: int|
        0 <= g < heads && 0 <= r < rows && 0 <= i < hd ==> half_attends(
            m,
            q,
            k,
            v,
            scale,
            rows,
            kv,
            hd,
            visible(past, r % seq, kv),
            g,
            r,
            i,
            t[#[trigger] place(rows, hd, g, r, i)],
        )
}

/// The row of a head, and the head of a row.
proof fn lemma_row(heads: int, rows: int, g: int, r: int, seq: int)
    requires
        0 <= g < heads,
        0 <= r < rows,
        0 < seq,
        rows % seq == 0,
    ensures
        0 <= g * rows + r < heads * rows,
        (g * rows + r) / rows == g,
        (g * rows + r) % rows == r,
        (g * rows + r) % seq == r % seq,
{
    assert(0 <= g * rows && g * rows + rows <= heads * rows) by (nonlinear_arith)
        requires
            0 <= g < heads,
            0 <= rows,
    ;
    vstd::arithmetic::div_mod::lemma_fundamental_div_mod_converse(g * rows + r, rows, g, r);
    vstd::arithmetic::div_mod::lemma_fundamental_div_mod(rows, seq);
    let n = rows / seq;
    assert(g * (seq * n) == seq * (g * n)) by (nonlinear_arith);
    vstd::arithmetic::div_mod::lemma_mod_multiples_vanish(g * n, r, seq);
}

/// A row of banded attention, in numbers.
pub proof fn banded_row_attends<R: Real>(
    m: Reading<R>,
    chunk: Chunk<R>,
    g: int,
    r: int,
    i: int,
)
    requires
        m.faithful(),
        chunk.wf(),
        chunk.kept == Kind::Single,
        0 < chunk.kv,
        m.all_finite(chunk.q@),
        m.all_finite(chunk.k@),
        m.all_finite(chunk.v@),
        0 <= g < chunk.heads,
        0 <= r < chunk.rows,
        0 <= i < chunk.hd,
    ensures
        (m.finite)(chunk.answer(g * chunk.rows + r)[i]),
        attends(
            m.exp,
            numbers(m, chunk.q@),
            numbers(m, chunk.k@),
            numbers(m, chunk.v@),
            1 as real,
            chunk.rows as int,
            chunk.kv as int,
            chunk.hd as int,
            visible(chunk.past as int, r % chunk.seq as int, chunk.kv as int),
            g,
            r,
            i,
            (m.val)(chunk.answer(g * chunk.rows + r)[i]),
        ),
{
    let (rows, kv, hd) = (chunk.rows as int, chunk.kv as int, chunk.hd as int);
    let (q, k, v) = (numbers(m, chunk.q@), numbers(m, chunk.k@), numbers(m, chunk.v@));
    lemma_row(chunk.heads as int, rows, g, r, chunk.seq as int);
    vstd::arithmetic::div_mod::lemma_mod_bound(r, chunk.seq as int);
    let qr = g * rows + r;
    let n = visible(chunk.past as int, r % chunk.seq as int, kv);
    let s = |c: int| rsum(
        hd as nat,
        |j: int| (m.val)(chunk.q@[qr * hd + j]) * (m.val)(chunk.k@[(g * kv + c) * hd + j]),
    );
    let x = (m.val)(chunk.answer(qr)[i]);
    lemma_banded_row(m, chunk, qr, i, n);
    let w = |c: int| (m.exp)(1 as real * row_product(q, k, hd, qr, g * kv + c));
    let e = |c: int| (m.exp)(s(c));
    assert forall|c: int| 0 <= c < n implies #[trigger] e(c) == w(c) by {
        lemma_rsum_eq(
            hd as nat,
            |j: int| (m.val)(chunk.q@[qr * hd + j]) * (m.val)(chunk.k@[(g * kv + c) * hd + j]),
            |j: int| q(qr * hd + j) * k((g * kv + c) * hd + j),
        );
        let p = row_product(q, k, hd, qr, g * kv + c);
        assert(1 as real * p == p) by (nonlinear_arith);
    }
    lemma_rsum_eq(n, e, w);
    let ev = |c: int| (m.exp)(s(c)) * (m.val)(chunk.v@[(g * kv + c) * hd + i]);
    let wv = |c: int| w(c) * v((g * kv + c) * hd + i);
    assert forall|c: int| 0 <= c < n implies #[trigger] ev(c) == wv(c) by {
        assert(e(c) == w(c));
    }
    lemma_rsum_eq(n, ev, wv);
}

/// A row of the half-precision prefill, in numbers.
pub proof fn half_row_attends<R: Real>(
    m: Reading<R>,
    chunk: HalfChunk,
    scale: R,
    g: int,
    r: int,
    i: int,
) -> (x: R)
    requires
        m.faithful(),
        chunk.wf(),
        chunk.rows as int % chunk.seq as int == 0,
        (m.finite)(scale),
        finite_halves(m, chunk.q@),
        finite_halves(m, chunk.k@),
        finite_halves(m, chunk.v@),
        0 <= g < chunk.heads,
        0 <= r < chunk.rows,
        0 <= i < chunk.hd,
    ensures
        chunk.answer(g * chunk.rows + r, scale)[i] == rto_half::<R>(x),
        (m.finite)(x),
        attends(
            m.exp,
            half_numbers(m, chunk.q@),
            half_numbers(m, chunk.k@),
            half_numbers(m, chunk.v@),
            (m.val)(scale),
            chunk.rows as int,
            chunk.kv as int,
            chunk.hd as int,
            visible(chunk.past as int, r % chunk.seq as int, chunk.kv as int),
            g,
            r,
            i,
            (m.val)(x),
        ),
{
    let (rows, kv, hd) = (chunk.rows as int, chunk.kv as int, chunk.hd as int);
    let (q, k, v) = (
        half_numbers(m, chunk.q@),
        half_numbers(m, chunk.k@),
        half_numbers(m, chunk.v@),
    );
    lemma_row(chunk.heads as int, rows, g, r, chunk.seq as int);
    vstd::arithmetic::div_mod::lemma_mod_bound(r, chunk.seq as int);
    let qr = g * rows + r;
    let n = visible(chunk.past as int, r % chunk.seq as int, kv);
    let b = (m.val)(scale);
    let x = lemma_half_row(m, chunk, qr, scale, i);
    let s = |c: int| rsum(
        hd as nat,
        |j: int|
            (m.val)(rhalf::<R>(chunk.q@[qr * hd + j])) * (m.val)(
                rhalf::<R>(chunk.k@[(g * kv + c) * hd + j]),
            ),
    );
    let w = |c: int| (m.exp)(b * row_product(q, k, hd, qr, g * kv + c));
    let e = |c: int| (m.exp)(b * s(c));
    assert forall|c: int| 0 <= c < n implies #[trigger] e(c) == w(c) by {
        lemma_rsum_eq(
            hd as nat,
            |j: int|
                (m.val)(rhalf::<R>(chunk.q@[qr * hd + j])) * (m.val)(
                    rhalf::<R>(chunk.k@[(g * kv + c) * hd + j]),
                ),
            |j: int| q(qr * hd + j) * k((g * kv + c) * hd + j),
        );
    }
    lemma_rsum_eq(n, e, w);
    let ev = |c: int|
        (m.exp)(b * s(c)) * (m.val)(rhalf::<R>(chunk.v@[(g * kv + c) * hd + i]));
    let wv = |c: int| w(c) * v((g * kv + c) * hd + i);
    assert forall|c: int| 0 <= c < n implies #[trigger] ev(c) == wv(c) by {
        assert(e(c) == w(c));
    }
    lemma_rsum_eq(n, ev, wv);
    x
}

} // verus!
