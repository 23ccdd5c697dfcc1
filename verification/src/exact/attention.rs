//! Banded attention against the whole context: the running rescale changes no number.
use vstd::prelude::*;
use crate::arith::{
    Half, Real, radd, rdiv, rexp, rhalf, rinf, rln, rlt, rmax, rmul, rneg, rsub, rto_half, rzero,
};
use crate::coded::cell;
use crate::exact::numbers::{lemma_rsum_eq, lemma_rsum_scale, lemma_rsum_split, rsum};
use crate::float::Kind;
use crate::grid::lemma_cell_inside;
use crate::ops::attention::{
    Chunk, HalfChunk, Running, chunk_fits, chunk_over, folded, lemma_row_head, mask_of, mixed, weights,
};
use crate::ops::rows::rowwise;
use crate::ops::softmax::{
    Scale, exp_sum, log_soft, soft, soft_along, soft_in, strand_at, top,
};
use crate::sums::{fsum, lemma_fsum_eq};
use crate::tensor::{
    Tensor, elems, inner, lemma_elems_by_dim, lemma_elems_of_short, lemma_strand_inside, outer,
    strand,
};

verus! {

/// How a carrier's values are read: which are finite, the number each of those is, and the
/// exponential.
#[verifier::reject_recursive_types(R)]
pub struct Reading<R> {
    pub finite: spec_fn(R) -> bool,
    pub val: spec_fn(R) -> real,
    pub exp: spec_fn(real) -> real,
}

/// The masked score: no number, and less than every number.
pub open spec fn unseen<R: Real>() -> R {
    rneg(rinf::<R>())
}

impl<R: Real> Reading<R> {
    /// A finite value and the number it is.
    pub open spec fn is(self, a: R, x: real) -> bool {
        (self.finite)(a) && (self.val)(a) == x
    }

    /// The exponential turns this sum into a product.
    pub open spec fn adds_up(self, x: real, y: real) -> bool {
        (self.exp)(x + y) == (self.exp)(x) * (self.exp)(y)
    }

    /// Arithmetic on finite values is that of the numbers they are.
    pub open spec fn reads_numbers(self) -> bool {
        &&& self.is(rzero::<R>(), 0 as real)
        &&& forall|a: R, b: R|
            (self.finite)(a) && (self.finite)(b) ==> self.is(
                #[trigger] radd(a, b),
                (self.val)(a) + (self.val)(b),
            )
        &&& forall|a: R, b: R|
            (self.finite)(a) && (self.finite)(b) ==> self.is(
                #[trigger] rsub(a, b),
                (self.val)(a) - (self.val)(b),
            )
        &&& forall|a: R, b: R|
            (self.finite)(a) && (self.finite)(b) ==> self.is(
                #[trigger] rmul(a, b),
                (self.val)(a) * (self.val)(b),
            )
        &&& forall|a: R, b: R|
            (self.finite)(a) && (self.finite)(b) && (self.val)(b) != 0 as real ==> (self.finite)(
                #[trigger] rdiv(a, b),
            ) && (self.val)(rdiv(a, b)) * (self.val)(b) == (self.val)(a)
        &&& forall|a: R, b: R|
            (self.finite)(a) && (self.finite)(b) ==> #[trigger] rmax(a, b) == a || rmax(a, b) == b
    }

    /// Exponentials are positive, and turn sums into products.
    pub open spec fn reads_exponentials(self) -> bool {
        &&& forall|a: R|
            (self.finite)(a) ==> self.is(#[trigger] rexp(a), (self.exp)((self.val)(a)))
        &&& forall|x: real| #[trigger] (self.exp)(x) > 0 as real
        &&& forall|x: real, y: real| #[trigger] self.adds_up(x, y)
    }

    /// A masked score stays masked, weighs nothing and is nobody's maximum.
    pub open spec fn reads_masks(self) -> bool {
        &&& !(self.finite)(unseen::<R>())
        &&& self.is(rexp(unseen::<R>()), 0 as real)
        &&& forall|a: R| (self.finite)(a) ==> #[trigger] radd(a, unseen::<R>()) == unseen::<R>()
        &&& forall|a: R| (self.finite)(a) ==> #[trigger] rsub(unseen::<R>(), a) == unseen::<R>()
        &&& forall|a: R| (self.finite)(a) ==> #[trigger] rlt(unseen::<R>(), a)
        &&& forall|a: R| (self.finite)(a) ==> !#[trigger] rlt(a, unseen::<R>())
        &&& forall|a: R| (self.finite)(a) ==> #[trigger] rmax(a, unseen::<R>()) == a
        &&& forall|a: R| (self.finite)(a) ==> #[trigger] rmax(unseen::<R>(), a) == a
    }

    /// The carrier is the numbers, with a value below them all.
    pub open spec fn faithful(self) -> bool {
        self.reads_numbers() && self.reads_exponentials() && self.reads_masks()
    }

    /// Logarithms of positive values undo exponentials, and the exponential of a positive number is
    /// more than one.
    pub open spec fn reads_logarithms(self) -> bool {
        &&& forall|a: R|
            (self.finite)(a) && (self.val)(a) > 0 as real ==> (self.finite)(#[trigger] rln(a)) && (
            self.exp)((self.val)(rln(a))) == (self.val)(a)
        &&& forall|x: real| x > 0 as real ==> #[trigger] (self.exp)(x) > 1 as real
    }

    /// Every value of a run is finite.
    pub open spec fn all_finite(self, s: Seq<R>) -> bool {
        forall|i: int| 0 <= i < s.len() ==> (self.finite)(#[trigger] s[i])
    }
}

/// A sum of finite values is finite, and is the sum of their numbers.
pub(crate) proof fn lemma_sum<R: Real>(
    m: Reading<R>,
    n: nat,
    f: spec_fn(int) -> R,
    g: spec_fn(int) -> real,
)
    requires
        m.faithful(),
        forall|i: int| 0 <= i < n ==> m.is(#[trigger] f(i), g(i)),
    ensures
        m.is(fsum(n, f), rsum(n, g)),
    decreases n,
{
    if n > 0 {
        lemma_sum(m, (n - 1) as nat, f, g);
        assert(m.is(f(n - 1), g(n - 1)));
    }
}

/// A row of scores: key `c` weighs `s(c)` where it is seen, and is masked where it is not.
spec fn scored<R: Real>(
    m: Reading<R>,
    row: Seq<R>,
    seen: spec_fn(int) -> bool,
    s: spec_fn(int) -> real,
) -> bool {
    forall|c: int|
        0 <= c < row.len() ==> if seen(c) {
            m.is(#[trigger] row[c], s(c))
        } else {
            row[c] == unseen::<R>()
        }
}

/// The weight of key `c` over the score `t`.
spec fn weight(
    exp: spec_fn(real) -> real,
    seen: spec_fn(int) -> bool,
    s: spec_fn(int) -> real,
    t: real,
    c: int,
) -> real {
    if seen(c) {
        exp(s(c) - t)
    } else {
        0 as real
    }
}

/// The largest score is one that is seen, if any is.
proof fn lemma_top<R: Real>(
    m: Reading<R>,
    row: Seq<R>,
    seen: spec_fn(int) -> bool,
    s: spec_fn(int) -> real,
    n: nat,
)
    requires
        m.faithful(),
        scored(m, row, seen, s),
        n <= row.len(),
    ensures
        (m.finite)(top(row, n)) || top(row, n) == unseen::<R>(),
        forall|c: int| 0 <= c < n && #[trigger] seen(c) ==> (m.finite)(top(row, n)),
    decreases n,
{
    if n > 0 {
        lemma_top(m, row, seen, s, (n - 1) as nat);
        assert(if seen(n - 1) {
            m.is(row[n - 1], s(n - 1))
        } else {
            row[n - 1] == unseen::<R>()
        });
    }
}

/// The exponentials of a row over `t`.
proof fn lemma_weights<R: Real>(
    m: Reading<R>,
    row: Seq<R>,
    seen: spec_fn(int) -> bool,
    s: spec_fn(int) -> real,
    t: R,
)
    requires
        m.faithful(),
        scored(m, row, seen, s),
        (m.finite)(t),
    ensures
        forall|c: int|
            0 <= c < row.len() ==> m.is(
                #[trigger] weights(row, t)[c],
                weight(m.exp, seen, s, (m.val)(t), c),
            ),
{
    assert forall|c: int| 0 <= c < row.len() implies m.is(
        #[trigger] weights(row, t)[c],
        weight(m.exp, seen, s, (m.val)(t), c),
    ) by {
        assert(weights(row, t)[c] == rexp(rsub(row[c], t)));
        if seen(c) {
            assert(m.is(row[c], s(c)));
        } else {
            assert(row[c] == unseen::<R>());
        }
    }
}

/// A weight over one score is its weight over another, rescaled.
proof fn lemma_rescaled<R: Real>(
    m: Reading<R>,
    seen: spec_fn(int) -> bool,
    s: spec_fn(int) -> real,
    from: real,
    to: real,
    c: int,
)
    requires
        m.faithful(),
    ensures
        (m.exp)(from - to) * weight(m.exp, seen, s, from, c) == weight(m.exp, seen, s, to, c),
{
    let k = (m.exp)(from - to);
    if seen(c) {
        let (x, y) = (s(c) - from, from - to);
        assert(m.adds_up(x, y));
        assert(x + y == s(c) - to);
        let w = (m.exp)(x);
        assert(k * w == w * k) by (nonlinear_arith);
    } else {
        let z = 0 as real;
        assert(k * z == z) by (nonlinear_arith)
            requires
                z == 0 as real,
        ;
    }
}

/// The weights' sum, over one score and over another.
proof fn lemma_rescaled_sum<R: Real>(
    m: Reading<R>,
    seen: spec_fn(int) -> bool,
    s: spec_fn(int) -> real,
    from: real,
    to: real,
    n: nat,
)
    requires
        m.faithful(),
    ensures
        (m.exp)(from - to) * rsum(n, |c: int| weight(m.exp, seen, s, from, c)) == rsum(
            n,
            |c: int| weight(m.exp, seen, s, to, c),
        ),
{
    let k = (m.exp)(from - to);
    let f = |c: int| weight(m.exp, seen, s, from, c);
    let g = |c: int| weight(m.exp, seen, s, to, c);
    let h = |c: int| k * f(c);
    lemma_rsum_scale(n, k, f);
    assert forall|c: int| 0 <= c < n implies #[trigger] h(c) == g(c) by {
        lemma_rescaled(m, seen, s, from, to, c);
    }
    lemma_rsum_eq(n, h, g);
}

/// The weighted values, over one score and over another.
proof fn lemma_rescaled_mix<R: Real>(
    m: Reading<R>,
    seen: spec_fn(int) -> bool,
    s: spec_fn(int) -> real,
    v: spec_fn(int) -> real,
    from: real,
    to: real,
    n: nat,
)
    requires
        m.faithful(),
    ensures
        (m.exp)(from - to) * rsum(n, |c: int| weight(m.exp, seen, s, from, c) * v(c)) == rsum(
            n,
            |c: int| weight(m.exp, seen, s, to, c) * v(c),
        ),
{
    let k = (m.exp)(from - to);
    let f = |c: int| weight(m.exp, seen, s, from, c) * v(c);
    let g = |c: int| weight(m.exp, seen, s, to, c) * v(c);
    let h = |c: int| k * f(c);
    lemma_rsum_scale(n, k, f);
    assert forall|c: int| 0 <= c < n implies #[trigger] h(c) == g(c) by {
        lemma_rescaled(m, seen, s, from, to, c);
        let (w, x) = (weight(m.exp, seen, s, from, c), v(c));
        assert(k * (w * x) == (k * w) * x) by (nonlinear_arith);
    }
    lemma_rsum_eq(n, h, g);
}

/// Weights are not negative, and the first seen key's is positive.
proof fn lemma_positive<R: Real>(
    m: Reading<R>,
    seen: spec_fn(int) -> bool,
    s: spec_fn(int) -> real,
    t: real,
    n: nat,
)
    requires
        m.faithful(),
        seen(0),
        n > 0,
    ensures
        rsum(n, |c: int| weight(m.exp, seen, s, t, c)) > 0 as real,
    decreases n,
{
    let f = |c: int| weight(m.exp, seen, s, t, c);
    let k = (n - 1) as nat;
    assert((m.exp)(s(n - 1) - t) > 0 as real);
    assert(rsum(n, f) == rsum(k, f) + f(n - 1));
    if k > 0 {
        lemma_positive(m, seen, s, t, k);
    } else {
        assert(rsum(0, f) == 0 as real);
    }
}

/// The mix of a whole row by its softmax, times the weights' sum, is the weighted values.
proof fn lemma_whole<R: Real>(
    m: Reading<R>,
    row: Seq<R>,
    seen: spec_fn(int) -> bool,
    s: spec_fn(int) -> real,
    value: spec_fn(int) -> R,
    v: spec_fn(int) -> real,
    t: real,
)
    requires
        m.faithful(),
        scored(m, row, seen, s),
        row.len() > 0,
        seen(0),
        forall|c: int| 0 <= c < row.len() ==> m.is(#[trigger] value(c), v(c)),
    ensures
        (m.finite)(fsum(row.len(), |c: int| rmul(soft(row)[c], value(c)))),
        (m.val)(fsum(row.len(), |c: int| rmul(soft(row)[c], value(c)))) * rsum(
            row.len(),
            |c: int| weight(m.exp, seen, s, t, c),
        ) == rsum(row.len(), |c: int| weight(m.exp, seen, s, t, c) * v(c)),
{
    let n = row.len();
    let mx = top(row, n);
    lemma_top(m, row, seen, s, n);
    assert(seen(0));
    let big = (m.val)(mx);
    lemma_weights(m, row, seen, s, mx);
    let f = |c: int| weight(m.exp, seen, s, big, c);
    let ws = |i: int| rexp(rsub(row[i], mx));
    assert forall|c: int| 0 <= c < n implies m.is(#[trigger] ws(c), f(c)) by {
        assert(weights(row, mx)[c] == ws(c));
    }
    lemma_sum(m, n, ws, f);
    let total = exp_sum(row, mx);
    lemma_positive(m, seen, s, big, n);
    let sum = rsum(n, f);
    assert(m.is(total, sum));
    let share = |c: int| (m.val)(soft(row)[c]);
    let p = |c: int| share(c) * v(c);
    let q = |c: int| rmul(soft(row)[c], value(c));
    assert forall|c: int| 0 <= c < n implies m.is(#[trigger] q(c), p(c)) && (m.finite)(soft(row)[c])
        && share(c) * sum == f(c) by {
        assert(m.is(ws(c), f(c)));
        assert(soft(row)[c] == rdiv(ws(c), total));
        assert(m.is(value(c), v(c)));
    }
    lemma_sum(m, n, q, p);
    let y = rsum(n, p);
    // the weights' sum moves into the mix
    let g = |c: int| weight(m.exp, seen, s, big, c) * v(c);
    let h = |c: int| sum * p(c);
    lemma_rsum_scale(n, sum, p);
    assert forall|c: int| 0 <= c < n implies #[trigger] h(c) == g(c) by {
        assert(m.is(q(c), p(c)));
        let (a, b) = (share(c), v(c));
        assert(sum * (a * b) == (a * sum) * b) by (nonlinear_arith);
    }
    lemma_rsum_eq(n, h, g);
    assert(sum * y == rsum(n, g));
    // and over `t` in place of the largest score
    lemma_rescaled_sum(m, seen, s, big, t, n);
    lemma_rescaled_mix(m, seen, s, v, big, t, n);
    let k = (m.exp)(big - t);
    assert(y * (k * sum) == k * (sum * y)) by (nonlinear_arith);
    assert(k * sum == rsum(n, |c: int| weight(m.exp, seen, s, t, c)));
    assert(k * rsum(n, g) == rsum(n, |c: int| weight(m.exp, seen, s, t, c) * v(c)));
    assert((m.val)(fsum(n, q)) == y);
}

/// What a row has carried over its first `h` keys: each of them weighed over the largest score.
spec fn carried<R: Real>(
    m: Reading<R>,
    seen: spec_fn(int) -> bool,
    s: spec_fn(int) -> real,
    v: spec_fn(int, int) -> real,
    hd: int,
    run: Running<R>,
    h: nat,
) -> bool {
    let t = (m.val)(run.top);
    &&& (m.finite)(run.top)
    &&& m.is(run.sum, rsum(h, |c: int| weight(m.exp, seen, s, t, c)))
    &&& run.acc.len() == hd
    &&& forall|i: int|
        0 <= i < hd ==> m.is(
            #[trigger] run.acc[i],
            rsum(h, |c: int| weight(m.exp, seen, s, t, c) * v(c, i)),
        )
}

/// The weights of the keys from `c0` on, and the values they mix.
proof fn lemma_band<R: Real>(
    m: Reading<R>,
    row: Seq<R>,
    seen: spec_fn(int) -> bool,
    s: spec_fn(int) -> real,
    vs: Seq<R>,
    v: spec_fn(int, int) -> real,
    hd: int,
    r0: int,
    c0: nat,
    t: R,
)
    requires
        m.faithful(),
        (m.finite)(t),
        scored(m, row, |j: int| seen(c0 + j), |j: int| s(c0 + j)),
        forall|j: int, i: int|
            0 <= j < row.len() && 0 <= i < hd ==> m.is(
                #[trigger] vs[cell(hd, r0 + j, i)],
                v(c0 + j, i),
            ),
    ensures
        m.is(
            fsum(row.len(), |j: int| weights(row, t)[j]),
            rsum(row.len(), |j: int| weight(m.exp, seen, s, (m.val)(t), c0 + j)),
        ),
        forall|i: int|
            0 <= i < hd ==> m.is(
                #[trigger] mixed(weights(row, t), vs, hd, r0, i),
                rsum(
                    row.len(),
                    |j: int| weight(m.exp, seen, s, (m.val)(t), c0 + j) * v(c0 + j, i),
                ),
            ),
{
    let (sj, scj) = (|j: int| seen(c0 + j), |j: int| s(c0 + j));
    lemma_weights(m, row, sj, scj, t);
    let n = row.len();
    let w = weights(row, t);
    let big = (m.val)(t);
    let f = |j: int| w[j];
    let g = |j: int| weight(m.exp, seen, s, big, c0 + j);
    assert forall|j: int| 0 <= j < n implies m.is(#[trigger] f(j), g(j)) by {
        assert(m.is(weights(row, t)[j], weight(m.exp, sj, scj, big, j)));
    }
    lemma_sum(m, n, f, g);
    assert forall|i: int| 0 <= i < hd implies m.is(
        #[trigger] mixed(w, vs, hd, r0, i),
        rsum(n, |j: int| weight(m.exp, seen, s, big, c0 + j) * v(c0 + j, i)),
    ) by {
        let p = |j: int| rmul(w[j], vs[cell(hd, r0 + j, i)]);
        let q = |j: int| weight(m.exp, seen, s, big, c0 + j) * v(c0 + j, i);
        assert forall|j: int| 0 <= j < n implies m.is(#[trigger] p(j), q(j)) by {
            assert(m.is(f(j), g(j)));
            assert(m.is(vs[cell(hd, r0 + j, i)], v(c0 + j, i)));
        }
        lemma_sum(m, n, p, q);
    }
}

/// One more band: what was carried is rescaled, and the band's keys join it.
proof fn lemma_folded<R: Real>(
    m: Reading<R>,
    was: Option<Running<R>>,
    row: Seq<R>,
    seen: spec_fn(int) -> bool,
    s: spec_fn(int) -> real,
    vs: Seq<R>,
    v: spec_fn(int, int) -> real,
    hd: int,
    r0: int,
    c0: nat,
)
    requires
        m.faithful(),
        0 < row.len(),
        0 <= hd,
        scored(m, row, |j: int| seen(c0 + j), |j: int| s(c0 + j)),
        forall|j: int, i: int|
            0 <= j < row.len() && 0 <= i < hd ==> m.is(
                #[trigger] vs[cell(hd, r0 + j, i)],
                v(c0 + j, i),
            ),
        was is None ==> c0 == 0 && seen(0),
        was is Some ==> carried(m, seen, s, v, hd, was->0, c0),
    ensures
        carried(m, seen, s, v, hd, folded(was, row, vs, hd, r0), c0 + row.len()),
{
    let now = folded(was, row, vs, hd, r0);
    let t = now.top;
    let (sj, scj) = (|j: int| seen(c0 + j), |j: int| s(c0 + j));
    lemma_top(m, row, sj, scj, row.len());
    if was is None {
        assert(sj(0));
    }
    assert((m.finite)(t));
    lemma_band(m, row, seen, s, vs, v, hd, r0, c0, t);
    let big = (m.val)(t);
    let f = |c: int| weight(m.exp, seen, s, big, c);
    lemma_rsum_split(c0, row.len(), f);
    lemma_rsum_eq(
        row.len(),
        |j: int| f(c0 + j),
        |j: int| weight(m.exp, seen, s, big, c0 + j),
    );
    assert(weights(row, t).len() == row.len());
    if was is Some {
        let x = was->0;
        let from = (m.val)(x.top);
        let k = (m.exp)(from - big);
        lemma_rescaled_sum(m, seen, s, from, big, c0);
        let held = rsum(c0, |c: int| weight(m.exp, seen, s, from, c));
        assert(held * k == k * held) by (nonlinear_arith);
        assert(m.is(rexp(rsub(x.top, t)), k));
    }
    assert forall|i: int| 0 <= i < hd implies m.is(
        #[trigger] now.acc[i],
        rsum(c0 + row.len(), |c: int| weight(m.exp, seen, s, big, c) * v(c, i)),
    ) by {
        let g = |c: int| weight(m.exp, seen, s, big, c) * v(c, i);
        lemma_rsum_split(c0, row.len(), g);
        lemma_rsum_eq(
            row.len(),
            |j: int| g(c0 + j),
            |j: int| weight(m.exp, seen, s, big, c0 + j) * v(c0 + j, i),
        );
        assert(m.is(
            mixed(weights(row, t), vs, hd, r0, i),
            rsum(
                row.len(),
                |j: int| weight(m.exp, seen, s, big, c0 + j) * v(c0 + j, i),
            ),
        ));
        if was is Some {
            let x = was->0;
            let from = (m.val)(x.top);
            let k = (m.exp)(from - big);
            let vi = |c: int| v(c, i);
            lemma_rescaled_mix(m, seen, s, vi, from, big, c0);
            let a = |c: int| weight(m.exp, seen, s, from, c) * v(c, i);
            lemma_rsum_eq(c0, |c: int| weight(m.exp, seen, s, from, c) * vi(c), a);
            lemma_rsum_eq(c0, |c: int| weight(m.exp, seen, s, big, c) * vi(c), g);
            let held = rsum(c0, a);
            assert(held * k == k * held) by (nonlinear_arith);
            assert(m.is(x.acc[i], held));
        }
    }
}

// -- a chunk --

/// The keys, queries and values of a chunk are finite.
pub open spec fn finite_chunk<R: Real>(m: Reading<R>, chunk: Chunk<R>) -> bool {
    m.all_finite(chunk.q@) && m.all_finite(chunk.k@) && m.all_finite(chunk.v@)
}

/// Every score of a row at once, masked past its position.
pub open spec fn whole_row<R: Real>(chunk: Chunk<R>, qr: int) -> Seq<R> {
    Seq::new(
        chunk.kv as nat,
        |c: int| radd(chunk.score(qr, c), mask_of::<R>(chunk.past + chunk.pos(qr), c)),
    )
}

/// Value `i` of a row of `softmax(QK^T + mask)V`.
pub open spec fn whole_answer<R: Real>(chunk: Chunk<R>, qr: int, i: int) -> R {
    fsum(
        chunk.kv as nat,
        |c: int|
            rmul(
                soft(whole_row(chunk, qr))[c],
                chunk.v@[cell(chunk.hd as int, chunk.head(qr) * chunk.kv + c, i)],
            ),
    )
}

/// The keys a row may see.
spec fn sees<R: Real>(chunk: Chunk<R>, qr: int) -> spec_fn(int) -> bool {
    |c: int| c <= chunk.past + chunk.pos(qr)
}

/// The scores of a row, as numbers.
spec fn scores<R: Real>(m: Reading<R>, chunk: Chunk<R>, qr: int) -> spec_fn(int) -> real {
    |c: int| (m.val)(chunk.score(qr, c))
}

/// The values a row mixes, as numbers.
spec fn values<R: Real>(m: Reading<R>, chunk: Chunk<R>, qr: int) -> spec_fn(int, int) -> real {
    |c: int, i: int|
        (m.val)(chunk.v@[cell(chunk.hd as int, chunk.head(qr) * chunk.kv + c, i)])
}

/// What the law asks of a row.
pub open spec fn asked<R: Real>(m: Reading<R>, chunk: Chunk<R>, qr: int) -> bool {
    &&& m.faithful()
    &&& chunk.wf()
    &&& chunk.kept == Kind::Single
    &&& 0 < chunk.kv
    &&& finite_chunk(m, chunk)
    &&& 0 <= qr < chunk.heads * chunk.rows
}

/// A row's scores and the values it mixes are finite.
proof fn lemma_finite<R: Real>(m: Reading<R>, chunk: Chunk<R>, qr: int, c: int)
    requires
        asked(m, chunk, qr),
        0 <= c < chunk.kv,
    ensures
        (m.finite)(chunk.score(qr, c)),
        forall|i: int|
            0 <= i < chunk.hd ==> (m.finite)(
                #[trigger] chunk.v@[cell(chunk.hd as int, chunk.head(qr) * chunk.kv + c, i)],
            ),
{
    let (heads, rows, kv, hd) = (
        chunk.heads as int,
        chunk.rows as int,
        chunk.kv as int,
        chunk.hd as int,
    );
    lemma_row_head(heads, rows, qr);
    let r = chunk.head(qr) * kv + c;
    lemma_cell_inside(heads, kv, chunk.head(qr), c);
    assert forall|i: int| 0 <= i < hd implies (m.finite)(#[trigger] chunk.v@[cell(hd, r, i)]) by {
        lemma_cell_inside(heads * kv, hd, r, i);
    }
    let f = |i: int| rmul(chunk.q@[cell(hd, qr, i)], chunk.k@[cell(hd, r, i)]);
    let g = |i: int| (m.val)(f(i));
    assert forall|i: int| 0 <= i < hd implies m.is(#[trigger] f(i), g(i)) by {
        lemma_cell_inside(heads * rows, hd, qr, i);
        lemma_cell_inside(heads * kv, hd, r, i);
        assert((m.finite)(chunk.q@[cell(hd, qr, i)]));
        assert((m.finite)(chunk.k@[cell(hd, r, i)]));
    }
    lemma_sum(m, hd as nat, f, g);
}

/// A band's scores, masked or left as they are.
proof fn lemma_band_row<R: Real>(m: Reading<R>, chunk: Chunk<R>, qr: int, c0: nat, width: int)
    requires
        asked(m, chunk, qr),
        0 <= width,
        c0 + width <= chunk.kv,
    ensures
        scored(
            m,
            chunk.band_row(qr, c0 as int, width),
            |j: int| sees(chunk, qr)(c0 + j),
            |j: int| scores(m, chunk, qr)(c0 + j),
        ),
{
    vstd::arithmetic::div_mod::lemma_mod_bound(qr, chunk.seq as int);
    let row = chunk.band_row(qr, c0 as int, width);
    let (sj, scj) = (
        |j: int| sees(chunk, qr)(c0 + j),
        |j: int| scores(m, chunk, qr)(c0 + j),
    );
    assert forall|j: int| 0 <= j < row.len() implies if sj(j) {
        m.is(#[trigger] row[j], scj(j))
    } else {
        row[j] == unseen::<R>()
    } by {
        lemma_finite(m, chunk, qr, c0 + j);
    }
}

/// A whole row's scores, masked.
proof fn lemma_whole_row<R: Real>(m: Reading<R>, chunk: Chunk<R>, qr: int)
    requires
        asked(m, chunk, qr),
    ensures
        scored(m, whole_row(chunk, qr), sees(chunk, qr), scores(m, chunk, qr)),
{
    let row = whole_row(chunk, qr);
    assert forall|c: int| 0 <= c < row.len() implies if sees(chunk, qr)(c) {
        m.is(#[trigger] row[c], scores(m, chunk, qr)(c))
    } else {
        row[c] == unseen::<R>()
    } by {
        lemma_finite(m, chunk, qr, c);
    }
}

/// A band that is walked holds a key.
proof fn lemma_band_bounds<R: Real>(chunk: Chunk<R>, n: int)
    requires
        chunk.wf(),
        0 < chunk.kv,
        0 <= n < chunk.bands(),
    ensures
        0 <= n * chunk.band < chunk.kv,
        0 < chunk.width(n),
        n * chunk.band + chunk.width(n) <= chunk.kv,
        n + 1 < chunk.bands() ==> chunk.width(n) == chunk.band && (n + 1) * chunk.band == n
            * chunk.band + chunk.width(n),
{
    let (l, b) = (chunk.reach(), chunk.band as int);
    vstd::arithmetic::div_mod::lemma_fundamental_div_mod(l, b);
    vstd::arithmetic::div_mod::lemma_mod_bound(l, b);
    let q = l / b;
    assert(b * q == q * b && (q + 1) * b == q * b + b) by (nonlinear_arith);
    assert((n + 1) * b == n * b + b && 0 <= n * b) by (nonlinear_arith)
        requires
            0 <= n,
            0 < b,
    ;
    if n + 1 <= q {
        assert((n + 1) * b <= q * b) by (nonlinear_arith)
            requires
                n + 1 <= q,
                0 < b,
        ;
    }
    if n + 2 <= q {
        assert((n + 2) * b <= q * b && (n + 2) * b == (n + 1) * b + b) by (nonlinear_arith)
            requires
                n + 2 <= q,
                0 < b,
        ;
    }
}

/// What a row carries after `n` bands more than none.
proof fn lemma_running<R: Real>(m: Reading<R>, chunk: Chunk<R>, qr: int, n: nat)
    requires
        asked(m, chunk, qr),
        n < chunk.bands(),
    ensures
        chunk.running(qr, n + 1) is Some,
        carried(
            m,
            sees(chunk, qr),
            scores(m, chunk, qr),
            values(m, chunk, qr),
            chunk.hd as int,
            chunk.running(qr, n + 1)->0,
            (n * chunk.band + chunk.width(n as int)) as nat,
        ),
    decreases n,
{
    vstd::arithmetic::div_mod::lemma_mod_bound(qr, chunk.seq as int);
    lemma_band_bounds(chunk, n as int);
    let c0 = (n * chunk.band) as nat;
    let width = chunk.width(n as int);
    if n > 0 {
        lemma_running(m, chunk, qr, (n - 1) as nat);
        lemma_band_bounds(chunk, n - 1);
    } else {
        assert(c0 == 0) by (nonlinear_arith)
            requires
                c0 == n * chunk.band,
                n == 0,
        ;
    }
    lemma_band_row(m, chunk, qr, c0, width);
    let (hd, r0) = (chunk.hd as int, chunk.head(qr) * chunk.kv + c0);
    let v = values(m, chunk, qr);
    let row = chunk.band_row(qr, c0 as int, width);
    assert forall|j: int, i: int| 0 <= j < row.len() && 0 <= i < hd implies m.is(
        #[trigger] chunk.v@[cell(hd, r0 + j, i)],
        v(c0 + j, i),
    ) by {
        lemma_finite(m, chunk, qr, c0 + j);
        assert(r0 + j == chunk.head(qr) * chunk.kv + (c0 + j));
    }
    lemma_folded(
        m,
        chunk.running(qr, n),
        row,
        sees(chunk, qr),
        scores(m, chunk, qr),
        chunk.v@,
        v,
        hd,
        r0,
        c0,
    );
}

/// A sum of nothings.
proof fn lemma_nothing(n: nat, f: spec_fn(int) -> real)
    requires
        forall|i: int| 0 <= i < n ==> #[trigger] f(i) == 0 as real,
    ensures
        rsum(n, f) == 0 as real,
    decreases n,
{
    if n > 0 {
        lemma_nothing((n - 1) as nat, f);
        assert(f(n - 1) == 0 as real);
    }
}

/// The walked bands hold every key that a row may see.
proof fn lemma_walked<R: Real>(chunk: Chunk<R>, qr: int)
    requires
        chunk.wf(),
        0 < chunk.kv,
        0 <= qr,
    ensures
        0 < chunk.bands(),
        ({
            let last = chunk.bands() - 1;
            let h = last * chunk.band + chunk.width(last);
            0 < h <= chunk.kv && forall|c: int| h <= c < chunk.kv ==> !#[trigger] sees(chunk, qr)(c)
        }),
{
    let (l, b) = (chunk.reach(), chunk.band as int);
    vstd::arithmetic::div_mod::lemma_fundamental_div_mod(l, b);
    vstd::arithmetic::div_mod::lemma_mod_bound(l, b);
    vstd::arithmetic::div_mod::lemma_div_pos_is_pos(l, b);
    vstd::arithmetic::div_mod::lemma_mod_bound(qr, chunk.seq as int);
    let q = l / b;
    assert(b * q == q * b && (q + 1) * b == q * b + b) by (nonlinear_arith);
    if chunk.bands() == 0 {
        assert(q == 0 && l % b == 0);
        assert(q * b == 0) by (nonlinear_arith)
            requires
                q == 0,
        ;
        assert(false);
    }
    let last = chunk.bands() - 1;
    lemma_band_bounds(chunk, last);
    assert((last + 1) * b == last * b + b) by (nonlinear_arith);
}

/// A quotient is what its product says.
proof fn lemma_cancel(x: real, y: real, d: real)
    requires
        d != 0 as real,
        x * d == y * d,
    ensures
        x == y,
{
    assert(x == y) by (nonlinear_arith)
        requires
            d != 0 as real,
            x * d == y * d,
    ;
}

/// Band by band or in one piece: a row of banded attention is the row of `softmax(QK^T + mask)V`,
/// however often its running maximum moves.
pub proof fn bands_answer_the_whole_context<R: Real>(
    m: Reading<R>,
    chunk: Chunk<R>,
    qr: int,
    i: int,
)
    requires
        m.faithful(),
        chunk.wf(),
        chunk.kept == Kind::Single,
        0 < chunk.kv,
        finite_chunk(m, chunk),
        0 <= qr < chunk.heads * chunk.rows,
        0 <= i < chunk.hd,
    ensures
        (m.finite)(chunk.answer(qr)[i]),
        m.is(whole_answer(chunk, qr, i), (m.val)(chunk.answer(qr)[i])),
{
    let (seen, s, v) = (sees(chunk, qr), scores(m, chunk, qr), values(m, chunk, qr));
    let kv = chunk.kv as nat;
    vstd::arithmetic::div_mod::lemma_mod_bound(qr, chunk.seq as int);
    assert(seen(0));
    lemma_walked(chunk, qr);
    let last = chunk.bands() - 1;
    let h = (last * chunk.band + chunk.width(last)) as nat;
    lemma_running(m, chunk, qr, last as nat);
    let end = chunk.running(qr, chunk.bands() as nat)->0;
    let t = (m.val)(end.top);
    let f = |c: int| weight(m.exp, seen, s, t, c);
    let g = |c: int| weight(m.exp, seen, s, t, c) * v(c, i);
    let rest = (kv - h) as nat;
    lemma_rsum_split(h, rest, f);
    lemma_rsum_split(h, rest, g);
    let (fr, gr) = (|j: int| f(h + j), |j: int| g(h + j));
    assert forall|j: int| 0 <= j < rest implies #[trigger] fr(j) == 0 as real by {
        assert(!sees(chunk, qr)(h + j));
    }
    assert forall|j: int| 0 <= j < rest implies #[trigger] gr(j) == 0 as real by {
        assert(!sees(chunk, qr)(h + j));
        let (z, x) = (0 as real, v(h + j, i));
        assert(z * x == z) by (nonlinear_arith)
            requires
                z == 0 as real,
        ;
    }
    lemma_nothing(rest, fr);
    lemma_nothing(rest, gr);
    assert(m.is(end.sum, rsum(kv, f)));
    assert(m.is(end.acc[i], rsum(kv, g)));
    lemma_positive(m, seen, s, t, kv);
    lemma_whole_row(m, chunk, qr);
    let value = |c: int| chunk.v@[cell(chunk.hd as int, chunk.head(qr) * chunk.kv + c, i)];
    let vi = |c: int| v(c, i);
    assert forall|c: int| 0 <= c < kv implies m.is(#[trigger] value(c), vi(c)) by {
        lemma_finite(m, chunk, qr, c);
    }
    lemma_whole(m, whole_row(chunk, qr), seen, s, value, vi, t);
    lemma_rsum_eq(kv, |c: int| weight(m.exp, seen, s, t, c) * vi(c), g);
    let mixed_by_soft = |c: int| rmul(soft(whole_row(chunk, qr))[c], value(c));
    lemma_fsum_eq(
        kv,
        mixed_by_soft,
        |c: int|
            rmul(
                soft(whole_row(chunk, qr))[c],
                chunk.v@[cell(chunk.hd as int, chunk.head(qr) * chunk.kv + c, i)],
            ),
    );
    lemma_cancel(
        (m.val)(chunk.answer(qr)[i]),
        (m.val)(whole_answer(chunk, qr, i)),
        rsum(kv, f),
    );
}

/// The exponential of a score over `t`, and of the score alone.
pub(crate) proof fn lemma_numbers_scaled<R: Real>(
    m: Reading<R>,
    n: nat,
    s: spec_fn(int) -> real,
    v: spec_fn(int) -> real,
    t: real,
    x: real,
)
    requires
        m.faithful(),
        x * rsum(n, |c: int| (m.exp)(s(c) - t)) == rsum(n, |c: int| (m.exp)(s(c) - t) * v(c)),
    ensures
        x * rsum(n, |c: int| (m.exp)(s(c))) == rsum(n, |c: int| (m.exp)(s(c)) * v(c)),
        n > 0 ==> rsum(n, |c: int| (m.exp)(s(c))) > 0 as real,
{
    let k = (m.exp)(t);
    let (f, g) = (|c: int| (m.exp)(s(c) - t), |c: int| (m.exp)(s(c) - t) * v(c));
    let (p, q) = (|c: int| (m.exp)(s(c)), |c: int| (m.exp)(s(c)) * v(c));
    let (kf, kg) = (|c: int| k * f(c), |c: int| k * g(c));
    lemma_rsum_scale(n, k, f);
    lemma_rsum_scale(n, k, g);
    assert forall|c: int| 0 <= c < n implies #[trigger] kf(c) == p(c) by {
        assert(m.adds_up(s(c) - t, t));
        assert(s(c) - t + t == s(c));
        let a = f(c);
        assert(k * a == a * k) by (nonlinear_arith);
    }
    assert forall|c: int| 0 <= c < n implies #[trigger] kg(c) == q(c) by {
        assert(kf(c) == p(c));
        let (a, b) = (f(c), v(c));
        assert(k * (a * b) == (k * a) * b) by (nonlinear_arith);
    }
    lemma_rsum_eq(n, kf, p);
    lemma_rsum_eq(n, kg, q);
    let (a, b) = (rsum(n, f), rsum(n, g));
    assert(x * (k * a) == k * (x * a)) by (nonlinear_arith);
    if n > 0 {
        let seen = |c: int| true;
        assert(seen(0));
        let z = 0 as real;
        lemma_positive(m, seen, s, z, n);
        let u = |c: int| weight(m.exp, seen, s, z, c);
        assert forall|c: int| 0 <= c < n implies #[trigger] u(c) == p(c) by {
            assert(s(c) - z == s(c));
        }
        lemma_rsum_eq(n, u, p);
    }
}

/// A row of banded attention, over the `n` keys it sees.
pub(crate) proof fn lemma_banded_row<R: Real>(
    m: Reading<R>,
    chunk: Chunk<R>,
    qr: int,
    i: int,
    n: nat,
)
    requires
        asked(m, chunk, qr),
        0 <= i < chunk.hd,
        n == (if chunk.past + qr % chunk.seq as int + 1 < chunk.kv {
            chunk.past + qr % chunk.seq as int + 1
        } else {
            chunk.kv as int
        }),
    ensures
        (m.finite)(chunk.answer(qr)[i]),
        ({
            let (hd, r0) = (chunk.hd as int, (qr / chunk.rows as int) * chunk.kv);
            let s = |c: int| rsum(
                hd as nat,
                |j: int| (m.val)(chunk.q@[qr * hd + j]) * (m.val)(chunk.k@[(r0 + c) * hd + j]),
            );
            let e = |c: int| (m.exp)(s(c));
            &&& (m.val)(chunk.answer(qr)[i]) * rsum(n, e) == rsum(
                n,
                |c: int| (m.exp)(s(c)) * (m.val)(chunk.v@[(r0 + c) * hd + i]),
            )
            &&& rsum(n, e) > 0 as real
        }),
{
    let (hd, r0) = (chunk.hd as int, (qr / chunk.rows as int) * chunk.kv);
    let (seen, s, v) = (sees(chunk, qr), scores(m, chunk, qr), values(m, chunk, qr));
    let kv = chunk.kv as nat;
    vstd::arithmetic::div_mod::lemma_mod_bound(qr, chunk.seq as int);
    assert(seen(0));
    lemma_walked(chunk, qr);
    let last = chunk.bands() - 1;
    let h = (last * chunk.band + chunk.width(last)) as nat;
    lemma_running(m, chunk, qr, last as nat);
    let end = chunk.running(qr, chunk.bands() as nat)->0;
    let t = (m.val)(end.top);
    let f = |c: int| weight(m.exp, seen, s, t, c);
    let g = |c: int| weight(m.exp, seen, s, t, c) * v(c, i);
    lemma_positive(m, seen, s, t, h);
    assert(chunk.answer(qr)[i] == rdiv(end.acc[i], end.sum));
    let x = (m.val)(chunk.answer(qr)[i]);
    assert(x * rsum(h, f) == rsum(h, g));
    if h < n {
        assert(!sees(chunk, qr)(n - 1));
    }
    lemma_seen_only(m, seen, s, |c: int| v(c, i), t, n, h);
    lemma_rsum_eq(h, |c: int| weight(m.exp, seen, s, t, c) * (|c: int| v(c, i))(c), g);
    // what is seen, as numbers
    let (fe, ge) = (|c: int| (m.exp)(s(c) - t), |c: int| (m.exp)(s(c) - t) * v(c, i));
    lemma_numbers_scaled(m, n, s, |c: int| v(c, i), t, x);
    let own = |c: int| rsum(
        hd as nat,
        |j: int| (m.val)(chunk.q@[qr * hd + j]) * (m.val)(chunk.k@[(r0 + c) * hd + j]),
    );
    let (p, q) = (|c: int| (m.exp)(s(c)), |c: int| (m.exp)(s(c)) * v(c, i));
    let (po, qo) = (
        |c: int| (m.exp)(own(c)),
        |c: int| (m.exp)(own(c)) * (m.val)(chunk.v@[(r0 + c) * hd + i]),
    );
    assert forall|c: int| 0 <= c < n implies #[trigger] p(c) == po(c) by {
        lemma_score_number(m, chunk, qr, c);
    }
    assert forall|c: int| 0 <= c < n implies #[trigger] q(c) == qo(c) by {
        assert(p(c) == po(c));
    }
    lemma_rsum_eq(n, p, po);
    lemma_rsum_eq(n, q, qo);
    lemma_rsum_eq(n, |c: int| (m.exp)(s(c)) * (|c: int| v(c, i))(c), q);
}

/// The score of a key is the sum of all products of the row's places and the key's.
proof fn lemma_score_number<R: Real>(m: Reading<R>, chunk: Chunk<R>, qr: int, c: int)
    requires
        asked(m, chunk, qr),
        0 <= c < chunk.kv,
    ensures
        (m.val)(chunk.score(qr, c)) == rsum(
            chunk.hd as nat,
            |j: int|
                (m.val)(chunk.q@[qr * chunk.hd + j]) * (m.val)(
                    chunk.k@[((qr / chunk.rows as int) * chunk.kv + c) * chunk.hd + j],
                ),
        ),
{
    let (heads, rows, kv, hd) = (
        chunk.heads as int,
        chunk.rows as int,
        chunk.kv as int,
        chunk.hd as int,
    );
    lemma_row_head(heads, rows, qr);
    let r = (qr / rows) * kv + c;
    lemma_cell_inside(heads, kv, qr / rows, c);
    let f = |i: int| rmul(chunk.q@[cell(hd, qr, i)], chunk.k@[cell(hd, r, i)]);
    let g = |j: int|
        (m.val)(chunk.q@[qr * chunk.hd + j]) * (m.val)(
            chunk.k@[((qr / chunk.rows as int) * chunk.kv + c) * chunk.hd + j],
        );
    assert forall|i: int| 0 <= i < hd implies m.is(#[trigger] f(i), g(i)) by {
        lemma_cell_inside(heads * rows, hd, qr, i);
        lemma_cell_inside(heads * kv, hd, r, i);
        assert((m.finite)(chunk.q@[cell(hd, qr, i)]));
        assert((m.finite)(chunk.k@[cell(hd, r, i)]));
    }
    lemma_sum(m, hd as nat, f, g);
}

/// Keys that are not seen add nothing: sums over `h` keys are sums over the first `n`, which are
/// those seen.
proof fn lemma_seen_only<R: Real>(
    m: Reading<R>,
    seen: spec_fn(int) -> bool,
    s: spec_fn(int) -> real,
    v: spec_fn(int) -> real,
    t: real,
    n: nat,
    h: nat,
)
    requires
        m.faithful(),
        n <= h ==> forall|c: int| 0 <= c < h ==> (#[trigger] seen(c) <==> c < n),
        n <= h,
    ensures
        rsum(h, |c: int| weight(m.exp, seen, s, t, c)) == rsum(n, |c: int| (m.exp)(s(c) - t)),
        rsum(h, |c: int| weight(m.exp, seen, s, t, c) * v(c)) == rsum(
            n,
            |c: int| (m.exp)(s(c) - t) * v(c),
        ),
{
    let f = |c: int| weight(m.exp, seen, s, t, c);
    let g = |c: int| weight(m.exp, seen, s, t, c) * v(c);
    let rest = (h - n) as nat;
    lemma_rsum_split(n, rest, f);
    lemma_rsum_split(n, rest, g);
    let (fr, gr) = (|j: int| f(n + j), |j: int| g(n + j));
    assert forall|j: int| 0 <= j < rest implies #[trigger] fr(j) == 0 as real by {
        assert(!seen(n + j));
    }
    assert forall|j: int| 0 <= j < rest implies #[trigger] gr(j) == 0 as real by {
        assert(!seen(n + j));
        let (z, x) = (0 as real, v(n + j));
        assert(z * x == z) by (nonlinear_arith)
            requires
                z == 0 as real,
        ;
    }
    lemma_nothing(rest, fr);
    lemma_nothing(rest, gr);
    let (fe, ge) = (|c: int| (m.exp)(s(c) - t), |c: int| (m.exp)(s(c) - t) * v(c));
    assert forall|c: int| 0 <= c < n implies #[trigger] f(c) == fe(c) by {
        assert(seen(c));
    }
    assert forall|c: int| 0 <= c < n implies #[trigger] g(c) == ge(c) by {
        assert(seen(c));
    }
    lemma_rsum_eq(n, f, fe);
    lemma_rsum_eq(n, g, ge);
}

/// The tensor banded attention gives is `softmax(QK^T + mask)V`: value `i` of each of its rows is
/// value `i` of that row, for queries, keys and values that are finite.
pub proof fn banded_tensors_answer_the_whole_context<R: Real>(
    m: Reading<R>,
    q: &Tensor<R>,
    k: &Tensor<R>,
    v: &Tensor<R>,
    seq: usize,
    past: usize,
    c: Chunk<R>,
    t: Seq<R>,
    qr: int,
    i: int,
)
    requires
        m.faithful(),
        q.wf(),
        k.wf(),
        v.wf(),
        q.dims@.len() == 4,
        k.dims@.len() > 2,
        chunk_fits(q.dims@, k.dims@, v.dims@, seq as int, past as int),
        chunk_over(
            Kind::Single,
            q.dims@,
            k.dims@,
            q.data@,
            k.data@,
            v.data@,
            seq,
            past,
            c,
        ),
        m.all_finite(q.data@),
        m.all_finite(k.data@),
        m.all_finite(v.data@),
        rowwise(t, c.heads * c.rows, c.hd as int, c.answers()),
        0 <= qr < c.heads * c.rows,
        0 <= i < c.hd,
    ensures
        (m.finite)(t[cell(c.hd as int, qr, i)]),
        m.is(whole_answer(c, qr, i), (m.val)(t[cell(c.hd as int, qr, i)])),
{
    lemma_elems_of_short(q.dims@);
    lemma_elems_of_short(k.dims@);
    let (h, r, n, d) = (c.heads as int, c.rows as int, c.kv as int, c.hd as int);
    assert(1 * h * r * d == (h * r) * d && 1 * h * n * d == (h * n) * d) by (nonlinear_arith);
    bands_answer_the_whole_context(m, c, qr, i);
    assert(t[cell(c.hd as int, qr, i)] == (c.answers())(qr)[i]);
}

/// The shares of a softmax are to each other as the exponentials of its values.
pub proof fn softmax_weighs<R: Real>(m: Reading<R>, row: Seq<R>, i: int, j: int)
    requires
        m.faithful(),
        m.all_finite(row),
        0 <= i < row.len(),
        0 <= j < row.len(),
    ensures
        (m.val)(soft(row)[i]) * (m.exp)((m.val)(row[j])) == (m.val)(soft(row)[j]) * (m.exp)(
            (m.val)(row[i]),
        ),
{
    let n = row.len();
    let (seen, s) = (|c: int| true, |c: int| (m.val)(row[c]));
    assert(scored(m, row, seen, s));
    assert(seen(0));
    let peak = top(row, n);
    lemma_top(m, row, seen, s, n);
    let t = (m.val)(peak);
    lemma_weights(m, row, seen, s, peak);
    let f = |c: int| weight(m.exp, seen, s, t, c);
    let ws = |c: int| rexp(rsub(row[c], peak));
    assert forall|c: int| 0 <= c < n implies m.is(#[trigger] ws(c), f(c)) by {
        assert(m.is(weights(row, peak)[c], f(c)));
    }
    lemma_sum(m, n, ws, f);
    lemma_positive(m, seen, s, t, n);
    let sum = rsum(n, f);
    assert(m.is(ws(i), f(i)) && m.is(ws(j), f(j)));
    let (a, b, e) = ((m.val)(soft(row)[i]), (m.val)(soft(row)[j]), (m.exp)(t));
    assert(soft(row)[i] == rdiv(ws(i), exp_sum(row, peak)));
    assert(soft(row)[j] == rdiv(ws(j), exp_sum(row, peak)));
    assert(a * sum == f(i) && b * sum == f(j));
    assert(m.adds_up(s(i) - t, t) && m.adds_up(s(j) - t, t));
    assert((s(i) - t) + t == s(i) && (s(j) - t) + t == s(j));
    assert(a * ((b * sum) * e) == b * ((a * sum) * e)) by (nonlinear_arith);
}

/// The softmax of a row of finite values shares out one whole, and no share is negative.
pub proof fn softmax_shares_one<R: Real>(m: Reading<R>, row: Seq<R>)
    requires
        m.faithful(),
        m.all_finite(row),
        row.len() > 0,
    ensures
        forall|c: int|
            0 <= c < row.len() ==> (m.finite)(#[trigger] soft(row)[c]) && 0 as real <= (m.val)(
                soft(row)[c],
            ),
        rsum(row.len(), |c: int| (m.val)(soft(row)[c])) == 1 as real,
{
    let n = row.len();
    let (seen, s) = (|c: int| true, |c: int| (m.val)(row[c]));
    assert(scored(m, row, seen, s));
    assert(seen(0));
    let peak = top(row, n);
    lemma_top(m, row, seen, s, n);
    let t = (m.val)(peak);
    lemma_weights(m, row, seen, s, peak);
    let f = |c: int| weight(m.exp, seen, s, t, c);
    let ws = |c: int| rexp(rsub(row[c], peak));
    assert forall|c: int| 0 <= c < n implies m.is(#[trigger] ws(c), f(c)) by {
        assert(m.is(weights(row, peak)[c], f(c)));
    }
    lemma_sum(m, n, ws, f);
    lemma_positive(m, seen, s, t, n);
    let sum = rsum(n, f);
    let share = |c: int| (m.val)(soft(row)[c]);
    assert forall|c: int| 0 <= c < n implies (m.finite)(#[trigger] soft(row)[c]) && share(c) * sum
        == f(c) && 0 as real <= share(c) by {
        assert(m.is(ws(c), f(c)));
        assert(soft(row)[c] == rdiv(ws(c), exp_sum(row, peak)));
        assert((m.exp)(s(c) - t) > 0 as real);
        lemma_quotient_sign(share(c), sum, f(c));
    }
    let h = |c: int| sum * share(c);
    lemma_rsum_scale(n, sum, share);
    assert forall|c: int| 0 <= c < n implies #[trigger] h(c) == f(c) by {
        assert((m.finite)(soft(row)[c]));
        let a = share(c);
        assert(sum * a == a * sum) by (nonlinear_arith);
    }
    lemma_rsum_eq(n, h, f);
    let total = rsum(n, share);
    assert(total * sum == sum * total) by (nonlinear_arith);
    assert(1 as real * sum == sum) by (nonlinear_arith);
    lemma_cancel(total, 1 as real, sum);
}

/// The logarithm form of a row's softmax: its exponentials are the shares, and none of its values is
/// positive.
pub proof fn log_softmax_is_its_logarithm<R: Real>(m: Reading<R>, row: Seq<R>, c: int)
    requires
        m.faithful(),
        m.reads_logarithms(),
        m.all_finite(row),
        0 <= c < row.len(),
    ensures
        (m.finite)(soft(row)[c]),
        (m.finite)(log_soft(row)[c]),
        m.is(rexp(log_soft(row)[c]), (m.val)(soft(row)[c])),
        (m.val)(log_soft(row)[c]) <= 0 as real,
{
    let n = row.len();
    let (seen, s) = (|c: int| true, |c: int| (m.val)(row[c]));
    assert(scored(m, row, seen, s));
    assert(seen(0));
    let peak = top(row, n);
    lemma_top(m, row, seen, s, n);
    let t = (m.val)(peak);
    lemma_weights(m, row, seen, s, peak);
    let f = |c: int| weight(m.exp, seen, s, t, c);
    let ws = |c: int| rexp(rsub(row[c], peak));
    assert forall|c: int| 0 <= c < n implies m.is(#[trigger] ws(c), f(c)) by {
        assert(m.is(weights(row, peak)[c], f(c)));
    }
    lemma_sum(m, n, ws, f);
    lemma_positive(m, seen, s, t, n);
    let total = exp_sum(row, peak);
    let sum = rsum(n, f);
    assert(m.is(total, sum));
    // the share of value c
    assert(m.is(ws(c), f(c)));
    assert(soft(row)[c] == rdiv(ws(c), total));
    let share = (m.val)(soft(row)[c]);
    assert(share * sum == f(c));
    // its logarithm
    let (far, ln) = ((m.val)(row[c]) - t, (m.val)(rln(total)));
    let y = far - ln;
    assert(log_soft(row)[c] == rsub(rsub(row[c], peak), rln(total)));
    assert(m.is(log_soft(row)[c], y));
    assert(m.adds_up(y, ln));
    assert(y + ln == far);
    let e = (m.exp)(y);
    assert(e * sum == f(c));
    lemma_cancel(e, share, sum);
    // a share is no more than the whole
    lemma_part(n, f, c, m, seen, s, t);
    if y > 0 as real {
        assert(e > 1 as real);
        assert(e * sum > sum) by (nonlinear_arith)
            requires
                e > 1 as real,
                sum > 0 as real,
        ;
    }
}

/// No weight is more than the weights' sum.
proof fn lemma_part<R: Real>(
    n: nat,
    f: spec_fn(int) -> real,
    c: int,
    m: Reading<R>,
    seen: spec_fn(int) -> bool,
    s: spec_fn(int) -> real,
    t: real,
)
    requires
        m.faithful(),
        f == (|c: int| weight(m.exp, seen, s, t, c)),
    ensures
        0 as real <= rsum(n, f),
        0 <= c < n ==> f(c) <= rsum(n, f),
    decreases n,
{
    if n > 0 {
        lemma_part((n - 1) as nat, f, c, m, seen, s, t);
        assert((m.exp)(s(n - 1) - t) > 0 as real);
        assert(f(n - 1) == weight(m.exp, seen, s, t, n - 1));
    }
}

/// Over any dimension: where `p` is the softmax of `x` and `t` its log-softmax, the exponential of
/// every value of `t` is that value of `p`, and no value of `t` is positive.
pub proof fn log_softmax_exponentiates_to_softmax<R: Real>(
    m: Reading<R>,
    x: Seq<R>,
    p: Seq<R>,
    t: Seq<R>,
    dims: Seq<usize>,
    dim: int,
    o: int,
    j: int,
    i: int,
)
    requires
        m.faithful(),
        m.reads_logarithms(),
        m.all_finite(x),
        x.len() == elems(dims),
        0 <= dim < dims.len(),
        soft_along(Scale::Linear, x, p, dims, dim),
        soft_along(Scale::Log, x, t, dims, dim),
        0 <= o < outer(dims, dim),
        0 <= j < dims[dim],
        0 <= i < inner(dims, dim),
    ensures
        ({
            let at = strand(dims[dim] as int, inner(dims, dim), o, j, i);
            &&& (m.finite)(p[at])
            &&& m.is(rexp(t[at]), (m.val)(p[at]))
            &&& (m.val)(t[at]) <= 0 as real
        }),
{
    let (out, size, inn) = (outer(dims, dim), dims[dim] as int, inner(dims, dim));
    lemma_elems_by_dim(dims, dim);
    let row = strand_at(x, size, inn, o, i);
    assert forall|k: int| 0 <= k < row.len() implies (m.finite)(#[trigger] row[k]) by {
        lemma_strand_inside(out, size, inn, o, k, i);
        assert((m.finite)(x[strand(size, inn, o, k, i)]));
    }
    log_softmax_is_its_logarithm(m, row, j);
    assert(p[strand(size, inn, o, j, i)] == soft_in(Scale::Linear, row)[j]);
    assert(t[strand(size, inn, o, j, i)] == soft_in(Scale::Log, row)[j]);
}

/// A quotient of a positive number by a positive number is not negative.
proof fn lemma_quotient_sign(x: real, d: real, p: real)
    requires
        d > 0 as real,
        p > 0 as real,
        x * d == p,
    ensures
        0 as real <= x,
{
    if x < 0 as real {
        assert(x * d < 0 as real) by (nonlinear_arith)
            requires
                x < 0 as real,
                d > 0 as real,
        ;
    }
}

// -- the half-precision prefill --

/// Every half of a run is finite.
pub open spec fn finite_halves<R: Real>(m: Reading<R>, s: Seq<Half>) -> bool {
    forall|i: int| 0 <= i < s.len() ==> (m.finite)(rhalf::<R>(#[trigger] s[i]))
}

/// Dividing a row once, after its values are mixed, is mixing them by the softmax: the row that the
/// half-precision prefill rounds is the row of `softmax(QK^T)V` over the keys it may see.
pub proof fn dividing_last_is_softmax<R: Real>(
    m: Reading<R>,
    chunk: HalfChunk,
    qr: int,
    scale: R,
    i: int,
)
    requires
        m.faithful(),
        chunk.wf(),
        (m.finite)(scale),
        finite_halves(m, chunk.q@),
        finite_halves(m, chunk.k@),
        finite_halves(m, chunk.v@),
        0 <= qr < chunk.heads * chunk.rows,
        0 <= i < chunk.hd,
    ensures
        ({
            let row = chunk.scores(qr, scale);
            let peak = top(row, row.len());
            let once = rdiv(chunk.mixed(qr, weights(row, peak), i), exp_sum(row, peak));
            &&& chunk.answer(qr, scale)[i] == rto_half::<R>(once)
            &&& (m.finite)(once)
            &&& m.is(chunk.mixed(qr, soft(row), i), (m.val)(once))
        }),
{
    let (heads, rows, kv, hd) = (
        chunk.heads as int,
        chunk.rows as int,
        chunk.kv as int,
        chunk.hd as int,
    );
    lemma_row_head(heads, rows, qr);
    vstd::arithmetic::div_mod::lemma_mod_bound(qr, rows);
    vstd::arithmetic::div_mod::lemma_mod_bound(qr % rows, chunk.seq as int);
    let row = chunk.scores(qr, scale);
    let n = row.len();
    let head = chunk.head(qr);
    let value = |c: int| rhalf::<R>(chunk.v@[cell(hd, head * kv + c, i)]);
    let v = |c: int| (m.val)(value(c));
    let s = |c: int| (m.val)(row[c]);
    let seen = |c: int| true;
    assert forall|c: int| 0 <= c < n implies m.is(#[trigger] row[c], s(c)) && m.is(
        value(c),
        v(c),
    ) by {
        let r = head * kv + c;
        lemma_cell_inside(heads, kv, head, c);
        lemma_cell_inside(heads * kv, hd, r, i);
        assert((m.finite)(rhalf::<R>(chunk.v@[cell(hd, r, i)])));
        let f = |e: int|
            rmul(rhalf::<R>(chunk.q@[cell(hd, qr, e)]), rhalf(chunk.k@[cell(hd, r, e)]));
        let g = |e: int| (m.val)(f(e));
        assert forall|e: int| 0 <= e < hd implies m.is(#[trigger] f(e), g(e)) by {
            lemma_cell_inside(heads * rows, hd, qr, e);
            lemma_cell_inside(heads * kv, hd, r, e);
            assert((m.finite)(rhalf::<R>(chunk.q@[cell(hd, qr, e)])));
            assert((m.finite)(rhalf::<R>(chunk.k@[cell(hd, r, e)])));
        }
        lemma_sum(m, hd as nat, f, g);
        lemma_fsum_eq(
            hd as nat,
            f,
            |e: int|
                rmul(
                    rhalf::<R>(chunk.q@[cell(chunk.hd as int, qr, e)]),
                    rhalf(chunk.k@[cell(chunk.hd as int, chunk.head(qr) * chunk.kv + c, e)]),
                ),
        );
    }
    assert forall|c: int| 0 <= c < n implies m.is(#[trigger] value(c), v(c)) by {
        assert(m.is(row[c], s(c)));
    }
    assert(scored(m, row, seen, s));
    assert(seen(0));
    let peak = top(row, n);
    lemma_top(m, row, seen, s, n);
    let t = (m.val)(peak);
    lemma_weights(m, row, seen, s, peak);
    let w = weights(row, peak);
    let f = |c: int| weight(m.exp, seen, s, t, c);
    let g = |c: int| weight(m.exp, seen, s, t, c) * v(c);
    let ws = |c: int| rexp(rsub(row[c], peak));
    assert forall|c: int| 0 <= c < n implies m.is(#[trigger] ws(c), f(c)) by {
        assert(m.is(weights(row, peak)[c], f(c)));
    }
    lemma_sum(m, n, ws, f);
    let mix = |c: int| rmul(w[c], rhalf::<R>(chunk.v@[cell(hd, head * kv + c, i)]));
    assert forall|c: int| 0 <= c < n implies m.is(#[trigger] mix(c), g(c)) by {
        assert(m.is(ws(c), f(c)));
        assert(w[c] == ws(c));
        assert(m.is(value(c), v(c)));
    }
    lemma_sum(m, n, mix, g);
    lemma_positive(m, seen, s, t, n);
    lemma_whole(m, row, seen, s, value, v, t);
    let by_soft = |c: int| rmul(soft(row)[c], value(c));
    lemma_fsum_eq(
        n,
        by_soft,
        |c: int|
            rmul(
                soft(row)[c],
                rhalf(chunk.v@[cell(chunk.hd as int, chunk.head(qr) * chunk.kv + c, i)]),
            ),
    );
    let once = rdiv(chunk.mixed(qr, w, i), exp_sum(row, peak));
    assert(chunk.mixed(qr, w, i) == fsum(n, mix));
    lemma_cancel((m.val)(once), (m.val)(chunk.mixed(qr, soft(row), i)), rsum(n, f));
}

/// A row of the half-precision prefill before it is rounded, over the keys it sees.
pub(crate) proof fn lemma_half_row<R: Real>(
    m: Reading<R>,
    chunk: HalfChunk,
    qr: int,
    scale: R,
    i: int,
) -> (once: R)
    requires
        m.faithful(),
        chunk.wf(),
        (m.finite)(scale),
        finite_halves(m, chunk.q@),
        finite_halves(m, chunk.k@),
        finite_halves(m, chunk.v@),
        0 <= qr < chunk.heads * chunk.rows,
        0 <= i < chunk.hd,
    ensures
        chunk.answer(qr, scale)[i] == rto_half::<R>(once),
        (m.finite)(once),
        ({
            let (hd, r0) = (chunk.hd as int, (qr / chunk.rows as int) * chunk.kv);
            let n = (chunk.past + (qr % chunk.rows as int) % chunk.seq as int + 1) as nat;
            let s = |c: int| rsum(
                hd as nat,
                |j: int|
                    (m.val)(rhalf::<R>(chunk.q@[qr * hd + j])) * (m.val)(
                        rhalf::<R>(chunk.k@[(r0 + c) * hd + j]),
                    ),
            );
            let e = |c: int| (m.exp)((m.val)(scale) * s(c));
            &&& (m.val)(once) * rsum(n, e) == rsum(
                n,
                |c: int|
                    (m.exp)((m.val)(scale) * s(c)) * (m.val)(
                        rhalf::<R>(chunk.v@[(r0 + c) * hd + i]),
                    ),
            )
            &&& rsum(n, e) > 0 as real
        }),
{
    let (heads, rows, kv, hd) = (
        chunk.heads as int,
        chunk.rows as int,
        chunk.kv as int,
        chunk.hd as int,
    );
    lemma_row_head(heads, rows, qr);
    vstd::arithmetic::div_mod::lemma_mod_bound(qr, rows);
    vstd::arithmetic::div_mod::lemma_mod_bound(qr % rows, chunk.seq as int);
    let row = chunk.scores(qr, scale);
    let n = row.len();
    let r0 = (qr / rows) * kv;
    let own = |c: int| rsum(
        hd as nat,
        |j: int|
            (m.val)(rhalf::<R>(chunk.q@[qr * hd + j])) * (m.val)(
                rhalf::<R>(chunk.k@[(r0 + c) * hd + j]),
            ),
    );
    let b = (m.val)(scale);
    let s = |c: int| b * own(c);
    let v = |c: int| (m.val)(rhalf::<R>(chunk.v@[(r0 + c) * hd + i]));
    let seen = |c: int| true;
    assert forall|c: int| 0 <= c < n implies m.is(#[trigger] row[c], s(c)) && m.is(
        rhalf::<R>(chunk.v@[(r0 + c) * hd + i]),
        v(c),
    ) by {
        let r = r0 + c;
        lemma_cell_inside(heads, kv, qr / rows, c);
        lemma_cell_inside(heads * kv, hd, r, i);
        assert((m.finite)(rhalf::<R>(chunk.v@[cell(hd, r, i)])));
        let f = |e: int|
            rmul(rhalf::<R>(chunk.q@[cell(hd, qr, e)]), rhalf(chunk.k@[cell(hd, r, e)]));
        let g = |j: int|
            (m.val)(rhalf::<R>(chunk.q@[qr * hd + j])) * (m.val)(
                rhalf::<R>(chunk.k@[(r0 + c) * hd + j]),
            );
        assert forall|e: int| 0 <= e < hd implies m.is(#[trigger] f(e), g(e)) by {
            lemma_cell_inside(heads * rows, hd, qr, e);
            lemma_cell_inside(heads * kv, hd, r, e);
            assert((m.finite)(rhalf::<R>(chunk.q@[cell(hd, qr, e)])));
            assert((m.finite)(rhalf::<R>(chunk.k@[cell(hd, r, e)])));
        }
        lemma_sum(m, hd as nat, f, g);
        lemma_fsum_eq(
            hd as nat,
            f,
            |e: int|
                rmul(
                    rhalf::<R>(chunk.q@[cell(chunk.hd as int, qr, e)]),
                    rhalf(chunk.k@[cell(chunk.hd as int, chunk.head(qr) * chunk.kv + c, e)]),
                ),
        );
        let o = own(c);
        assert(o * b == b * o) by (nonlinear_arith);
    }
    assert(scored(m, row, seen, s));
    assert(seen(0));
    let peak = top(row, n);
    lemma_top(m, row, seen, s, n);
    let t = (m.val)(peak);
    lemma_weights(m, row, seen, s, peak);
    let w = weights(row, peak);
    let f = |c: int| weight(m.exp, seen, s, t, c);
    let g = |c: int| weight(m.exp, seen, s, t, c) * v(c);
    let ws = |c: int| rexp(rsub(row[c], peak));
    assert forall|c: int| 0 <= c < n implies m.is(#[trigger] ws(c), f(c)) by {
        assert(m.is(weights(row, peak)[c], f(c)));
    }
    lemma_sum(m, n, ws, f);
    let mix = |c: int|
        rmul(w[c], rhalf::<R>(chunk.v@[cell(chunk.hd as int, chunk.head(qr) * chunk.kv + c, i)]));
    assert forall|c: int| 0 <= c < n implies m.is(#[trigger] mix(c), g(c)) by {
        assert(m.is(ws(c), f(c)));
        assert(w[c] == ws(c));
        assert(m.is(row[c], s(c)));
    }
    lemma_sum(m, n, mix, g);
    lemma_positive(m, seen, s, t, n);
    lemma_seen_only(m, seen, s, v, t, n, n);
    let once = rdiv(chunk.mixed(qr, w, i), exp_sum(row, peak));
    assert(chunk.mixed(qr, w, i) == fsum(n, mix));
    let x = (m.val)(once);
    assert(x * rsum(n, f) == rsum(n, g));
    lemma_numbers_scaled(m, n, s, v, t, x);
    let (p, q) = (|c: int| (m.exp)(s(c)), |c: int| (m.exp)(s(c)) * v(c));
    lemma_rsum_eq(n, p, |c: int| (m.exp)((m.val)(scale) * own(c)));
    lemma_rsum_eq(
        n,
        q,
        |c: int|
            (m.exp)((m.val)(scale) * own(c)) * (m.val)(rhalf::<R>(chunk.v@[(r0 + c) * hd + i])),
    );
    once
}

} // verus!
