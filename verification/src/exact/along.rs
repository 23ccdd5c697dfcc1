//! Dimensions, stretches and places: which element of the input an element of the output comes from.
use vstd::prelude::*;
use crate::arith::{Real, radd, rint, rmax, rmul, rneg, rzero};
use crate::exact::attention::{Reading, softmax_shares_one, softmax_weighs};
use crate::exact::numbers::{lemma_rsum_eq, rsum};
use crate::exact::rows::{lemma_logistic, reads_roots};
use crate::ops::activation::{capped, floored, oai_gated, sigmoid_at};
use crate::ops::softmax::{Scale, StrandMap, soft, soft_along, strand_at};
use crate::ops::traits::{Edge, Piece, TensorIndexer, narrowed, taken};
use crate::tensor::{Pairwise, elems, inner, joined, outer, source, strand, stretched_pairs};

verus! {

proof fn lemma_place(out: int, n: int, inn: int, o: int, j: int, i: int)
    requires
        0 <= o < out,
        0 <= j < n,
        0 <= i < inn,
    ensures
        0 <= (o * n + j) * inn + i < (out * n) * inn,
{
    let q = o * n + j;
    assert(0 <= q < out * n) by (nonlinear_arith)
        requires
            0 <= o < out,
            0 <= j < n,
            q == o * n + j,
    ;
    assert(0 <= q * inn + i < (out * n) * inn) by (nonlinear_arith)
        requires
            0 <= q < out * n,
            0 <= i < inn,
    ;
}

/// Softmax along any dimension: the shares of a strand make one whole, and are to each other as the
/// exponentials of its values.
pub proof fn softmax_strands_weigh<R: Real>(
    m: Reading<R>,
    x: Seq<R>,
    t: Seq<R>,
    dims: Seq<usize>,
    dim: int,
    out: int,
    inn: int,
    o: int,
    i: int,
    j: int,
    k: int,
)
    requires
        m.faithful(),
        m.all_finite(x),
        0 <= dim < dims.len(),
        out == elems(dims.take(dim)),
        inn == elems(dims.skip(dim + 1)),
        x.len() == (out * dims[dim]) * inn,
        soft_along(Scale::Linear, x, t, dims, dim),
        0 <= o < out,
        0 <= i < inn,
        0 <= j < dims[dim],
        0 <= k < dims[dim],
    ensures
        ({
            let n = dims[dim] as int;
            let (pj, pk) = ((o * n + j) * inn + i, (o * n + k) * inn + i);
            (m.val)(t[pj]) * (m.exp)((m.val)(x[pk])) == (m.val)(t[pk]) * (m.exp)((m.val)(x[pj]))
        }),
        rsum(
            dims[dim] as nat,
            |c: int| (m.val)(t[(o * dims[dim] + c) * inn + i]),
        ) == 1 as real,
{
    let n = dims[dim] as int;
    let row = strand_at(x, n, inn, o, i);
    assert forall|c: int| 0 <= c < row.len() implies (m.finite)(#[trigger] row[c]) by {
        lemma_place(out, n, inn, o, c, i);
        assert(row[c] == x[(o * n + c) * inn + i]);
    }
    softmax_weighs(m, row, j, k);
    softmax_shares_one(m, row);
    let f = |c: int| (m.val)(soft(row)[c]);
    let g = |c: int| (m.val)(t[(o * dims[dim] + c) * inn + i]);
    assert forall|c: int| 0 <= c < n implies #[trigger] f(c) == g(c) by {
        assert(outer(dims, dim) == out && inner(dims, dim) == inn);
        assert(strand_at(x, dims[dim] as int, inner(dims, dim), o, i) == row);
        assert(t[strand(dims[dim] as int, inner(dims, dim), o, c, i)]
            == <Scale as StrandMap<R, R>>::of(Scale::Linear, row)[c]);
    }
    lemma_rsum_eq(n as nat, f, g);
    assert(f(j) == g(j) && f(k) == g(k));
}

// -- parts of a tensor --

/// A part that keeps `start .. start + len` of a dimension: element `j` of the part is element
/// `start + j` of the whole, at every place before and behind.
pub proof fn parts_keep_their_stretch<T>(
    dims: Seq<usize>,
    x: Seq<T>,
    dim: int,
    start: int,
    len: int,
    o: int,
    j: int,
    i: int,
)
    requires
        0 <= dim < dims.len(),
        0 <= o < elems(dims.take(dim)),
        0 <= j < len,
        0 <= i < elems(dims.skip(dim + 1)),
    ensures
        ({
            let inn = elems(dims.skip(dim + 1));
            narrowed(dims, x, dim, start, len)[(o * len + j) * inn + i] == x[(o * dims[dim] + (start
                + j)) * inn + i]
        }),
{
    let (out, n, inn) = (elems(dims.take(dim)), dims[dim] as int, elems(dims.skip(dim + 1)));
    let w = len * inn;
    let q = (o * len + j) * inn + i;
    lemma_place(out, len, inn, o, j, i);
    assert((out * len) * inn == out * w) by (nonlinear_arith)
        requires
            w == len * inn,
    ;
    let rest = j * inn + i;
    assert(0 <= rest < w) by (nonlinear_arith)
        requires
            0 <= j < len,
            0 <= i < inn,
            w == len * inn,
            rest == j * inn + i,
    ;
    assert(q == o * w + rest) by (nonlinear_arith)
        requires
            q == (o * len + j) * inn + i,
            w == len * inn,
            rest == j * inn + i,
    ;
    vstd::arithmetic::div_mod::lemma_fundamental_div_mod_converse(q, w, o, rest);
    let from = o * n + start;
    assert(from * inn + rest == (o * n + (start + j)) * inn + i) by (nonlinear_arith)
        requires
            from == o * n + start,
            rest == j * inn + i,
    ;
}

/// Taking one place of a dimension leaves the elements at that place, and the dimension is gone.
pub proof fn a_selected_place_is_kept<T>(p: Piece<T>, dim: int, k: usize, o: int, i: int)
    requires
        0 <= dim < p.dims.len(),
        k < p.dims[dim],
        0 <= o < elems(p.dims.take(dim)),
        0 <= i < elems(p.dims.skip(dim + 1)),
    ensures
        taken(p, dim, TensorIndexer::Select(k)) is Ok,
        taken(p, dim, TensorIndexer::Select(k))->Ok_0.dims == p.dims.remove(dim),
        ({
            let inn = elems(p.dims.skip(dim + 1));
            taken(p, dim, TensorIndexer::Select(k))->Ok_0.data[o * inn + i] == p.data[(o
                * p.dims[dim] + k) * inn + i]
        }),
{
    parts_keep_their_stretch(p.dims, p.data, dim, k as int, 1, o, 0, i);
    let inn = elems(p.dims.skip(dim + 1));
    assert(o * 1 + 0 == o);
    assert(k as int + 0 == k);
}

/// Taking `a .. b` of a dimension leaves its elements from `a` up to `b`, `b` left out; `a ..= b` the
/// one at `b` too; and an open end reaches as far as the dimension does.
pub proof fn a_range_is_kept<T>(p: Piece<T>, dim: int, a: usize, b: usize, o: int, j: int, i: int)
    requires
        0 <= dim < p.dims.len(),
        a <= b < p.dims[dim],
        0 <= o < elems(p.dims.take(dim)),
        0 <= i < elems(p.dims.skip(dim + 1)),
    ensures
        ({
            let inn = elems(p.dims.skip(dim + 1));
            let n = p.dims[dim] as int;
            let half = taken(p, dim, TensorIndexer::Narrow(Edge::Included(a), Edge::Excluded(b)));
            let full = taken(p, dim, TensorIndexer::Narrow(Edge::Included(a), Edge::Included(b)));
            let tail = taken(p, dim, TensorIndexer::Narrow(Edge::Included(a), Edge::Unbounded));
            let head = taken(p, dim, TensorIndexer::Narrow(Edge::Unbounded, Edge::Excluded(b)));
            &&& half is Ok && half->Ok_0.dims == p.dims.update(dim, (b - a) as usize)
            &&& full is Ok && full->Ok_0.dims == p.dims.update(dim, (b + 1 - a) as usize)
            &&& tail is Ok && tail->Ok_0.dims == p.dims.update(dim, (n - a) as usize)
            &&& head is Ok && head->Ok_0.dims == p.dims.update(dim, b)
            &&& 0 <= j < b - a ==> half->Ok_0.data[(o * (b - a) + j) * inn + i] == p.data[(o * n + (a
                + j)) * inn + i]
            &&& 0 <= j < b + 1 - a ==> full->Ok_0.data[(o * (b + 1 - a) + j) * inn + i] == p.data[(o
                * n + (a + j)) * inn + i]
            &&& 0 <= j < n - a ==> tail->Ok_0.data[(o * (n - a) + j) * inn + i] == p.data[(o * n + (a
                + j)) * inn + i]
            &&& 0 <= j < b ==> head->Ok_0.data[(o * b + j) * inn + i] == p.data[(o * n + j) * inn
                + i]
        }),
{
    let n = p.dims[dim] as int;
    if 0 <= j < b - a {
        parts_keep_their_stretch(p.dims, p.data, dim, a as int, b - a, o, j, i);
    }
    if 0 <= j < b + 1 - a {
        parts_keep_their_stretch(p.dims, p.data, dim, a as int, b + 1 - a, o, j, i);
    }
    if 0 <= j < n - a {
        parts_keep_their_stretch(p.dims, p.data, dim, a as int, n - a, o, j, i);
    }
    if 0 <= j < b {
        parts_keep_their_stretch(p.dims, p.data, dim, 0, b as int, o, j, i);
        assert(0 + j == j);
    }
}

// -- stretching --

/// The place of `[idx]` in a tensor of shape `dims`, the last dimension running fastest.
pub open spec fn flat(dims: Seq<usize>, idx: Seq<int>) -> int
    decreases dims.len(),
{
    if dims.len() == 0 || idx.len() == 0 {
        0
    } else {
        flat(dims.drop_last(), idx.drop_last()) * dims.last() + idx.last()
    }
}

/// The indices that a shape `s` sees of `idx`: those of its own dimensions, counted from the last,
/// and zero in a dimension that is one long.
pub open spec fn seen_by(s: Seq<usize>, idx: Seq<int>) -> Seq<int> {
    Seq::new(
        s.len(),
        |k: int|
            if s[k] == 1 {
                0
            } else {
                idx[idx.len() - s.len() + k]
            },
    )
}

/// An element of a stretched tensor is the element at the indices its shape sees.
pub proof fn stretching_repeats(dims: Seq<usize>, s: Seq<usize>, idx: Seq<int>)
    requires
        s.len() <= dims.len(),
        idx.len() == dims.len(),
        forall|k: int| 0 <= k < dims.len() ==> 0 <= #[trigger] idx[k] < dims[k],
    ensures
        source(dims, s, flat(dims, idx)) == flat(s, seen_by(s, idx)),
    decreases s.len(),
{
    if s.len() > 0 {
        let (d1, s1, i1) = (dims.drop_last(), s.drop_last(), idx.drop_last());
        assert forall|k: int| 0 <= k < d1.len() implies 0 <= #[trigger] i1[k] < d1[k] by {
            assert(i1[k] == idx[k] && d1[k] == dims[k]);
        }
        stretching_repeats(d1, s1, i1);
        let (f, l, n) = (flat(d1, i1), idx.last(), dims.last() as int);
        assert(0 <= idx[dims.len() - 1] < dims[dims.len() - 1]);
        vstd::arithmetic::div_mod::lemma_fundamental_div_mod_converse(f * n + l, n, f, l);
        let seen = seen_by(s, idx);
        assert(seen.drop_last() =~= seen_by(s1, i1));
    }
}

/// A tensor combined with another, each stretched over the dimensions in which it is one long: at
/// every index, what stands at the indices each of them sees, added or multiplied.
pub proof fn stretched_tensors_meet_by_index<R: Real>(
    op: Pairwise,
    ad: Seq<usize>,
    a: Seq<R>,
    bd: Seq<usize>,
    b: Seq<R>,
    dims: Seq<usize>,
    idx: Seq<int>,
)
    requires
        joined(ad, bd) == Some(dims),
        ad.len() <= dims.len(),
        bd.len() <= dims.len(),
        idx.len() == dims.len(),
        forall|k: int| 0 <= k < dims.len() ==> 0 <= #[trigger] idx[k] < dims[k],
        0 <= flat(dims, idx) < elems(dims),
    ensures
        ({
            let (u, v) = (a[flat(ad, seen_by(ad, idx))], b[flat(bd, seen_by(bd, idx))]);
            let y = stretched_pairs(op, ad, a, bd, b)[flat(dims, idx)];
            match op {
                Pairwise::Sum => y == radd(u, v),
                Pairwise::Product => y == rmul(u, v),
            }
        }),
{
    stretching_repeats(dims, ad, idx);
    stretching_repeats(dims, bd, idx);
}

// -- clamped gating --

/// The larger of two numbers is read as it is, and minus one is minus one.
pub open spec fn reads_clamps<R: Real>(m: Reading<R>) -> bool {
    &&& m.is(rint::<R>(-1i32 as i32), -1 as real)
    &&& forall|a: R, b: R|
        (m.finite)(a) && (m.finite)(b) ==> m.is(
            #[trigger] rmax(a, b),
            if (m.val)(a) <= (m.val)(b) {
                (m.val)(b)
            } else {
                (m.val)(a)
            },
        )
}

/// The lesser of two numbers.
pub open spec fn lesser(a: real, b: real) -> real {
    if a <= b {
        a
    } else {
        b
    }
}

/// The larger of two numbers.
pub open spec fn greater(a: real, b: real) -> real {
    if a <= b {
        b
    } else {
        a
    }
}

proof fn lemma_capped<R: Real>(m: Reading<R>, v: R, l: R)
    requires
        m.faithful(),
        reads_roots(m),
        reads_clamps(m),
        (m.finite)(v),
        (m.finite)(l),
    ensures
        m.is(capped(v, l), lesser((m.val)(v), (m.val)(l))),
        m.is(floored(v, l), greater((m.val)(v), -(m.val)(l))),
{
    let (x, y) = ((m.val)(v), (m.val)(l));
    assert((-1 as real) * x == -x) by (nonlinear_arith);
    assert((1 as real) * x == x) by (nonlinear_arith);
    let a = radd(rmul(rint::<R>(-1i32 as i32), v), l);
    assert(m.is(a, y - x));
    let t = rmax(a, rzero::<R>());
    let vt = (m.val)(t);
    assert((m.finite)(t));
    assert((-1 as real) * vt == -vt) by (nonlinear_arith);
    let b = radd(rmul(rint::<R>(1), v), l);
    assert(m.is(b, x + y));
    let s = rmax(b, rzero::<R>());
    let vs = (m.val)(s);
    assert((m.finite)(s));
    assert((1 as real) * vs == vs) by (nonlinear_arith);
    assert(m.is(rneg(l), -y));
}

/// The clamped gated activation: with `x` the first value, no larger than the limit, and `y` the
/// second, within it on both sides, the answer times `1 + exp(-alpha * x)` is `x * (y + 1)`.
pub proof fn clamped_gates_weigh_by_the_logistic<R: Real>(
    m: Reading<R>,
    g: R,
    u: R,
    alpha: R,
    limit: R,
)
    requires
        m.faithful(),
        reads_roots(m),
        reads_clamps(m),
        (m.finite)(g),
        (m.finite)(u),
        (m.finite)(alpha),
        (m.finite)(limit),
    ensures
        ({
            let l = (m.val)(limit);
            let x = lesser((m.val)(g), l);
            let y = lesser(greater((m.val)(u), -l), l);
            (m.val)(oai_gated(g, u, alpha, limit)) * (1 as real + (m.exp)(-((m.val)(alpha) * x))) == x
                * (y + 1 as real)
        }),
{
    lemma_capped(m, g, limit);
    lemma_capped(m, u, limit);
    lemma_capped(m, floored(u, limit), limit);
    let x = capped(g, limit);
    let gg = capped(floored(u, limit), limit);
    let ax = rmul(alpha, x);
    assert((m.finite)(ax));
    lemma_logistic(m, ax);
    let s = sigmoid_at(ax);
    let (vx, vs, vy) = ((m.val)(x), (m.val)(s), (m.val)(gg) + 1 as real);
    let d = 1 as real + (m.exp)(-(m.val)(ax));
    assert(vs * d == 1 as real);
    assert(((vx * vs) * vy) * d == (vx * vy) * (vs * d)) by (nonlinear_arith);
    let p = vx * vy;
    assert(p * (1 as real) == p) by (nonlinear_arith);
}

} // verus!
