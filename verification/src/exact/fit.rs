//! The signed scale fit: no refinement makes it worse, and no weight it is given is zero.
use vstd::prelude::*;
use crate::arith::{
    Real, rabs, radd, rdiv, req, rint, rle, rlt, rmul, rneg, rround, rsqrt, rzero,
};
use crate::exact::numbers::{exact, lemma_rsum_eq, lemma_rsum_plus, lemma_rsum_scale, rsum, size};
use crate::exact::roundtrip::{extreme_is_true, lemma_extreme};
use crate::scale::{
    Fit, Search, committed, extreme_of, moved_at, rederived, rms_of, settled, signed_fit,
    signed_fit_levels, signed_level, signed_score, signed_search, stretch, stretched, swept,
};
use crate::sums::fsum;

verus! {

/// `val` reads the carrier as the ordered real numbers: beside sums and products, its comparisons,
/// magnitudes, quotients and nearest integers are the numbers' own.
pub open spec fn ordered<R: Real>(val: spec_fn(R) -> real) -> bool {
    &&& exact(val)
    &&& forall|a: R, b: R| #[trigger] rlt(a, b) == (val(a) < val(b))
    &&& forall|a: R, b: R| #[trigger] rle(a, b) == (val(a) <= val(b))
    &&& forall|a: R, b: R| #[trigger] req(a, b) == (val(a) == val(b))
    &&& forall|a: R| #[trigger] val(rabs(a)) == size(val(a))
    &&& forall|a: R, b: R|
        val(b) != 0 as real ==> #[trigger] val(rdiv(a, b)) * val(b) == val(a)
    &&& forall|a: R|
        size(val(a)) <= 0x7fff_ffff as real ==> -1 as real <= 2 as real * ((
        #[trigger] rround(a)) as real - val(a)) <= 1 as real
}

/// Level `i`, its bias taken off.
pub open spec fn level_at(nmax: int, ls: Seq<i8>, i: int) -> int {
    ls[i] - nmax
}

/// `w * (x - d * l)^2`: what value `i` is off by, weighed.
pub open spec fn miss<R: Real>(
    val: spec_fn(R) -> real,
    nmax: int,
    x: Seq<R>,
    w: Seq<R>,
    ls: Seq<i8>,
    d: real,
    i: int,
) -> real {
    let e = val(x[i]) - d * (level_at(nmax, ls, i) as real);
    val(w[i]) * (e * e)
}

/// The weighted squared error of levels under the scale `d`.
pub open spec fn squared_error<R: Real>(
    val: spec_fn(R) -> real,
    nmax: int,
    x: Seq<R>,
    w: Seq<R>,
    ls: Seq<i8>,
    d: real,
) -> real {
    rsum(x.len(), |i: int| miss(val, nmax, x, w, ls, d, i))
}

/// `w * x * l`.
spec fn cross<R: Real>(
    val: spec_fn(R) -> real,
    nmax: int,
    x: Seq<R>,
    w: Seq<R>,
    ls: Seq<i8>,
    i: int,
) -> real {
    (val(w[i]) * val(x[i])) * (level_at(nmax, ls, i) as real)
}

/// `w * l^2`.
spec fn square<R: Real>(
    val: spec_fn(R) -> real,
    nmax: int,
    w: Seq<R>,
    ls: Seq<i8>,
    i: int,
) -> real {
    val(w[i]) * ((level_at(nmax, ls, i) * level_at(nmax, ls, i)) as real)
}

/// A search whose sums are those of its levels, and whose objective is theirs.
spec fn tracks<R: Real>(
    val: spec_fn(R) -> real,
    nmax: int,
    x: Seq<R>,
    w: Seq<R>,
    s: Search<R>,
) -> bool {
    &&& s.ls.len() == x.len()
    &&& forall|i: int| 0 <= i < x.len() ==> 0 <= #[trigger] s.ls[i] < 2 * nmax
    &&& val(s.fit.wxl) == rsum(x.len(), |i: int| cross(val, nmax, x, w, s.ls, i))
    &&& val(s.fit.wl2) == rsum(x.len(), |i: int| square(val, nmax, w, s.ls, i))
    &&& s.best == s.fit.objective_of()
}

/// What the laws ask of a group.
spec fn asked<R: Real>(val: spec_fn(R) -> real, nmax: int, x: Seq<R>, w: Seq<R>) -> bool {
    &&& ordered(val)
    &&& 1 <= nmax <= 64
    &&& x.len() <= w.len()
    &&& forall|i: int| 0 <= i < x.len() ==> val(#[trigger] w[i]) > 0 as real
}

/// A product of integers, read as a number.
proof fn lemma_cast(a: int, b: int)
    ensures
        (a * b) as real == (a as real) * (b as real),
{
    let (ra, rb) = (a as real, b as real);
    assert((a * b) as real == ra * rb) by (nonlinear_arith)
        requires
            ra == a as real,
            rb == b as real,
    ;
}

/// The sums over the first `n` values are those of the levels taken.
proof fn lemma_score<R: Real>(
    val: spec_fn(R) -> real,
    nmax: int,
    x: Seq<R>,
    w: Seq<R>,
    inv: R,
    n: nat,
)
    requires
        asked(val, nmax, x, w),
        n <= x.len(),
    ensures
        ({
            let c = committed(nmax, x, w, inv);
            let f = signed_score(nmax, x, w, inv, n);
            &&& val(f.wxl) == rsum(n, |i: int| cross(val, nmax, x, w, c.ls, i))
            &&& val(f.wl2) == rsum(n, |i: int| square(val, nmax, w, c.ls, i))
        }),
    decreases n,
{
    if n > 0 {
        lemma_score(val, nmax, x, w, inv, (n - 1) as nat);
        let ls = committed(nmax, x, w, inv).ls;
        let l = signed_level(nmax, inv, x[n - 1]);
        assert(ls[n - 1] == l + nmax);
        lemma_cast(l, l);
        let (k, r) = (val(w[n - 1]), l as real);
        assert((k * r) * r == k * (r * r)) by (nonlinear_arith);
    }
}

/// Levels taken from an inverse scale are tracked.
proof fn lemma_committed<R: Real>(
    val: spec_fn(R) -> real,
    nmax: int,
    x: Seq<R>,
    w: Seq<R>,
    inv: R,
)
    requires
        asked(val, nmax, x, w),
    ensures
        tracks(val, nmax, x, w, committed(nmax, x, w, inv)),
        0 as real <= val(committed(nmax, x, w, inv).fit.wl2),
{
    lemma_score(val, nmax, x, w, inv, x.len());
    lemma_squares(val, nmax, x, w, committed(nmax, x, w, inv).ls, x.len());
}

/// Sums of squares are not negative.
proof fn lemma_squares<R: Real>(
    val: spec_fn(R) -> real,
    nmax: int,
    x: Seq<R>,
    w: Seq<R>,
    ls: Seq<i8>,
    n: nat,
)
    requires
        asked(val, nmax, x, w),
        n <= x.len(),
    ensures
        0 as real <= rsum(n, |i: int| square(val, nmax, w, ls, i)),
        forall|i: int|
            0 <= i < n && #[trigger] level_at(nmax, ls, i) != 0 ==> rsum(
                n,
                |i: int| square(val, nmax, w, ls, i),
            ) > 0 as real,
    decreases n,
{
    if n > 0 {
        lemma_squares(val, nmax, x, w, ls, (n - 1) as nat);
        let (k, l) = (val(w[n - 1]), level_at(nmax, ls, n - 1));
        let q = (l * l) as real;
        assert(l * l >= 0 && (l != 0 ==> l * l >= 1)) by (nonlinear_arith);
        assert(k * q >= 0 as real && (q >= 1 as real ==> k * q > 0 as real)) by (nonlinear_arith)
            requires
                k > 0 as real,
                q >= 0 as real,
        ;
    }
}

/// The objective times the sum of squares is the square of the cross sum.
proof fn lemma_objective<R: Real>(val: spec_fn(R) -> real, f: Fit<R>)
    requires
        ordered(val),
        val(f.wl2) != 0 as real,
    ensures
        val(f.scale_of()) * val(f.wl2) == val(f.wxl),
        val(f.objective_of()) == val(f.scale_of()) * val(f.wxl),
        val(f.objective_of()) * val(f.wl2) == val(f.wxl) * val(f.wxl),
{
    let (d, b, c) = (val(f.scale_of()), val(f.wxl), val(f.wl2));
    assert((d * b) * c == (d * c) * b) by (nonlinear_arith);
}

/// More for the same squares is more.
proof fn lemma_more(a: real, b: real, c: real)
    requires
        c > 0 as real,
        a * c < b * c,
    ensures
        a < b,
{
    if b <= a {
        assert(b * c <= a * c) by (nonlinear_arith)
            requires
                b <= a,
                c > 0 as real,
        ;
    }
}

/// A search that does no worse than another.
spec fn no_worse<R: Real>(val: spec_fn(R) -> real, s: Search<R>, t: Search<R>) -> bool {
    val(s.best) <= val(t.best)
}

/// What every step keeps: a tracked search, with squares to divide by, no worse than `first`.
spec fn kept<R: Real>(
    val: spec_fn(R) -> real,
    nmax: int,
    x: Seq<R>,
    w: Seq<R>,
    first: Search<R>,
    s: Search<R>,
) -> bool {
    tracks(val, nmax, x, w, s) && val(s.fit.wl2) > 0 as real && no_worse(val, first, s)
}

proof fn lemma_rederived<R: Real>(
    val: spec_fn(R) -> real,
    nmax: int,
    x: Seq<R>,
    w: Seq<R>,
    first: Search<R>,
    s: Search<R>,
    k: nat,
)
    requires
        asked(val, nmax, x, w),
        kept(val, nmax, x, w, first, s),
    ensures
        kept(val, nmax, x, w, first, rederived(nmax, x, w, s, k)),
    decreases k,
{
    if k > 0 {
        let inv = rdiv(rint::<R>(1), s.fit.scale_of());
        let c = committed(nmax, x, w, inv);
        lemma_committed(val, nmax, x, w, inv);
        if !(c.ls == s.ls || req(c.fit.wl2, rzero::<R>()) || rle(
            rmul(c.fit.wxl, c.fit.wxl),
            rmul(s.best, c.fit.wl2),
        )) {
            lemma_objective(val, c.fit);
            lemma_more(val(s.best), val(c.best), val(c.fit.wl2));
            lemma_rederived(val, nmax, x, w, first, c, (k - 1) as nat);
        }
    }
}

/// One term of a sum replaced.
proof fn lemma_replaced(n: nat, f: spec_fn(int) -> real, g: spec_fn(int) -> real, at: int)
    requires
        forall|i: int| 0 <= i < n && i != at ==> #[trigger] f(i) == g(i),
    ensures
        0 <= at < n ==> rsum(n, g) == rsum(n, f) - f(at) + g(at),
        !(0 <= at < n) ==> rsum(n, g) == rsum(n, f),
    decreases n,
{
    if n > 0 {
        lemma_replaced((n - 1) as nat, f, g, at);
        if at != n - 1 {
            assert(f(n - 1) == g(n - 1));
        }
    }
}

proof fn lemma_moved<R: Real>(
    val: spec_fn(R) -> real,
    nmax: int,
    x: Seq<R>,
    w: Seq<R>,
    first: Search<R>,
    s: Search<R>,
    i: int,
)
    requires
        asked(val, nmax, x, w),
        kept(val, nmax, x, w, first, s),
        0 <= i < x.len(),
    ensures
        kept(val, nmax, x, w, first, moved_at(nmax, x, w, s, i).0),
{
    let (t, moved) = moved_at(nmax, x, w, s, i);
    if moved {
        assert(0 <= s.ls[i] < 2 * nmax);
        let l = level_at(nmax, s.ls, i);
        let to = level_at(nmax, t.ls, i);
        assert(-nmax <= to <= nmax - 1);
        lemma_small_square(l);
        lemma_small_square(to);
        let f = |j: int| cross(val, nmax, x, w, s.ls, j);
        let g = |j: int| cross(val, nmax, x, w, t.ls, j);
        lemma_replaced(x.len(), f, g, i);
        let p = |j: int| square(val, nmax, w, s.ls, j);
        let q = |j: int| square(val, nmax, w, t.ls, j);
        lemma_replaced(x.len(), p, q, i);
        assert(val(t.fit.wxl) == val(s.fit.wxl) - f(i) + g(i));
        assert(val(t.fit.wl2) == val(s.fit.wl2) - p(i) + q(i));
        lemma_objective(val, s.fit);
        lemma_objective(val, t.fit);
        let (a, b, c, d) = (val(s.best), val(t.best), val(s.fit.wl2), val(t.fit.wl2));
        // a * c * d < b * d * c
        assert((a * c) * d == a * (c * d) && (b * d) * c == b * (c * d)) by (nonlinear_arith);
        assert(c * d > 0 as real) by (nonlinear_arith)
            requires
                c > 0 as real,
                d > 0 as real,
        ;
        lemma_more(a, b, c * d);
    }
}

/// The square of a level fits the integer that carries it.
proof fn lemma_small_square(l: int)
    requires
        -64 <= l <= 64,
    ensures
        0 <= l * l <= 4096,
{
    assert(0 <= l * l <= 4096) by (nonlinear_arith)
        requires
            -64 <= l <= 64,
    ;
}

proof fn lemma_swept<R: Real>(
    val: spec_fn(R) -> real,
    nmax: int,
    x: Seq<R>,
    w: Seq<R>,
    first: Search<R>,
    s: Search<R>,
    n: nat,
)
    requires
        asked(val, nmax, x, w),
        kept(val, nmax, x, w, first, s),
        n <= x.len(),
    ensures
        kept(val, nmax, x, w, first, swept(nmax, x, w, s, n).0),
    decreases n,
{
    if n > 0 {
        lemma_swept(val, nmax, x, w, first, s, (n - 1) as nat);
        lemma_moved(val, nmax, x, w, first, swept(nmax, x, w, s, (n - 1) as nat).0, n - 1);
    }
}

proof fn lemma_settled<R: Real>(
    val: spec_fn(R) -> real,
    nmax: int,
    x: Seq<R>,
    w: Seq<R>,
    first: Search<R>,
    s: Search<R>,
    k: nat,
)
    requires
        asked(val, nmax, x, w),
        kept(val, nmax, x, w, first, s),
    ensures
        kept(val, nmax, x, w, first, settled(nmax, x, w, s, k)),
    decreases k,
{
    if k > 0 {
        lemma_swept(val, nmax, x, w, first, s, x.len());
        lemma_settled(val, nmax, x, w, first, swept(nmax, x, w, s, x.len()).0, (k - 1) as nat);
    }
}

proof fn lemma_stretched<R: Real>(
    val: spec_fn(R) -> real,
    nmax: int,
    x: Seq<R>,
    w: Seq<R>,
    first: Search<R>,
    s: Search<R>,
    k: nat,
)
    requires
        asked(val, nmax, x, w),
        kept(val, nmax, x, w, first, s),
    ensures
        kept(val, nmax, x, w, first, stretched(nmax, x, w, s, k)),
    decreases k,
{
    if k > 0 {
        lemma_stretched(val, nmax, x, w, first, s, (k - 1) as nat);
        let before = stretched(nmax, x, w, s, (k - 1) as nat);
        let inv = stretch(nmax, extreme_of(x, x.len()), k - 1 - 4);
        let c = committed(nmax, x, w, inv);
        lemma_committed(val, nmax, x, w, inv);
        if val(c.fit.wl2) > 0 as real {
            lemma_objective(val, c.fit);
            if val(before.best) * val(c.fit.wl2) < val(c.fit.wxl) * val(c.fit.wxl) {
                lemma_more(val(before.best), val(c.best), val(c.fit.wl2));
            }
        }
    }
}

/// The extreme of a group that is not all zeros is one of its values, and not zero.
proof fn lemma_extreme_held<R: Real>(val: spec_fn(R) -> real, x: Seq<R>, n: nat)
    requires
        ordered(val),
        n <= x.len(),
    ensures
        val(extreme_of(x, n)) == 0 as real || exists|e: int|
            0 <= e < n && extreme_of(x, n) == #[trigger] x[e],
    decreases n,
{
    if n > 0 {
        lemma_extreme_held(val, x, (n - 1) as nat);
        let m = extreme_of(x, (n - 1) as nat);
        if rlt(rabs(m), rabs(x[n - 1])) {
            assert(extreme_of(x, n) == x[n - 1]);
        } else if val(m) != 0 as real {
            let e = choose|e: int| 0 <= e < n - 1 && m == #[trigger] x[e];
            assert(extreme_of(x, n) == x[e]);
        }
    }
}

/// The first levels put the extreme value on the end of the range, so they are not all zero.
proof fn lemma_first<R: Real>(
    val: spec_fn(R) -> real,
    nmax: int,
    x: Seq<R>,
    w: Seq<R>,
    at: int,
)
    requires
        asked(val, nmax, x, w),
        0 <= at < x.len(),
        val(x[at]) != 0 as real,
    ensures
        ({
            let far = extreme_of(x, x.len());
            let first = committed(nmax, x, w, rdiv(rneg(rint::<R>(nmax as i32)), far));
            &&& val(far) != 0 as real
            &&& kept(val, nmax, x, w, first, first)
        }),
{
    let n = x.len();
    let far = extreme_of(x, n);
    assert(extreme_is_true(val, x));
    lemma_extreme(val, x, n, at);
    lemma_extreme_held(val, x, n);
    let e = choose|e: int| 0 <= e < n && far == #[trigger] x[e];
    let inv = rdiv(rneg(rint::<R>(nmax as i32)), far);
    let p = rmul(inv, x[e]);
    assert(val(p) == -(nmax as real));
    assert(rround(p) == -nmax);
    let first = committed(nmax, x, w, inv);
    assert(first.ls[e] == signed_level(nmax, inv, x[e]) + nmax);
    assert(level_at(nmax, first.ls, e) == -nmax);
    lemma_committed(val, nmax, x, w, inv);
    lemma_squares(val, nmax, x, w, first.ls, n);
}

/// The squared error of tracked levels, in terms of their sums.
proof fn lemma_error<R: Real>(
    val: spec_fn(R) -> real,
    nmax: int,
    x: Seq<R>,
    w: Seq<R>,
    s: Search<R>,
    t: real,
)
    requires
        asked(val, nmax, x, w),
        tracks(val, nmax, x, w, s),
    ensures
        squared_error(val, nmax, x, w, s.ls, t) == rsum(
            x.len(),
            |i: int| val(w[i]) * (val(x[i]) * val(x[i])),
        ) - 2 as real * (t * val(s.fit.wxl)) + (t * t) * val(s.fit.wl2),
{
    let n = x.len();
    let a = |i: int| val(w[i]) * (val(x[i]) * val(x[i]));
    let b = |i: int| cross(val, nmax, x, w, s.ls, i);
    let c = |i: int| square(val, nmax, w, s.ls, i);
    let e = |i: int| miss(val, nmax, x, w, s.ls, t, i);
    let (m, q) = (-(2 as real * t), t * t);
    let mb = |i: int| m * b(i);
    let qc = |i: int| q * c(i);
    let ab = |i: int| a(i) + mb(i);
    let abc = |i: int| ab(i) + qc(i);
    lemma_rsum_scale(n, m, b);
    lemma_rsum_scale(n, q, c);
    lemma_rsum_plus(n, a, mb);
    lemma_rsum_plus(n, ab, qc);
    assert forall|i: int| 0 <= i < n implies #[trigger] e(i) == abc(i) by {
        let l = level_at(nmax, s.ls, i);
        lemma_cast(l, l);
        lemma_miss(val(w[i]), val(x[i]), t, l as real);
    }
    lemma_rsum_eq(n, e, abc);
    let (sb, sc) = (rsum(n, b), rsum(n, c));
    assert(m * sb == -(2 as real * (t * sb))) by (nonlinear_arith)
        requires
            m == -(2 as real * t),
    ;
}

/// One weighted square, multiplied out.
proof fn lemma_miss(w: real, x: real, t: real, l: real)
    ensures
        w * ((x - t * l) * (x - t * l)) == w * (x * x) + (-(2 as real * t)) * ((w * x) * l) + (t * t)
            * (w * (l * l)),
{
    let p = t * l;
    let two = 2 as real;
    assert((x - p) * (x - p) == x * x - two * (x * p) + p * p) by (nonlinear_arith)
        requires
            two == 2 as real,
    ;
    let (xx, xp, pp) = (x * x, x * p, p * p);
    assert(w * (xx - two * xp + pp) == w * xx - two * (w * xp) + w * pp) by (nonlinear_arith);
    assert(w * (x * (t * l)) == t * ((w * x) * l)) by (nonlinear_arith);
    assert(p * p == (t * t) * (l * l)) by (nonlinear_arith)
        requires
            p == t * l,
    ;
    let (tt, ll) = (t * t, l * l);
    assert(w * (tt * ll) == tt * (w * ll)) by (nonlinear_arith);
    let c = (w * x) * l;
    assert((-(two * t)) * c == -(two * (t * c))) by (nonlinear_arith);
}

/// The scale of tracked levels leaves all that the objective does not take off, and no scale
/// leaves less.
proof fn lemma_least<R: Real>(
    val: spec_fn(R) -> real,
    nmax: int,
    x: Seq<R>,
    w: Seq<R>,
    s: Search<R>,
    t: real,
)
    requires
        asked(val, nmax, x, w),
        tracks(val, nmax, x, w, s),
        val(s.fit.wl2) > 0 as real,
    ensures
        ({
            let all = rsum(x.len(), |i: int| val(w[i]) * (val(x[i]) * val(x[i])));
            &&& squared_error(val, nmax, x, w, s.ls, val(s.fit.scale_of())) == all - val(s.best)
            &&& all - val(s.best) <= squared_error(val, nmax, x, w, s.ls, t)
        }),
{
    let (d, b, c) = (val(s.fit.scale_of()), val(s.fit.wxl), val(s.fit.wl2));
    lemma_objective(val, s.fit);
    lemma_error(val, nmax, x, w, s, d);
    lemma_error(val, nmax, x, w, s, t);
    assert((d * d) * c == d * (d * c)) by (nonlinear_arith);
    lemma_parabola(d, b, c, t);
}

/// A parabola is lowest where its slope is zero.
proof fn lemma_parabola(d: real, b: real, c: real, t: real)
    requires
        d * c == b,
        c > 0 as real,
    ensures
        -(d * b) <= (t * t) * c - 2 as real * (t * b),
{
    let u = t - d;
    let two = 2 as real;
    assert(u * u >= 0 as real) by (nonlinear_arith);
    let uu = u * u;
    assert(uu * c >= 0 as real) by (nonlinear_arith)
        requires
            uu >= 0 as real,
            c > 0 as real,
    ;
    assert(uu == t * t - two * (t * d) + d * d) by (nonlinear_arith)
        requires
            uu == u * u,
            u == t - d,
            two == 2 as real,
    ;
    let (tt, td, dd) = (t * t, t * d, d * d);
    assert((tt - two * td + dd) * c == tt * c - two * (td * c) + dd * c) by (nonlinear_arith);
    assert((t * d) * c == t * (d * c)) by (nonlinear_arith);
    assert((d * d) * c == d * (d * c)) by (nonlinear_arith);
}

/// No refinement makes the fit worse: the objective the search ends with is at least that of the
/// levels it started from; the scale it gives is the least-squares scale of the levels it gives; and
/// the error they leave is at most what the first levels leave under any scale `t`.
pub proof fn refining_never_hurts<R: Real>(
    val: spec_fn(R) -> real,
    nmax: int,
    x: Seq<R>,
    w: Seq<R>,
    at: int,
    t: real,
)
    requires
        ordered(val),
        1 <= nmax <= 64,
        x.len() <= w.len(),
        forall|i: int| 0 <= i < x.len() ==> val(#[trigger] w[i]) > 0 as real,
        0 <= at < x.len(),
        val(x[at]) != 0 as real,
    ensures
        ({
            let first = committed(
                nmax,
                x,
                w,
                rdiv(rneg(rint::<R>(nmax as i32)), extreme_of(x, x.len())),
            );
            let (d, ls) = (val(signed_fit(nmax, x, w)), signed_fit_levels(nmax, x, w));
            &&& val(first.best) <= val(signed_search(nmax, x, w).best)
            &&& squared_error(val, nmax, x, w, ls, d) <= squared_error(val, nmax, x, w, ls, t)
            &&& squared_error(val, nmax, x, w, ls, d) <= squared_error(
                val,
                nmax,
                x,
                w,
                first.ls,
                t,
            )
        }),
{
    let inv = rdiv(rneg(rint::<R>(nmax as i32)), extreme_of(x, x.len()));
    let first = committed(nmax, x, w, inv);
    lemma_first(val, nmax, x, w, at);
    lemma_rederived(val, nmax, x, w, first, first, 3);
    let s = rederived(nmax, x, w, first, 3);
    lemma_settled(val, nmax, x, w, first, s, 5);
    lemma_stretched(val, nmax, x, w, first, settled(nmax, x, w, s, 5), 9);
    let end = signed_search(nmax, x, w);
    lemma_least(val, nmax, x, w, end, t);
    lemma_least(val, nmax, x, w, first, t);
}

/// Roots of numbers that are not negative are theirs.
pub open spec fn rooted<R: Real>(val: spec_fn(R) -> real) -> bool {
    forall|a: R|
        val(a) >= 0 as real ==> #[trigger] val(rsqrt(a)) >= 0 as real && val(rsqrt(a)) * val(
            rsqrt(a),
        ) == val(a)
}

/// The weight a value has when no importance says otherwise, `rms(x) + |x|`, is never zero in a
/// group that is not all zeros: no value falls out of the fit.
pub proof fn magnitude_weights_are_positive<R: Real>(
    val: spec_fn(R) -> real,
    x: Seq<R>,
    at: int,
    i: int,
)
    requires
        ordered(val),
        rooted(val),
        x.len() <= 256,
        0 <= at < x.len(),
        val(x[at]) != 0 as real,
        0 <= i < x.len(),
    ensures
        val(radd(rms_of(x, x.len()), rabs(x[i]))) > 0 as real,
{
    let n = x.len();
    let f = |j: int| rmul(x[j], x[j]);
    let squares = fsum(n, f);
    lemma_own_squares(val, x, n);
    let (s, c) = (val(squares), val(rint::<R>(n as i32)));
    assert(c == n as real);
    let mean = rdiv(squares, rint::<R>(n as i32));
    let m = val(mean);
    assert(m * c == s);
    if m <= 0 as real {
        assert(m * c <= 0 as real) by (nonlinear_arith)
            requires
                m <= 0 as real,
                c > 0 as real,
        ;
    }
    let r = val(rms_of(x, n));
    assert(r * r == m && r >= 0 as real);
    if r == 0 as real {
        assert(r * r == 0 as real) by (nonlinear_arith)
            requires
                r == 0 as real,
        ;
    }
}

/// A sum of squares, one of them not zero.
proof fn lemma_own_squares<R: Real>(val: spec_fn(R) -> real, x: Seq<R>, n: nat)
    requires
        ordered(val),
        n <= x.len(),
    ensures
        val(fsum(n, |j: int| rmul(x[j], x[j]))) >= 0 as real,
        forall|j: int|
            0 <= j < n && val(#[trigger] x[j]) != 0 as real ==> val(
                fsum(n, |j: int| rmul(x[j], x[j])),
            ) > 0 as real,
    decreases n,
{
    if n > 0 {
        lemma_own_squares(val, x, (n - 1) as nat);
        let v = val(x[n - 1]);
        assert(v * v >= 0 as real && (v != 0 as real ==> v * v > 0 as real)) by (nonlinear_arith);
    }
}

} // verus!
