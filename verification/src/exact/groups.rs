//! The scales that the super-block encoders fit, group by group.
//!
//! A fit is searched for, so what is said of it is what it has to be worth: no more is lost than by
//! dividing the range of the group evenly. The scales a block stores follow the fits of its own
//! groups to within a step of the block's scale.
use vstd::prelude::*;
use crate::arith::{Real, rabs, radd, rdiv, rhalf, rint, rmul, rneg, rround, rsub, rto_half};
use crate::blocks::Quantized;
use crate::exact::decode::{packed_min, packed_scale};
use crate::exact::encode::{half_holds_part, lemma_extreme_size, ranked, spans, tallest};
use crate::exact::fit::{level_at, miss, ordered, refining_never_hurts, squared_error};
use crate::exact::nearest::{encoded, lemma_quotient};
use crate::exact::numbers::{lemma_rsum_scale, rsum, size};
use crate::format::q3_k::{BlockQ3K, q3k_level};
use crate::format::q4_k::BlockQ4K;
use crate::format::q5_k::BlockQ5K;
use crate::format::q6_k::{BlockQ6K, q6k_fits, q6k_inverse};
use crate::kfit::{crest_level, crest_of, stage_levels};
use crate::scale::{
    Affine, affine_fit, clamped, committed, even_fit, extreme_of, floor_of, grid_step, grid_walk,
    highest, lowest, offset_error, offset_level, rms_of, signed_fit, signed_fit_levels,
    signed_level,
};

verus! {

/// A sum is no more than one whose every term is no less.
proof fn lemma_rsum_le(n: nat, f: spec_fn(int) -> real, g: spec_fn(int) -> real)
    requires
        forall|i: int| 0 <= i < n ==> #[trigger] f(i) <= g(i),
    ensures
        rsum(n, f) <= rsum(n, g),
    decreases n,
{
    if n > 0 {
        lemma_rsum_le((n - 1) as nat, f, g);
        assert(f(n - 1) <= g(n - 1));
    }
}

proof fn lemma_within(t: real, g: real)
    requires
        -1 as real <= g <= 1 as real,
    ensures
        size(t * g) <= size(t),
{
    if t >= 0 as real {
        assert(t * g <= t && -t <= t * g) by (nonlinear_arith)
            requires
                t >= 0 as real,
                -1 as real <= g <= 1 as real,
        ;
    } else {
        assert(t <= t * g && t * g <= -t) by (nonlinear_arith)
            requires
                t < 0 as real,
                -1 as real <= g <= 1 as real,
        ;
    }
}

proof fn lemma_squares_follow(e: real, t: real)
    requires
        size(e) <= size(t),
    ensures
        e * e <= t * t,
{
    let (a, b) = (size(e), size(t));
    assert(e * e == a * a) by (nonlinear_arith)
        requires
            a == e || a == -e,
    ;
    assert(t * t == b * b) by (nonlinear_arith)
        requires
            b == t || b == -t,
    ;
    assert(a * a <= b * b) by (nonlinear_arith)
        requires
            0 as real <= a <= b,
    ;
}

/// A value under an inverse scale that puts the extreme on the lowest code.
proof fn lemma_counts(n: int, inv: real, ext: real, v: real, t: real)
    requires
        1 <= n,
        inv * ext == -(n as real),
        t * inv == 1 as real,
        size(v) <= size(ext),
    ensures
        (n as real) * size(t) == size(ext),
        size(inv * v) <= n as real,
        t * (inv * v) == v,
        t != 0 as real,
{
    let (rn, q, u) = (n as real, inv * v, size(t));
    assert(t != 0 as real) by (nonlinear_arith)
        requires
            t * inv == 1 as real,
    ;
    assert(t * (inv * ext) == (t * inv) * ext) by (nonlinear_arith);
    assert((1 as real) * ext == ext) by (nonlinear_arith);
    assert(t * (-rn) == -(rn * t)) by (nonlinear_arith);
    assert(size(rn * t) == rn * u) by (nonlinear_arith)
        requires
            rn >= 1 as real,
            t >= 0 as real && u == t || t < 0 as real && u == -t,
    ;
    assert(t * (inv * v) == (t * inv) * v) by (nonlinear_arith);
    assert((1 as real) * v == v) by (nonlinear_arith);
    assert(q * t == t * q) by (nonlinear_arith);
    lemma_quotient(q, t, v, rn);
}

/// The nearest code, brought into range, reads back within a step; within half a step where the
/// range did not cut it.
proof fn lemma_even(n: int, inv: real, ext: real, v: real, r: int, t: real)
    requires
        1 <= n,
        inv * ext == -(n as real),
        t * inv == 1 as real,
        size(v) <= size(ext),
        -1 as real <= 2 as real * (r as real - inv * v) <= 1 as real,
    ensures
        -n <= r <= n,
        size(v - t * (clamped(r, -n, n - 1) as real)) <= size(t),
{
    lemma_counts(n, inv, ext, v, t);
    let (rn, q) = (n as real, inv * v);
    if r >= n + 1 {
        assert(r as real >= rn + 1 as real);
    }
    if r <= -n - 1 {
        assert(r as real <= -rn - 1 as real);
    }
    let l = clamped(r, -n, n - 1);
    let (rl, g) = (l as real, q - l as real);
    if r == n {
        assert(rl == rn - 1 as real && r as real == rn);
    }
    assert(-1 as real <= g <= 1 as real);
    lemma_within(t, g);
    assert(t * (q - rl) == t * q - t * rl) by (nonlinear_arith);
}

/// A fit of signed levels loses no more, weighed and squared, than a full step of the group's
/// largest magnitude divided by `nmax` would on every value.
pub proof fn signed_fit_loses_no_more_than_even_steps<R: Real>(
    val: spec_fn(R) -> real,
    nmax: int,
    x: Seq<R>,
    w: Seq<R>,
    m: real,
)
    requires
        ordered(val),
        1 <= nmax <= 64,
        0 < x.len() <= w.len(),
        forall|i: int| 0 <= i < x.len() ==> val(#[trigger] w[i]) > 0 as real,
        tallest(val, x, m),
        m > 0 as real,
    ensures
        ((nmax as real) * (nmax as real)) * squared_error(
            val,
            nmax,
            x,
            w,
            signed_fit_levels(nmax, x, w),
            val(signed_fit(nmax, x, w)),
        ) <= (m * m) * rsum(x.len(), |i: int| val(w[i])),
{
    let n = x.len();
    let at = choose|i: int| 0 <= i < x.len() && size(val(#[trigger] x[i])) == m;
    let ext = extreme_of(x, n);
    lemma_extreme_size(val, x, m);
    let inv = rdiv(rneg(rint::<R>(nmax as i32)), ext);
    let (vi, ve, rn) = (val(inv), val(ext), nmax as real);
    assert(vi * ve == -rn);
    assert(vi != 0 as real) by (nonlinear_arith)
        requires
            vi * ve == -rn,
            rn >= 1 as real,
    ;
    let t = val(rdiv(rint::<R>(1), inv));
    assert(t * vi == 1 as real);
    refining_never_hurts(val, nmax, x, w, at, t);
    let first = committed(nmax, x, w, inv);
    let tt = t * t;
    let wv = |i: int| val(w[i]);
    let f = |i: int| miss(val, nmax, x, w, first.ls, t, i);
    let g = |i: int| tt * wv(i);
    assert forall|i: int| 0 <= i < n implies #[trigger] f(i) <= g(i) by {
        let v = val(x[i]);
        assert(size(v) <= m);
        lemma_counts(nmax, vi, ve, v, t);
        let r = rround(rmul(inv, x[i])) as int;
        assert(val(rmul(inv, x[i])) == vi * v);
        lemma_even(nmax, vi, ve, v, r, t);
        let l = signed_level(nmax, inv, x[i]);
        assert(l == clamped(r, -nmax, nmax - 1));
        assert(first.ls[i] == l + nmax);
        assert(level_at(nmax, first.ls, i) == l);
        let e = v - t * (l as real);
        lemma_squares_follow(e, t);
        let (k, ee) = (wv(i), e * e);
        assert(k > 0 as real);
        assert(k * ee <= k * tt) by (nonlinear_arith)
            requires
                k > 0 as real,
                ee <= tt,
        ;
        assert(tt * k == k * tt) by (nonlinear_arith);
    }
    lemma_rsum_le(n, f, g);
    lemma_rsum_scale(n, tt, wv);
    let (err, even, total) = (
        squared_error(
            val,
            nmax,
            x,
            w,
            signed_fit_levels(nmax, x, w),
            val(signed_fit(nmax, x, w)),
        ),
        squared_error(val, nmax, x, w, first.ls, t),
        rsum(n, wv),
    );
    assert(even == rsum(n, f));
    assert(err <= tt * total);
    lemma_counts(nmax, vi, ve, val(x[at]), t);
    let (nn, u) = (rn * rn, size(t));
    assert(tt == u * u) by (nonlinear_arith)
        requires
            tt == t * t,
            u == t || u == -t,
    ;
    assert((rn * rn) * (u * u) == (rn * u) * (rn * u)) by (nonlinear_arith);
    assert(nn >= 0 as real) by (nonlinear_arith)
        requires
            nn == rn * rn,
    ;
    let bound = tt * total;
    assert(nn * err <= nn * bound) by (nonlinear_arith)
        requires
            nn >= 0 as real,
            err <= bound,
    ;
    assert(nn * (tt * total) == (nn * tt) * total) by (nonlinear_arith);
}

/// What each value of group `g` of sixteen counts for.
pub open spec fn weights16<R: Real>(x: Seq<R>, row: Option<Seq<R>>, g: int) -> Seq<R> {
    match row {
        Some(m) => m.subrange(16 * g, 16 * g + 16),
        None => Seq::new(
            16,
            |i: int| radd(rms_of(x.subrange(16 * g, 16 * g + 16), 16), rabs(x[16 * g + i])),
        ),
    }
}

/// q6_K: the scale stored for a group of sixteen is within a step of the fit of that group, a step
/// being the block's scale, of which 128 make the largest fit.
pub proof fn q6k_scales_follow_the_fits<R: Real>(
    val: spec_fn(R) -> real,
    x: Seq<R>,
    row: Option<Seq<R>>,
    b: BlockQ6K,
    fits: Seq<R>,
    f: real,
    g: int,
)
    requires
        ordered(val),
        x.len() == 256,
        row matches Some(w) ==> w.len() == 256,
        encoded::<R, BlockQ6K>(x, row, b),
        fits.len() == 16,
        forall|g: int|
            0 <= g < 16 ==> #[trigger] fits[g] == signed_fit(
                32,
                x.subrange(16 * g, 16 * g + 16),
                weights16(x, row, g),
            ),
        tallest(val, fits, f),
        f > 0 as real,
        half_holds_part(val, 128 as real, f),
        0 <= g < 16,
    ensures
        128 as real * size(val(rhalf::<R>(b.d))) == f,
        size(val(fits[g]) - val(rhalf::<R>(b.d)) * (b.scales@[g] as real)) <= size(
            val(rhalf::<R>(b.d)),
        ),
{
    assert forall|g: int| 0 <= g < 16 implies #[trigger] fits[g] == q6k_fits(x, row)[g] by {
        assert(weights16(x, row, g) =~= crate::format::q6_k::q6k_weight(x, row, g));
    }
    assert(fits =~= q6k_fits(x, row));
    let ext = extreme_of(fits, 16);
    lemma_extreme_size(val, fits, f);
    let inv = q6k_inverse(x, row);
    let (vi, ve) = (val(inv), val(ext));
    assert(vi * ve == -(128 as real));
    assert(vi != 0 as real) by (nonlinear_arith)
        requires
            vi * ve == -(128 as real),
    ;
    let d = rdiv(rint::<R>(1), inv);
    let t = val(d);
    assert(t * vi == 1 as real);
    let v = val(fits[g]);
    assert(size(v) <= f);
    lemma_counts(128, vi, ve, v, t);
    assert(val(rhalf::<R>(rto_half::<R>(d))) == t);
    let r = rround(rmul(inv, fits[g])) as int;
    assert(val(rmul(inv, fits[g])) == vi * v);
    lemma_even(128, vi, ve, v, r, t);
    assert(b.scales@[g] == crate::format::q6_k::q6k_scale(x, row, g));
    assert(b.scales@[g] as int == clamped(r, -128, 127));
}

/// q3_K without importances: likewise, in six bits, thirty-two making the largest fit.
pub proof fn q3k_scales_follow_the_fits<R: Real>(
    val: spec_fn(R) -> real,
    x: Seq<R>,
    b: BlockQ3K,
    fits: Seq<R>,
    f: real,
    g: int,
)
    requires
        ordered(val),
        x.len() == 256,
        <BlockQ3K as Quantized<R>>::encodes(x, b),
        fits.len() == 16,
        forall|g: int|
            0 <= g < 16 ==> #[trigger] fits[g] == signed_fit(
                4,
                x.subrange(16 * g, 16 * g + 16),
                weights16(x, None, g),
            ),
        tallest(val, fits, f),
        f > 0 as real,
        half_holds_part(val, 32 as real, f),
        0 <= g < 16,
    ensures
        32 as real * size(val(rhalf::<R>(b.d))) == f,
        size(
            val(fits[g]) - val(rhalf::<R>(b.d)) * ((crate::exact::decode::six_bit_scale(b.scales@, g)
                - 32) as real),
        ) <= size(val(rhalf::<R>(b.d))),
{
    let none = None::<Seq<R>>;
    assert forall|g: int| 0 <= g < 16 implies #[trigger] fits[g]
        == crate::format::q3_k::q3k_fits(x, none)[g] by {
        assert(weights16(x, none, g) =~= crate::kfit::group_weight(
            x,
            none,
            16,
            crate::format::q4_k::variance_floor(x),
            g,
        ));
    }
    assert(fits =~= crate::format::q3_k::q3k_fits(x, none));
    let ext = extreme_of(fits, 16);
    lemma_extreme_size(val, fits, f);
    let inv = rdiv(rneg(rint::<R>(32)), ext);
    let (vi, ve) = (val(inv), val(ext));
    assert(vi * ve == -(32 as real));
    assert(vi != 0 as real) by (nonlinear_arith)
        requires
            vi * ve == -(32 as real),
    ;
    let d = rdiv(rint::<R>(1), inv);
    let t = val(d);
    assert(t * vi == 1 as real);
    let v = val(fits[g]);
    assert(size(v) <= f);
    lemma_counts(32, vi, ve, v, t);
    assert(val(rhalf::<R>(rto_half::<R>(d))) == t);
    let r = rround(rmul(inv, fits[g])) as int;
    assert(val(rmul(inv, fits[g])) == vi * v);
    lemma_even(32, vi, ve, v, r, t);
    assert(q3k_level(b.scales@, g) == clamped(r, -32, 31) + 32);
    assert(crate::exact::decode::six_bit_scale(b.scales@, g) == q3k_level(b.scales@, g));
}

// -- scales with a minimum --

/// `w * (d * l - mn - x)^2`.
pub open spec fn affine_miss<R: Real>(
    val: spec_fn(R) -> real,
    x: Seq<R>,
    w: Seq<R>,
    ls: Seq<int>,
    d: real,
    mn: real,
    i: int,
) -> real {
    let e = (d * (ls[i] as real) - mn) - val(x[i]);
    val(w[i]) * (e * e)
}

/// Levels in `0..=nmax` under the step `d` above `-mn` lose no more, weighed and squared, than half a
/// step of `span / nmax` would on every value.
pub open spec fn levels_lose<R: Real>(
    val: spec_fn(R) -> real,
    nmax: int,
    x: Seq<R>,
    w: Seq<R>,
    ls: Seq<int>,
    d: real,
    mn: real,
    span: real,
) -> bool {
    &&& ls.len() == x.len()
    &&& forall|i: int| 0 <= i < x.len() ==> 0 <= #[trigger] ls[i] <= nmax
    &&& (4 as real * ((nmax as real) * (nmax as real))) * rsum(
        x.len(),
        |i: int| affine_miss(val, x, w, ls, d, mn, i),
    ) <= (span * span) * rsum(x.len(), |i: int| val(w[i]))
}

/// The levels taken from `per_unit` above `from`.
spec fn taken_levels<R: Real>(nmax: int, x: Seq<R>, per_unit: R, from: R) -> Seq<int> {
    Seq::new(x.len(), |i: int| offset_level(nmax, per_unit, from, x[i]))
}

proof fn lemma_offset_error<R: Real>(
    val: spec_fn(R) -> real,
    nmax: int,
    x: Seq<R>,
    w: Seq<R>,
    per_unit: R,
    from: R,
    scale: R,
    offset: R,
    n: nat,
)
    requires
        ordered(val),
        0 <= nmax <= 255,
        n <= x.len(),
    ensures
        val(offset_error(nmax, x, w, per_unit, from, scale, offset, n)) == rsum(
            n,
            |i: int|
                affine_miss(
                    val,
                    x,
                    w,
                    taken_levels(nmax, x, per_unit, from),
                    val(scale),
                    -val(offset),
                    i,
                ),
        ),
    decreases n,
{
    if n > 0 {
        lemma_offset_error(val, nmax, x, w, per_unit, from, scale, offset, (n - 1) as nat);
        let l = offset_level(nmax, per_unit, from, x[n - 1]);
        assert(taken_levels(nmax, x, per_unit, from)[n - 1] == l);
        assert(0 <= l <= nmax);
        let (k, e) = (
            val(w[n - 1]),
            (val(scale) * (l as real) + val(offset)) - val(x[n - 1]),
        );
        assert((k * e) * e == k * (e * e)) by (nonlinear_arith);
    }
}

/// What the walk keeps: an error that is the error of some levels, and no more than the first.
spec fn walked<R: Real>(
    val: spec_fn(R) -> real,
    nmax: int,
    x: Seq<R>,
    w: Seq<R>,
    s: Affine<R>,
    ls: Seq<int>,
    first: real,
) -> bool {
    &&& ls.len() == x.len()
    &&& forall|i: int| 0 <= i < x.len() ==> 0 <= #[trigger] ls[i] <= nmax
    &&& val(s.error) == rsum(
        x.len(),
        |i: int| affine_miss(val, x, w, ls, val(s.scale), -val(s.offset), i),
    )
    &&& val(s.error) <= first
}

proof fn lemma_walk<R: Real>(
    val: spec_fn(R) -> real,
    nmax: int,
    x: Seq<R>,
    w: Seq<R>,
    top: R,
    s: Affine<R>,
    ls: Seq<int>,
    first: real,
    k: nat,
) -> (out: Seq<int>)
    requires
        ordered(val),
        0 <= nmax <= 255,
        walked(val, nmax, x, w, s, ls, first),
    ensures
        walked(val, nmax, x, w, grid_walk(nmax, x, w, top, s, k), out, first),
    decreases k,
{
    if k == 0 {
        ls
    } else {
        let was = grid_walk(nmax, x, w, top, s, (k - 1) as nat);
        let held = lemma_walk(val, nmax, x, w, top, s, ls, first, (k - 1) as nat);
        let now = grid_step(nmax, x, w, top, was, k - 1);
        let per_unit = rdiv(
            crate::scale::grid_unit::<R>(nmax, k - 1),
            rsub(top, was.offset),
        );
        lemma_offset_error(
            val,
            nmax,
            x,
            w,
            per_unit,
            was.offset,
            now.scale,
            now.offset,
            x.len(),
        );
        let fresh = taken_levels(nmax, x, per_unit, was.offset);
        if now == was {
            held
        } else {
            assert(now.error == offset_error(
                nmax,
                x,
                w,
                per_unit,
                was.offset,
                now.scale,
                now.offset,
                x.len(),
            ));
            assert(val(now.error) < val(was.error));
            fresh
        }
    }
}

proof fn lemma_bounds<R: Real>(val: spec_fn(R) -> real, x: Seq<R>, n: nat)
    requires
        ordered(val),
        n < x.len(),
    ensures
        forall|i: int|
            0 <= i <= n ==> val(lowest(x, n)) <= val(#[trigger] x[i]) <= val(highest(x, n)),
        exists|i: int| 0 <= i <= n && #[trigger] x[i] == lowest(x, n),
        exists|i: int| 0 <= i <= n && #[trigger] x[i] == highest(x, n),
    decreases n,
{
    if n == 0 {
        assert(x[0] == lowest(x, n) && x[0] == highest(x, n));
    } else {
        let k = (n - 1) as nat;
        lemma_bounds(val, x, k);
        let (a, b) = (
            choose|i: int| 0 <= i <= k && #[trigger] x[i] == lowest(x, k),
            choose|i: int| 0 <= i <= k && #[trigger] x[i] == highest(x, k),
        );
        assert(x[a] == lowest(x, k) && x[b] == highest(x, k));
        assert(x[n as int] == x[n as int]);
    }
}

/// The even division reads every value back within half a step.
proof fn lemma_half_step(nmax: int, pu: real, span: real, scale: real, y: real, r: int)
    requires
        1 <= nmax,
        pu * span == nmax as real,
        scale * pu == 1 as real,
        span > 0 as real,
        0 as real <= y <= span,
        -1 as real <= 2 as real * (r as real - pu * y) <= 1 as real,
    ensures
        0 <= r <= nmax,
        size(2 as real * (scale * (r as real) - y)) <= size(scale),
{
    lemma_unit(nmax, pu, span, scale, y);
    let (q, rn) = (pu * y, nmax as real);
    if r >= nmax + 1 {
        assert(r as real >= rn + 1 as real);
    }
    if r <= -1 {
        assert(r as real <= -1 as real);
    }
    let g = 2 as real * (r as real - q);
    lemma_within(scale, g);
    let (rr, two, z) = (r as real, 2 as real, r as real - q);
    assert(scale * (two * z) == two * (scale * z)) by (nonlinear_arith);
    assert(scale * (rr - q) == scale * rr - scale * q) by (nonlinear_arith);
}

proof fn lemma_unit(nmax: int, pu: real, span: real, scale: real, y: real)
    requires
        1 <= nmax,
        pu * span == nmax as real,
        scale * pu == 1 as real,
        span > 0 as real,
        0 as real <= y <= span,
    ensures
        0 as real <= pu * y <= nmax as real,
        scale * (pu * y) == y,
        (nmax as real) * scale == span,
{
    let rn = nmax as real;
    assert(pu > 0 as real) by (nonlinear_arith)
        requires
            pu * span == rn,
            rn >= 1 as real,
            span > 0 as real,
    ;
    assert(0 as real <= pu * y && pu * y <= pu * span) by (nonlinear_arith)
        requires
            pu > 0 as real,
            0 as real <= y <= span,
    ;
    assert(scale * (pu * y) == (scale * pu) * y) by (nonlinear_arith);
    assert((1 as real) * y == y) by (nonlinear_arith);
    assert(scale * (pu * span) == (scale * pu) * span) by (nonlinear_arith);
    assert((1 as real) * span == span) by (nonlinear_arith);
    assert(scale * rn == rn * scale) by (nonlinear_arith);
}

/// The minimum of a range and of zero.
pub open spec fn at_most_zero(lo: real) -> real {
    if lo < (0 as real) {
        lo
    } else {
        0 as real
    }
}

/// A fit of levels above a minimum loses no more, weighed and squared, than half a step on every
/// value would, where `nmax` steps make the range of the group and of zero below it.
pub proof fn affine_fit_loses_no_more_than_even_steps<R: Real>(
    val: spec_fn(R) -> real,
    nmax: int,
    x: Seq<R>,
    w: Seq<R>,
    lo: real,
    hi: real,
)
    requires
        ordered(val),
        1 <= nmax <= 63,
        0 < x.len() <= w.len(),
        forall|i: int| 0 <= i < x.len() ==> val(#[trigger] w[i]) > 0 as real,
        spans(val, x, lo, hi),
        lo < hi,
        hi > 0 as real,
    ensures
        exists|ls: Seq<int>| #[trigger]
            levels_lose(
                val,
                nmax,
                x,
                w,
                ls,
                val(affine_fit(nmax, x, w).0),
                val(affine_fit(nmax, x, w).1),
                hi - at_most_zero(lo),
            ),
{
    let n = x.len();
    let base = at_most_zero(lo);
    let span = hi - base;
    lemma_bounds(val, x, (n - 1) as nat);
    let (low, top) = (lowest(x, (n - 1) as nat), highest(x, (n - 1) as nat));
    let (il, ih) = (
        choose|i: int| 0 <= i < x.len() && val(#[trigger] x[i]) == lo,
        choose|i: int| 0 <= i < x.len() && val(#[trigger] x[i]) == hi,
    );
    assert(val(low) <= val(x[il]) && val(x[ih]) <= val(top));
    assert(val(low) == lo && val(top) == hi);
    let off = floor_of(x);
    assert(val(off) == base);
    let pu = rdiv(rint::<R>(nmax as i32), rsub(top, off));
    let scale = rdiv(rint::<R>(1), pu);
    let (vp, vs, rn) = (val(pu), val(scale), nmax as real);
    assert(vp * span == rn);
    assert(vp != 0 as real) by (nonlinear_arith)
        requires
            vp * span == rn,
            rn >= 1 as real,
    ;
    assert(vs * vp == 1 as real);
    let even = even_fit(nmax, x, w);
    let ls = taken_levels(nmax, x, pu, off);
    lemma_offset_error(val, nmax, x, w, pu, off, scale, off, n);
    let first = val(even.error);
    assert(walked(val, nmax, x, w, even, ls, first));
    let out = lemma_walk(val, nmax, x, w, top, even, ls, first, 37);
    let end = grid_walk(nmax, x, w, top, even, 37);
    assert(affine_fit(nmax, x, w) == (end.scale, rneg(end.offset)));
    let ss = vs * vs;
    let wv = |i: int| val(w[i]);
    let four = 4 as real;
    let f = |i: int| affine_miss(val, x, w, ls, vs, -base, i);
    let f4 = |i: int| four * f(i);
    let g = |i: int| ss * wv(i);
    assert forall|i: int| 0 <= i < n implies #[trigger] f4(i) <= g(i) by {
        let y = val(x[i]) - base;
        assert(val(low) <= val(x[i]) <= val(top));
        lemma_unit(nmax, vp, span, vs, y);
        let d = rmul(pu, rsub(x[i], off));
        assert(val(d) == vp * y);
        let r = rround(d) as int;
        lemma_half_step(nmax, vp, span, vs, y, r);
        assert(ls[i] == r);
        let rr = r as real;
        let e = (vs * rr - (-base)) - val(x[i]);
        assert(e == vs * rr - y);
        let e2 = 2 as real * e;
        lemma_squares_follow(e2, vs);
        assert(e2 * e2 == four * (e * e)) by (nonlinear_arith)
            requires
                e2 == 2 as real * e,
                four == 4 as real,
        ;
        let (k, ee) = (wv(i), e * e);
        assert(k > 0 as real);
        let ee4 = four * ee;
        assert(k * ee4 <= k * ss) by (nonlinear_arith)
            requires
                k > 0 as real,
                ee4 <= ss,
        ;
        assert(four * (k * ee) == k * (four * ee)) by (nonlinear_arith);
        assert(ss * k == k * ss) by (nonlinear_arith);
    }
    lemma_rsum_le(n, f4, g);
    lemma_rsum_scale(n, four, f);
    lemma_rsum_scale(n, ss, wv);
    lemma_unit(nmax, vp, span, vs, span);
    let (err, total) = (val(end.error), rsum(n, wv));
    assert(first == rsum(n, f));
    assert(four * err <= ss * total);
    let nn = rn * rn;
    assert((rn * rn) * (vs * vs) == (rn * vs) * (rn * vs)) by (nonlinear_arith);
    let (a, c) = (four * err, ss * total);
    assert(nn >= 0 as real) by (nonlinear_arith)
        requires
            nn == rn * rn,
    ;
    assert(nn * a <= nn * c) by (nonlinear_arith)
        requires
            nn >= 0 as real,
            a <= c,
    ;
    assert((four * nn) * err == nn * (four * err)) by (nonlinear_arith);
    assert(nn * (ss * total) == (nn * ss) * total) by (nonlinear_arith);
    assert(levels_lose(val, nmax, x, w, out, val(end.scale), -val(end.offset), span));
    let fit = affine_fit(nmax, x, w);
    assert(val(fit.1) == -val(end.offset));
    assert(levels_lose(val, nmax, x, w, out, val(fit.0), val(fit.1), hi - at_most_zero(lo)));
}

// -- the scales of groups with a minimum, without importances --

/// What each value of group `g` of `n` counts for.
pub open spec fn magnitudes<R: Real>(x: Seq<R>, n: int, g: int) -> Seq<R> {
    Seq::new(
        n as nat,
        |i: int| radd(rms_of(x.subrange(n * g, n * g + n), n as nat), rabs(x[n * g + i])),
    )
}

/// None of the values is negative, and the largest is `f`.
pub open spec fn rises_to<R: Real>(val: spec_fn(R) -> real, fits: Seq<R>, f: real) -> bool {
    &&& forall|i: int| 0 <= i < fits.len() ==> 0 as real <= val(#[trigger] fits[i]) <= f
    &&& exists|i: int| 0 <= i < fits.len() && val(#[trigger] fits[i]) == f
}

proof fn lemma_crest<R: Real>(val: spec_fn(R) -> real, fits: Seq<R>, f: real, n: nat)
    requires
        ranked(val),
        n <= fits.len(),
        forall|i: int| 0 <= i < fits.len() ==> 0 as real <= val(#[trigger] fits[i]) <= f,
        f >= 0 as real,
    ensures
        0 as real <= val(crest_of(fits, n)) <= f,
        forall|i: int| 0 <= i < n ==> val(#[trigger] fits[i]) <= val(crest_of(fits, n)),
    decreases n,
{
    if n > 0 {
        lemma_crest(val, fits, f, (n - 1) as nat);
        assert(val(fits[n - 1]) <= f);
    }
}

/// The second stage: codes in `0..=top`, `top` steps making the largest, each within half a step.
proof fn lemma_stage<R: Real>(val: spec_fn(R) -> real, top: u8, fits: Seq<R>, f: real, g: int)
    requires
        ranked(val),
        1 <= top <= 63,
        rises_to(val, fits, f),
        f > 0 as real,
        0 <= g < fits.len(),
    ensures
        ({
            let s = stage_levels(top, fits, None::<Seq<R>>);
            &&& (top as real) * size(val(s.0)) == f
            &&& val(s.0) > 0 as real
            &&& s.1.len() == fits.len()
            &&& 0 <= s.1[g] <= top
            &&& size(2 as real * (val(s.0) * (s.1[g] as real) - val(fits[g]))) <= size(val(s.0))
        }),
{
    let s = stage_levels(top, fits, None::<Seq<R>>);
    let crest = crest_of(fits, fits.len());
    lemma_crest(val, fits, f, fits.len());
    let at = choose|i: int| 0 <= i < fits.len() && val(#[trigger] fits[i]) == f;
    assert(val(fits[at]) <= val(crest));
    assert(val(crest) == f);
    let (rt, d) = (top as real, val(s.0));
    assert(d * rt == f);
    let inv = rdiv(rint::<R>(top as i32), crest);
    let vi = val(inv);
    assert(vi * f == rt);
    assert(d * rt == rt * d) by (nonlinear_arith);
    assert(d > 0 as real) by (nonlinear_arith)
        requires
            d * rt == f,
            f > 0 as real,
            rt >= 1 as real,
    ;
    assert(vi * (d * rt) == rt * (d * vi)) by (nonlinear_arith);
    let p = d * vi;
    assert(p == 1 as real) by (nonlinear_arith)
        requires
            rt * p == rt,
            rt >= 1 as real,
    ;
    let v = val(fits[g]);
    assert(0 as real <= v <= f);
    lemma_unit(top as int, vi, f, d, v);
    let r = rround(rmul(inv, fits[g])) as int;
    assert(val(rmul(inv, fits[g])) == vi * v);
    lemma_half_step(top as int, vi, f, d, v, r);
    assert(s.1[g] == crest_level(top, fits[g], crest));
    assert(s.1[g] as int == r);
}

/// q4_K without importances: the scale stored for a group of thirty-two is within half a step of
/// the fit of that group, sixty-three steps making the largest.
pub proof fn q4k_scales_follow_the_fits<R: Real>(
    val: spec_fn(R) -> real,
    x: Seq<R>,
    b: BlockQ4K,
    fits: Seq<R>,
    f: real,
    g: int,
)
    requires
        ranked(val),
        x.len() == 256,
        <BlockQ4K as Quantized<R>>::encodes(x, b),
        fits.len() == 8,
        forall|g: int|
            0 <= g < 8 ==> #[trigger] fits[g] == affine_fit(
                15,
                x.subrange(32 * g, 32 * g + 32),
                magnitudes(x, 32, g),
            ).0,
        rises_to(val, fits, f),
        f > 0 as real,
        half_holds_part(val, 63 as real, f),
        0 <= g < 8,
    ensures
        63 as real * size(val(rhalf::<R>(b.d))) == f,
        size(
            2 as real * (val(rhalf::<R>(b.d)) * (packed_scale(b.scales@, g) as real) - val(fits[g])),
        ) <= size(val(rhalf::<R>(b.d))),
{
    let none = None::<Seq<R>>;
    let v = crate::format::q4_k::variance_floor(x);
    let all = crate::kfit::stage_scales(x, none, 32, 15, v, 8);
    assert forall|g: int| 0 <= g < 8 implies #[trigger] fits[g] == all[g] by {
        assert(magnitudes(x, 32, g) =~= crate::kfit::group_weight(x, none, 32, v, g));
    }
    assert(fits =~= all);
    lemma_stage(val, 63, fits, f, g);
    let sc = crate::format::q4_k::six_bit_scales(x, none, 15);
    let mn = crate::format::q4_k::six_bit_mins(x, none, 15);
    assert(sc.1.len() == 8 && mn.1.len() == 8);
    crate::blocks::kquant_unpack_of_pack(sc.1, mn.1, b.scales@);
    crate::exact::decode::lemma_packed(b.scales@, g);
    let d = sc.0;
    assert(val(rhalf::<R>(rto_half::<R>(d))) == val(d));
}

/// q4_K without importances: the minimum stored for a group of thirty-two is within half a step of
/// the fit of that group, sixty-three steps making the largest.
pub proof fn q4k_mins_follow_the_fits<R: Real>(
    val: spec_fn(R) -> real,
    x: Seq<R>,
    b: BlockQ4K,
    fits: Seq<R>,
    f: real,
    g: int,
)
    requires
        ranked(val),
        x.len() == 256,
        <BlockQ4K as Quantized<R>>::encodes(x, b),
        fits.len() == 8,
        forall|g: int|
            0 <= g < 8 ==> #[trigger] fits[g] == affine_fit(
                15,
                x.subrange(32 * g, 32 * g + 32),
                magnitudes(x, 32, g),
            ).1,
        rises_to(val, fits, f),
        f > 0 as real,
        half_holds_part(val, 63 as real, f),
        0 <= g < 8,
    ensures
        63 as real * size(val(rhalf::<R>(b.dmin))) == f,
        size(
            2 as real * (val(rhalf::<R>(b.dmin)) * (packed_min(b.scales@, g) as real) - val(fits[g])),
        ) <= size(val(rhalf::<R>(b.dmin))),
{
    let none = None::<Seq<R>>;
    let v = crate::format::q4_k::variance_floor(x);
    let all = crate::kfit::stage_mins(x, none, 32, 15, v, 8);
    assert forall|g: int| 0 <= g < 8 implies #[trigger] fits[g] == all[g] by {
        assert(magnitudes(x, 32, g) =~= crate::kfit::group_weight(x, none, 32, v, g));
    }
    assert(fits =~= all);
    lemma_stage(val, 63, fits, f, g);
    let sc = crate::format::q4_k::six_bit_scales(x, none, 15);
    let mn = crate::format::q4_k::six_bit_mins(x, none, 15);
    assert(sc.1.len() == 8 && mn.1.len() == 8);
    crate::blocks::kquant_unpack_of_pack(sc.1, mn.1, b.scales@);
    crate::exact::decode::lemma_packed(b.scales@, g);
    let d = mn.0;
    assert(val(rhalf::<R>(rto_half::<R>(d))) == val(d));
}

/// q5_K without importances: the scale stored for a group of thirty-two is within half a step of
/// the fit of that group, sixty-three steps making the largest.
pub proof fn q5k_scales_follow_the_fits<R: Real>(
    val: spec_fn(R) -> real,
    x: Seq<R>,
    b: BlockQ5K,
    fits: Seq<R>,
    f: real,
    g: int,
)
    requires
        ranked(val),
        x.len() == 256,
        <BlockQ5K as Quantized<R>>::encodes(x, b),
        fits.len() == 8,
        forall|g: int|
            0 <= g < 8 ==> #[trigger] fits[g] == affine_fit(
                31,
                x.subrange(32 * g, 32 * g + 32),
                magnitudes(x, 32, g),
            ).0,
        rises_to(val, fits, f),
        f > 0 as real,
        half_holds_part(val, 63 as real, f),
        0 <= g < 8,
    ensures
        63 as real * size(val(rhalf::<R>(b.d))) == f,
        size(
            2 as real * (val(rhalf::<R>(b.d)) * (packed_scale(b.scales@, g) as real) - val(fits[g])),
        ) <= size(val(rhalf::<R>(b.d))),
{
    let none = None::<Seq<R>>;
    let v = crate::format::q4_k::variance_floor(x);
    let all = crate::kfit::stage_scales(x, none, 32, 31, v, 8);
    assert forall|g: int| 0 <= g < 8 implies #[trigger] fits[g] == all[g] by {
        assert(magnitudes(x, 32, g) =~= crate::kfit::group_weight(x, none, 32, v, g));
    }
    assert(fits =~= all);
    lemma_stage(val, 63, fits, f, g);
    let sc = crate::format::q4_k::six_bit_scales(x, none, 31);
    let mn = crate::format::q4_k::six_bit_mins(x, none, 31);
    assert(sc.1.len() == 8 && mn.1.len() == 8);
    crate::blocks::kquant_unpack_of_pack(sc.1, mn.1, b.scales@);
    crate::exact::decode::lemma_packed(b.scales@, g);
    let d = sc.0;
    assert(val(rhalf::<R>(rto_half::<R>(d))) == val(d));
}

/// q5_K without importances: the minimum stored for a group of thirty-two is within half a step of
/// the fit of that group, sixty-three steps making the largest.
pub proof fn q5k_mins_follow_the_fits<R: Real>(
    val: spec_fn(R) -> real,
    x: Seq<R>,
    b: BlockQ5K,
    fits: Seq<R>,
    f: real,
    g: int,
)
    requires
        ranked(val),
        x.len() == 256,
        <BlockQ5K as Quantized<R>>::encodes(x, b),
        fits.len() == 8,
        forall|g: int|
            0 <= g < 8 ==> #[trigger] fits[g] == affine_fit(
                31,
                x.subrange(32 * g, 32 * g + 32),
                magnitudes(x, 32, g),
            ).1,
        rises_to(val, fits, f),
        f > 0 as real,
        half_holds_part(val, 63 as real, f),
        0 <= g < 8,
    ensures
        63 as real * size(val(rhalf::<R>(b.dmin))) == f,
        size(
            2 as real * (val(rhalf::<R>(b.dmin)) * (packed_min(b.scales@, g) as real) - val(fits[g])),
        ) <= size(val(rhalf::<R>(b.dmin))),
{
    let none = None::<Seq<R>>;
    let v = crate::format::q4_k::variance_floor(x);
    let all = crate::kfit::stage_mins(x, none, 32, 31, v, 8);
    assert forall|g: int| 0 <= g < 8 implies #[trigger] fits[g] == all[g] by {
        assert(magnitudes(x, 32, g) =~= crate::kfit::group_weight(x, none, 32, v, g));
    }
    assert(fits =~= all);
    lemma_stage(val, 63, fits, f, g);
    let sc = crate::format::q4_k::six_bit_scales(x, none, 31);
    let mn = crate::format::q4_k::six_bit_mins(x, none, 31);
    assert(sc.1.len() == 8 && mn.1.len() == 8);
    crate::blocks::kquant_unpack_of_pack(sc.1, mn.1, b.scales@);
    crate::exact::decode::lemma_packed(b.scales@, g);
    let d = mn.0;
    assert(val(rhalf::<R>(rto_half::<R>(d))) == val(d));
}

} // verus!
