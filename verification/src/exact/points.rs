//! The grid points that the grid format's encoder picks.
use vstd::prelude::*;
use crate::arith::{Real, rabs, rbits, rhalf, rinf, rint, rmul};
use crate::blocks::Quantized;
use crate::exact::fit::ordered;
use crate::exact::iq2::{lemma_grid_small, lemma_value};
use crate::exact::nearest::encoded;
use crate::exact::numbers::{
    lemma_fsum_val, lemma_rsum_eq, lemma_rsum_plus, lemma_rsum_scale, rsum, size,
};
use crate::format::iq2_xxs::{
    BlockIq2Xxs, best_of, grid_of, index_of, iq_weight, level_of, point_dot, point_error,
    point_square, signed_point, sub_factor, sub_step,
};

verus! {

/// What value `e` counts for: its importance, or one.
pub open spec fn counted<R: Real>(val: spec_fn(R) -> real, row: Option<Seq<R>>, e: int) -> real {
    match row {
        Some(w) => val(w[e]),
        None => 1 as real,
    }
}

/// What a block loses of the magnitudes of group `g` of eight, weighed and squared.
pub open spec fn group_loss<R: Real>(
    val: spec_fn(R) -> real,
    x: Seq<R>,
    row: Option<Seq<R>>,
    b: BlockIq2Xxs,
    g: int,
) -> real {
    rsum(
        8,
        |k: int|
            counted(val, row, 8 * g + k) * ((size(val(x[8 * g + k])) - size(
                val(<BlockIq2Xxs as Quantized<R>>::value(b, 8 * g + k)),
            )) * (size(val(x[8 * g + k])) - size(
                val(<BlockIq2Xxs as Quantized<R>>::value(b, 8 * g + k)),
            ))),
    )
}

/// The magnitudes of group `g` of eight, weighed and squared.
pub open spec fn group_square<R: Real>(
    val: spec_fn(R) -> real,
    x: Seq<R>,
    row: Option<Seq<R>>,
    g: int,
) -> real {
    rsum(
        8,
        |k: int|
            (counted(val, row, 8 * g + k) * size(val(x[8 * g + k]))) * size(val(x[8 * g + k])),
    )
}

proof fn lemma_term(w: real, a: real, p: real, t: real)
    ensures
        w * ((a - t * p) * (a - t * p)) == (w * a) * a + ((t * t) * ((w * p) * p) + (-(2 as real * t))
            * ((w * a) * p)),
{
    let (z, two) = (t * p, 2 as real);
    let (aa, az, zz) = (a * a, a * z, z * z);
    assert((a - z) * (a - z) == aa - two * az + zz) by (nonlinear_arith)
        requires
            aa == a * a,
            az == a * z,
            zz == z * z,
            two == 2 as real,
    ;
    assert(w * (aa - two * az + zz) == w * aa - two * (w * az) + w * zz) by (nonlinear_arith)
        requires
            two == 2 as real,
    ;
    assert(w * (a * a) == (w * a) * a) by (nonlinear_arith);
    assert(w * ((t * p) * (t * p)) == (t * t) * ((w * p) * p)) by (nonlinear_arith);
    assert(w * (a * (t * p)) == t * ((w * a) * p)) by (nonlinear_arith);
    let c = (w * a) * p;
    assert((-(two * t)) * c == -(two * (t * c))) by (nonlinear_arith);
}

proof fn lemma_loss(
    w: spec_fn(int) -> real,
    a: spec_fn(int) -> real,
    p: spec_fn(int) -> real,
    t: real,
)
    ensures
        rsum(8, |k: int| w(k) * ((a(k) - t * p(k)) * (a(k) - t * p(k)))) == rsum(
            8,
            |k: int| (w(k) * a(k)) * a(k),
        ) + ((t * t) * rsum(8, |k: int| (w(k) * p(k)) * p(k)) + (-(2 as real * t)) * rsum(
            8,
            |k: int| (w(k) * a(k)) * p(k),
        )),
{
    let left = |k: int| w(k) * ((a(k) - t * p(k)) * (a(k) - t * p(k)));
    let (fa, fp, fd) = (
        |k: int| (w(k) * a(k)) * a(k),
        |k: int| (w(k) * p(k)) * p(k),
        |k: int| (w(k) * a(k)) * p(k),
    );
    let (kp, kd) = (t * t, -(2 as real * t));
    let (gp, gd) = (|k: int| kp * fp(k), |k: int| kd * fd(k));
    lemma_rsum_scale(8, kp, fp);
    lemma_rsum_scale(8, kd, fd);
    lemma_rsum_plus(8, gp, gd);
    let gs = |k: int| gp(k) + gd(k);
    lemma_rsum_plus(8, fa, gs);
    let right = |k: int| fa(k) + gs(k);
    assert forall|k: int| 0 <= k < 8 implies #[trigger] left(k) == right(k) by {
        lemma_term(w(k), a(k), p(k), t);
    }
    lemma_rsum_eq(8, left, right);
}

/// The search keeps the least it met, and the point that gave it.
proof fn lemma_best<R: Real>(
    val: spec_fn(R) -> real,
    x: Seq<R>,
    row: Option<Seq<R>>,
    g: int,
    scale: R,
    n: nat,
    c: int,
)
    requires
        ordered(val),
    ensures
        ({
            let best = best_of(x, row, g, scale, n);
            let e = |m: int| point_error(point_dot(x, row, g, m), point_square(row, g, m), scale);
            &&& 0 <= c < n ==> val(best.0) <= val(e(c))
            &&& val(best.0) <= val(rinf::<R>())
            &&& val(best.0) < val(rinf::<R>()) ==> 0 <= best.1 < n && best.0 == e(best.1)
        }),
    decreases n,
{
    if n > 0 {
        lemma_best(val, x, row, g, scale, (n - 1) as nat, c);
    }
}

/// What a block loses of a group is the group's own square and what the search measures of the
/// block's point.
proof fn lemma_group<R: Real>(
    val: spec_fn(R) -> real,
    x: Seq<R>,
    row: Option<Seq<R>>,
    b: BlockIq2Xxs,
    g: int,
    step: R,
)
    requires
        ordered(val),
        0 <= g < 32,
        step == sub_step(rhalf::<R>(b.d), level_of(b.qs@, g / 4)),
        val(step) >= 0 as real,
    ensures
        ({
            let n = index_of(b.qs@, g / 4, g % 4);
            group_loss(val, x, row, b, g) == group_square(val, x, row, g) + val(
                point_error(point_dot(x, row, g, n), point_square(row, g, n), step),
            )
        }),
{
    let (s, l) = (g / 4, g % 4);
    let n = index_of(b.qs@, s, l);
    let t = val(step);
    let w = |k: int| counted(val, row, 8 * g + k);
    let a = |k: int| size(val(x[8 * g + k]));
    let p = |k: int| grid_of(n, k) as real;
    lemma_loss(w, a, p, t);
    let loss = |k: int|
        counted(val, row, 8 * g + k) * ((size(val(x[8 * g + k])) - size(
            val(<BlockIq2Xxs as Quantized<R>>::value(b, 8 * g + k)),
        )) * (size(val(x[8 * g + k])) - size(
            val(<BlockIq2Xxs as Quantized<R>>::value(b, 8 * g + k)),
        )));
    let want = |k: int| w(k) * ((a(k) - t * p(k)) * (a(k) - t * p(k)));
    assert forall|k: int| 0 <= k < 8 implies #[trigger] loss(k) == want(k) by {
        let e = 8 * g + k;
        assert(e / 32 == s && (e % 32) / 8 == l && e % 8 == k);
        lemma_grid_small(n, k);
        lemma_value::<R>(val, b, e);
        let (d, f) = (val(rhalf::<R>(b.d)), val(sub_factor::<R>(level_of(b.qs@, s))));
        lemma_step::<R>(val, b, s);
        assert(t == d * f);
        let gp = p(k);
        let sp = signed_point(b.qs@, e) as real;
        assert(sp == gp || sp == -gp);
        assert(t * (-gp) == -(t * gp)) by (nonlinear_arith);
        assert(t * gp >= 0 as real) by (nonlinear_arith)
            requires
                t >= 0 as real,
                gp >= 0 as real,
        ;
    }
    lemma_rsum_eq(8, loss, want);
    let (fd, fs) = (
        |k: int|
            rmul(
                rmul(iq_weight(row, 8 * g + k), rabs(x[8 * g + k])),
                rint::<R>(grid_of(n, k) as i32),
            ),
        |k: int|
            rmul(
                rmul(iq_weight(row, 8 * g + k), rint::<R>(grid_of(n, k) as i32)),
                rint::<R>(grid_of(n, k) as i32),
            ),
    );
    lemma_fsum_val(val, 8, fd);
    lemma_fsum_val(val, 8, fs);
    let (vd, vs) = (|k: int| val(fd(k)), |k: int| val(fs(k)));
    let (wd, ws) = (|k: int| (w(k) * a(k)) * p(k), |k: int| (w(k) * p(k)) * p(k));
    assert forall|k: int| 0 <= k < 8 implies #[trigger] vd(k) == wd(k) by {
        lemma_grid_small(n, k);
    }
    assert forall|k: int| 0 <= k < 8 implies #[trigger] vs(k) == ws(k) by {
        lemma_grid_small(n, k);
    }
    lemma_rsum_eq(8, vd, wd);
    lemma_rsum_eq(8, vs, ws);
    let (own, theirs) = (
        |k: int| (w(k) * a(k)) * a(k),
        |k: int|
            (counted(val, row, 8 * g + k) * size(val(x[8 * g + k]))) * size(val(x[8 * g + k])),
    );
    assert forall|k: int| 0 <= k < 8 implies #[trigger] own(k) == theirs(k) by {}
    lemma_rsum_eq(8, own, theirs);
    assert(group_square(val, x, row, g) == rsum(8, theirs));
    assert(group_loss(val, x, row, b, g) == rsum(8, loss));
    assert(val(point_dot(x, row, g, n)) == rsum(8, wd));
    assert(val(point_square(row, g, n)) == rsum(8, ws));
    let (two, dot) = (2 as real, rsum(8, wd));
    let tw = two * t;
    assert((-tw) * dot == -(tw * dot)) by (nonlinear_arith);
    assert(rsum(8, want) == rsum(8, own) + ((t * t) * rsum(8, ws) + (-(2 as real * t)) * rsum(
        8,
        wd,
    )));
}

proof fn lemma_step<R: Real>(val: spec_fn(R) -> real, b: BlockIq2Xxs, s: int)
    requires
        ordered(val),
    ensures
        val(sub_step(rhalf::<R>(b.d), level_of(b.qs@, s))) == val(rhalf::<R>(b.d)) * val(
            sub_factor::<R>(level_of(b.qs@, s)),
        ),
{
    let level = level_of(b.qs@, s);
    let h = val(crate::arith::radd(crate::format::iq2_xxs::half_r::<R>(), rint(level as i32)));
    let (d, q) = (val(rhalf::<R>(b.d)), val(crate::format::iq2_xxs::quarter_r::<R>()));
    assert((d * h) * q == d * (h * q)) by (nonlinear_arith);
}

/// iq2_xxs: under the scale and the signs a block stores, no other grid point loses less of the
/// magnitudes of a group. A point whose loss exceeds everything that can be measured is left out.
pub proof fn grid_points_are_best<R: Real>(
    val: spec_fn(R) -> real,
    x: Seq<R>,
    row: Option<Seq<R>>,
    b: BlockIq2Xxs,
    other: BlockIq2Xxs,
    g: int,
)
    requires
        ordered(val),
        encoded::<R, BlockIq2Xxs>(x, row, b),
        0 <= g < 32,
        val(rbits::<R>(0x3F00_0000)) >= 0 as real,
        val(rbits::<R>(0x3E80_0000)) >= 0 as real,
        val(rhalf::<R>(b.d)) >= 0 as real,
        other.d == b.d,
        other.qs@[4 * (g / 4) + 2] == b.qs@[4 * (g / 4) + 2],
        other.qs@[4 * (g / 4) + 3] == b.qs@[4 * (g / 4) + 3],
        group_loss(val, x, row, other, g) - group_square(val, x, row, g) < val(rinf::<R>()),
    ensures
        group_loss(val, x, row, b, g) <= group_loss(val, x, row, other, g),
{
    let (s, l) = (g / 4, g % 4);
    assert(4 * s + l == g);
    assert(level_of(other.qs@, s) == level_of(b.qs@, s));
    let level = level_of(b.qs@, s);
    let step = sub_step(rhalf::<R>(b.d), level);
    let h = val(crate::arith::radd(crate::format::iq2_xxs::half_r::<R>(), rint(level as i32)));
    let (d, q) = (val(rhalf::<R>(b.d)), val(crate::format::iq2_xxs::quarter_r::<R>()));
    assert(0 <= level <= 15);
    assert(h >= 0 as real);
    assert(d * h >= 0 as real) by (nonlinear_arith)
        requires
            d >= 0 as real,
            h >= 0 as real,
    ;
    let dh = d * h;
    assert(dh * q >= 0 as real) by (nonlinear_arith)
        requires
            dh >= 0 as real,
            q >= 0 as real,
    ;
    lemma_group(val, x, row, b, g, step);
    lemma_group(val, x, row, other, g, step);
    let c = index_of(other.qs@, s, l);
    assert(0 <= c < 256);
    lemma_best(val, x, row, g, step, 256, c);
    assert(index_of(b.qs@, s, l) == best_of(x, row, 4 * s + l, step, 256).1);
}

} // verus!
