//! The two stages every k-quant encoder shares.
//!
//! Each sub-block of values is fitted on its own; the sub-block scales are then themselves
//! quantised, which is what the block scale multiplies. An importance matrix changes both: it
//! weighs each value by `importance * sqrt(variance + x * x)`, and the sub-block scales are fitted
//! against how much weight each sub-block carries instead of being divided by the largest.
use vstd::prelude::*;
use crate::arith::{
    Real, lawful, rabs, radd, rdiv, rint, rlt, rmax, rmul, rround, rsqrt, rzero, int_to, lt, max,
    nearest_int, over, plus, sqrt, times, zero,
};
use crate::blocks::{Quantized, lemma_paired, paired, run};
use crate::scale::{
    affine_fit, fit_scale_and_offset, fit_unsigned_scale, magnitude_weights, rms_of, unsigned_fit,
};
use crate::sums::{fsum, sum_slice};

verus! {

/// The sixteen or thirty-two values of sub-block `g`.
pub open spec fn group_of<R>(x: Seq<R>, sub: int, g: int) -> Seq<R> {
    x.subrange(sub * g, sub * g + sub)
}

/// What each value of sub-block `g` counts for.
pub open spec fn group_weight<R: Real>(
    x: Seq<R>,
    row: Option<Seq<R>>,
    sub: int,
    sigma2: R,
    g: int,
) -> Seq<R> {
    let xg = group_of(x, sub, g);
    match row {
        Some(m) => Seq::new(
            sub as nat,
            |i: int| rmul(m[sub * g + i], rsqrt(radd(sigma2, rmul(xg[i], xg[i])))),
        ),
        None => Seq::new(sub as nat, |i: int| radd(rms_of(xg, sub as nat), rabs(xg[i]))),
    }
}

/// The weight sub-block `g` carries.
pub open spec fn carried_of<R: Real>(
    x: Seq<R>,
    row: Option<Seq<R>>,
    sub: int,
    sigma2: R,
    g: int,
) -> R {
    let w = group_weight(x, row, sub, sigma2, g);
    fsum(sub as nat, |i: int| w[i])
}

/// The weights of one sub-block.
pub fn weigh_group<R: Real>(xg: &[R], row: Option<&[R]>, sigma2: R) -> (w: Vec<R>)
    requires
        lawful::<R>(),
        xg@.len() <= 256,
        row matches Some(m) ==> m@.len() == xg@.len(),
    ensures
        w@.len() == xg@.len(),
        forall|i: int|
            0 <= i < w@.len() ==> #[trigger] w@[i] == (match row {
                Some(m) => rmul(m@[i], rsqrt(radd(sigma2, rmul(xg@[i], xg@[i])))),
                None => radd(rms_of(xg@, xg@.len()), rabs(xg@[i])),
            }),
{
    match row {
        Some(m) => {
            let n: usize = xg.len();
            let mut w: Vec<R> = Vec::with_capacity(n);
            for i in 0..n
                invariant
                    lawful::<R>(),
                    n == xg@.len(),
                    m@.len() == n,
                    w@.len() == i,
                    forall|k: int|
                        0 <= k < i ==> #[trigger] w@[k] == rmul(
                            m@[k],
                            rsqrt(radd(sigma2, rmul(xg@[k], xg@[k]))),
                        ),
            {
                w.push(times(m[i], sqrt(plus(sigma2, times(xg[i], xg[i])))));
            }
            w
        },
        None => magnitude_weights(xg),
    }
}

/// Sub-block `g` of the values, and the weights it is fitted with.
pub fn take_group<'a, R: Real>(
    x: &'a [R],
    row: Option<&[R]>,
    sub: usize,
    sigma2: R,
    g: usize,
) -> (r: (&'a [R], Vec<R>))
    requires
        lawful::<R>(),
        0 < sub <= 32,
        sub * g + sub <= x@.len(),
        x@.len() <= 256,
        row matches Some(m) ==> m@.len() == x@.len(),
    ensures
        r.0@ == group_of(x@, sub as int, g as int),
        r.1@ == group_weight(x@, view_row(row), sub as int, sigma2, g as int),
        r.1@.len() == sub,
{
    let at: usize = sub * g;
    let xg: &'a [R] = &x[at..at + sub];
    let part: Option<&[R]> = match row {
        Some(m) => Some(&m[at..at + sub]),
        None => None,
    };
    let w = weigh_group(xg, part, sigma2);
    assert(xg@ =~= group_of(x@, sub as int, g as int));
    assert(w@ =~= group_weight(x@, view_row(row), sub as int, sigma2, g as int));
    (xg, w)
}

/// An optional row of importances, as a sequence.
pub open spec fn view_row<R>(row: Option<&[R]>) -> Option<Seq<R>> {
    match row {
        Some(m) => Some(m@),
        None => None,
    }
}

/// The scale and negated minimum sub-block `g` is fitted to.
pub open spec fn group_fit<R: Real>(
    x: Seq<R>,
    row: Option<Seq<R>>,
    sub: int,
    nmax: int,
    sigma2: R,
    g: int,
) -> (R, R) {
    affine_fit(nmax, group_of(x, sub, g), group_weight(x, row, sub, sigma2, g))
}

/// The scales the first stage gives.
pub open spec fn stage_scales<R: Real>(
    x: Seq<R>,
    row: Option<Seq<R>>,
    sub: int,
    nmax: int,
    sigma2: R,
    groups: nat,
) -> Seq<R> {
    Seq::new(groups, |g: int| group_fit(x, row, sub, nmax, sigma2, g).0)
}

/// The negated minimums the first stage gives.
pub open spec fn stage_mins<R: Real>(
    x: Seq<R>,
    row: Option<Seq<R>>,
    sub: int,
    nmax: int,
    sigma2: R,
    groups: nat,
) -> Seq<R> {
    Seq::new(groups, |g: int| group_fit(x, row, sub, nmax, sigma2, g).1)
}

/// The weights the sub-blocks carry.
pub open spec fn stage_carried<R: Real>(
    x: Seq<R>,
    row: Option<Seq<R>>,
    sub: int,
    sigma2: R,
    groups: nat,
) -> Seq<R> {
    Seq::new(groups, |g: int| carried_of(x, row, sub, sigma2, g))
}

/// The first stage: every sub-block's scale, negated minimum and carried weight.
pub fn fit_groups<R: Real>(
    x: &[R],
    row: Option<&[R]>,
    sub: usize,
    nmax: i32,
    sigma2: R,
    groups: usize,
) -> (r: (Vec<R>, Vec<R>, Vec<R>))
    requires
        lawful::<R>(),
        0 < sub <= 32,
        x@.len() == sub * groups,
        x@.len() <= 256,
        0 <= nmax <= 255,
        row matches Some(m) ==> m@.len() == x@.len(),
    ensures
        r.0@ == stage_scales(x@, view_row(row), sub as int, nmax as int, sigma2, groups as nat),
        r.1@ == stage_mins(x@, view_row(row), sub as int, nmax as int, sigma2, groups as nat),
        r.2@ == stage_carried(x@, view_row(row), sub as int, sigma2, groups as nat),
{
    let mut scales: Vec<R> = Vec::with_capacity(groups);
    let mut mins: Vec<R> = Vec::with_capacity(groups);
    let mut carried: Vec<R> = Vec::with_capacity(groups);
    for g in 0..groups
        invariant
            lawful::<R>(),
            0 < sub <= 32,
            x@.len() == sub * groups,
            x@.len() <= 256,
            0 <= nmax <= 255,
            row matches Some(m) ==> m@.len() == x@.len(),
            scales@.len() == g,
            mins@.len() == g,
            carried@.len() == g,
            forall|k: int|
                0 <= k < g ==> #[trigger] scales@[k] == group_fit(
                    x@,
                    view_row(row),
                    sub as int,
                    nmax as int,
                    sigma2,
                    k,
                ).0,
            forall|k: int|
                0 <= k < g ==> #[trigger] mins@[k] == group_fit(
                    x@,
                    view_row(row),
                    sub as int,
                    nmax as int,
                    sigma2,
                    k,
                ).1,
            forall|k: int|
                0 <= k < g ==> #[trigger] carried@[k] == carried_of(
                    x@,
                    view_row(row),
                    sub as int,
                    sigma2,
                    k,
                ),
    {
        assert(sub * g + sub <= sub * groups) by (nonlinear_arith)
            requires
                g + 1 <= groups,
                0 < sub,
        ;
        let (xg, w) = take_group(x, row, sub, sigma2, g);
        carried.push(sum_slice(&w));
        let (s, m) = fit_scale_and_offset(nmax, xg, &w);
        scales.push(s);
        mins.push(m);
    }
    assert(scales@ =~= stage_scales(
        x@,
        view_row(row),
        sub as int,
        nmax as int,
        sigma2,
        groups as nat,
    ));
    assert(mins@ =~= stage_mins(x@, view_row(row), sub as int, nmax as int, sigma2, groups as nat));
    assert(carried@ =~= stage_carried(x@, view_row(row), sub as int, sigma2, groups as nat));
    (scales, mins, carried)
}

/// The largest of the first `n` values, at least zero.
pub open spec fn crest_of<R: Real>(x: Seq<R>, n: nat) -> R
    decreases n,
{
    if n == 0 {
        rzero::<R>()
    } else {
        rmax(x[n - 1], crest_of(x, (n - 1) as nat))
    }
}

/// The code of one scale when the largest takes the widest.
pub open spec fn crest_level<R: Real>(levels: u8, v: R, top: R) -> u8 {
    let inv = if rlt(rzero::<R>(), top) {
        rdiv(rint::<R>(levels as i32), top)
    } else {
        rzero::<R>()
    };
    let q = rround(rmul(inv, v));
    if q > levels {
        levels
    } else {
        q as u8
    }
}

/// The second stage: the block scale, and the sub-block scales as codes.
pub open spec fn stage_levels<R: Real>(
    levels: u8,
    vals: Seq<R>,
    carried: Option<Seq<R>>,
) -> (R, Seq<u8>) {
    match carried {
        Some(w) => unsigned_fit(levels, vals, w),
        None => {
            let top = crest_of(vals, vals.len());
            (
                rdiv(top, rint::<R>(levels as i32)),
                Seq::new(vals.len(), |g: int| crest_level(levels, vals[g], top)),
            )
        },
    }
}

/// The second stage: quantise the sub-block scales against one block scale.
pub fn quantize_scales<R: Real>(
    levels: u8,
    vals: &Vec<R>,
    carried: &Vec<R>,
    guided: bool,
) -> (r: (R, Vec<u8>))
    requires
        lawful::<R>(),
        vals@.len() == carried@.len(),
    ensures
        (r.0, r.1@) == stage_levels(
            levels,
            vals@,
            if guided {
                Some(carried@)
            } else {
                None
            },
        ),
        r.1@.len() == vals@.len(),
{
    if guided {
        return fit_unsigned_scale(levels, vals, carried);
    }
    let n: usize = vals.len();
    let mut top = zero::<R>();
    for i in 0..n
        invariant
            lawful::<R>(),
            n == vals@.len(),
            top == crest_of(vals@, i as nat),
    {
        top = max(vals[i], top);
    }
    let inv = if lt(zero::<R>(), top) {
        over(int_to::<R>(levels as i32), top)
    } else {
        zero::<R>()
    };
    let mut ls: Vec<u8> = Vec::with_capacity(n);
    for i in 0..n
        invariant
            lawful::<R>(),
            n == vals@.len(),
            inv == (if rlt(rzero::<R>(), top) {
                rdiv(rint::<R>(levels as i32), top)
            } else {
                rzero::<R>()
            }),
            ls@.len() == i,
            forall|k: int| 0 <= k < i ==> #[trigger] ls@[k] == crest_level(levels, vals@[k], top),
    {
        let q: i32 = nearest_int(times(inv, vals[i]));
        ls.push(
            if q > levels as i32 {
                levels
            } else {
                q as u8
            },
        );
    }
    assert(ls@ =~= Seq::new(n as nat, |g: int| crest_level(levels, vals@[g], top)));
    (over(top, int_to::<R>(levels as i32)), ls)
}

/// Which run of importances block `b` reads: the blocks of a row of `n_per_row` values read a row's
/// runs in turn, and each row starts over.
pub open spec fn importance_row(b: int, n_per_row: int, w: int) -> int {
    b % (n_per_row / w)
}

/// A format whose encoder can be told which values matter.
pub trait Guided<R: Real>: Quantized<R> {
    /// Block `b` is what the values `x` are encoded to under the importances `w`.
    spec fn encodes_guided(x: Seq<R>, w: Seq<R>, b: Self) -> bool;

    /// The block a run of values encodes to under importances.
    fn encode_guided(x: &[R], w: &[R]) -> (b: Self)
        requires
            lawful::<R>(),
            x@.len() == Self::width(),
            w@.len() == Self::width(),
        ensures
            Self::encodes_guided(x@, w@, b),
    ;

    /// Encode a run of values whose rows of `n_per_row` share one row of importances. Where the
    /// values and the blocks do not match, the blocks that both have are written and the others stay
    /// as they were.
    fn quantize_guided(xs: &[R], ys: &mut [Self], imatrix_weights: &[R], n_per_row: usize)
        requires
            lawful::<R>(),
            paired(old(ys)@.len() as int, xs@.len() as int, Self::width() as int) > 0
                ==> Self::width() <= n_per_row,
            forall|b: int|
                0 <= b < paired(
                    old(ys)@.len() as int,
                    xs@.len() as int,
                    Self::width() as int,
                ) ==> (#[trigger] importance_row(b, n_per_row as int, Self::width() as int) + 1)
                    * Self::width() <= imatrix_weights@.len(),
        ensures
            final(ys)@.len() == old(ys)@.len(),
            forall|b: int|
                0 <= b < paired(
                    old(ys)@.len() as int,
                    xs@.len() as int,
                    Self::width() as int,
                ) ==> Self::encodes_guided(
                    run(xs@, b, Self::width() as int),
                    run(
                        imatrix_weights@,
                        importance_row(b, n_per_row as int, Self::width() as int),
                        Self::width() as int,
                    ),
                    #[trigger] final(ys)@[b],
                ),
            forall|b: int|
                paired(old(ys)@.len() as int, xs@.len() as int, Self::width() as int) <= b
                    < final(ys)@.len() ==> #[trigger] final(ys)@[b] == old(ys)@[b],
    {
        let w: usize = Self::block_len();
        let total: usize = xs.len();
        let room: usize = ys.len();
        let whole: usize = total / w;
        let n: usize = if room <= whole {
            room
        } else {
            whole
        };
        let ghost held = ys@;
        proof {
            lemma_paired(room as int, total as int, w as int);
        }
        let per_row: usize = n_per_row / w;
        assert(w <= n_per_row ==> 0 < per_row) by (nonlinear_arith)
            requires
                per_row == n_per_row / w,
                0 < w,
        ;
        assert(0 * w == 0) by (nonlinear_arith);
        for b in 0..n
            invariant
                lawful::<R>(),
                w == Self::width(),
                0 < w,
                ys@.len() == room,
                held.len() == room,
                n <= room,
                n * w <= total,
                xs@.len() == total,
                per_row == n_per_row / w,
                0 < n ==> 0 < per_row,
                forall|c: int|
                    0 <= c < n ==> (#[trigger] importance_row(c, n_per_row as int, w as int) + 1) * w
                        <= imatrix_weights@.len(),
                forall|c: int|
                    0 <= c < b ==> Self::encodes_guided(
                        run(xs@, c, w as int),
                        run(
                            imatrix_weights@,
                            importance_row(c, n_per_row as int, w as int),
                            w as int,
                        ),
                        #[trigger] ys@[c],
                    ),
                forall|c: int| b <= c < room ==> #[trigger] ys@[c] == held[c],
        {
            assert(b * w + w <= n * w) by (nonlinear_arith)
                requires
                    b + 1 <= n,
                    0 < w,
            ;
            let q: usize = b % per_row;
            assert(q == importance_row(b as int, n_per_row as int, w as int));
            let room: usize = imatrix_weights.len();
            assert(0 <= q * w && q * w + w == (q + 1) * w) by (nonlinear_arith)
                requires
                    0 <= q,
                    0 < w,
            ;
            let at: usize = b * w;
            let base: usize = q * w;
            let x = &xs[at..at + w];
            let m = &imatrix_weights[base..base + w];
            assert(x@ == run(xs@, b as int, w as int));
            assert(m@ == run(imatrix_weights@, q as int, w as int));
            ys[b] = Self::encode_guided(x, m);
        }
    }
}

} // verus!
