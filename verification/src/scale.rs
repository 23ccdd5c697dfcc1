//! Choosing the scale a group of values is quantised against.
use vstd::prelude::*;
use crate::arith::{
    Real, lawful, rabs, radd, rbits, rdiv, req, rinf, rint, rle, rlt, rmax, rmin, rmul, rneg,
    rround, rsqrt, rsub, rzero, abs, eq, from_bits, inf, int_to, le, lt, max, min, minus,
    nearest_int, neg, over, plus, sqrt, times, zero,
};
use crate::sums::{filled, fsum};

verus! {

/// `v`, brought into `lo..=hi`.
pub open spec fn clamped(v: int, lo: int, hi: int) -> int {
    if v < lo {
        lo
    } else if v > hi {
        hi
    } else {
        v
    }
}

/// `v`, brought into `lo..=hi`.
pub fn clamp(v: i32, lo: i32, hi: i32) -> (r: i32)
    requires
        lo <= hi,
    ensures
        r == clamped(v as int, lo as int, hi as int),
        lo <= r <= hi,
{
    if v < lo {
        lo
    } else if v > hi {
        hi
    } else {
        v
    }
}

/// The value of largest magnitude among the first `n`, keeping its sign; the first of equals.
pub open spec fn extreme_of<R: Real>(x: Seq<R>, n: nat) -> R
    decreases n,
{
    if n == 0 {
        rzero::<R>()
    } else {
        let m = extreme_of(x, (n - 1) as nat);
        if rlt(rabs(m), rabs(x[n - 1])) {
            x[n - 1]
        } else {
            m
        }
    }
}

/// The value of largest magnitude, keeping its sign: in a code range with one end longer than
/// the other it has to land on the end that exists.
pub fn extreme<R: Real>(x: &[R]) -> (r: R)
    requires
        lawful::<R>(),
    ensures
        r == extreme_of(x@, x@.len()),
{
    let mut m = zero::<R>();
    for i in 0..x.len()
        invariant
            lawful::<R>(),
            m == extreme_of(x@, i as nat),
    {
        let v = x[i];
        if lt(abs(m), abs(v)) {
            m = v;
        }
    }
    m
}

/// The largest magnitude among the first `n`.
pub open spec fn amax_of<R: Real>(x: Seq<R>, n: nat) -> R
    decreases n,
{
    if n == 0 {
        rzero::<R>()
    } else {
        rmax(amax_of(x, (n - 1) as nat), rabs(x[n - 1]))
    }
}

/// The largest magnitude.
pub fn amax<R: Real>(x: &[R]) -> (r: R)
    requires
        lawful::<R>(),
    ensures
        r == amax_of(x@, x@.len()),
{
    let mut m = zero::<R>();
    for i in 0..x.len()
        invariant
            lawful::<R>(),
            m == amax_of(x@, i as nat),
    {
        m = max(m, abs(x[i]));
    }
    m
}

/// The smallest of the first `n`, starting above every value.
pub open spec fn min_of<R: Real>(x: Seq<R>, n: nat) -> R
    decreases n,
{
    if n == 0 {
        rinf::<R>()
    } else {
        rmin(min_of(x, (n - 1) as nat), x[n - 1])
    }
}

/// The largest of the first `n`, starting from `start`.
pub open spec fn max_of<R: Real>(start: R, x: Seq<R>, n: nat) -> R
    decreases n,
{
    if n == 0 {
        start
    } else {
        rmax(max_of(start, x, (n - 1) as nat), x[n - 1])
    }
}

/// The smallest value of a run.
pub fn smallest<R: Real>(x: &[R]) -> (r: R)
    requires
        lawful::<R>(),
    ensures
        r == min_of(x@, x@.len()),
{
    let mut m = inf::<R>();
    for i in 0..x.len()
        invariant
            lawful::<R>(),
            m == min_of(x@, i as nat),
    {
        m = min(m, x[i]);
    }
    m
}

/// The largest value of a run, at least `start`.
pub fn largest<R: Real>(start: R, x: &[R]) -> (r: R)
    requires
        lawful::<R>(),
    ensures
        r == max_of(start, x@, x@.len()),
{
    let mut m = start;
    for i in 0..x.len()
        invariant
            lawful::<R>(),
            m == max_of(start, x@, i as nat),
    {
        m = max(m, x[i]);
    }
    m
}

/// `1 / d`, or zero where `d` is.
pub open spec fn reciprocal_of<R: Real>(d: R) -> R {
    if req(d, rzero::<R>()) {
        rzero::<R>()
    } else {
        rdiv(rint::<R>(1), d)
    }
}

/// `1 / d`, or zero where `d` is, so that an all-zero block encodes to zeros.
pub fn reciprocal<R: Real>(d: R) -> (r: R)
    requires
        lawful::<R>(),
    ensures
        r == reciprocal_of(d),
{
    if eq(d, zero::<R>()) {
        zero::<R>()
    } else {
        over(int_to::<R>(1), d)
    }
}

// -- weights --

/// The root mean square of the first `n` values.
pub open spec fn rms_of<R: Real>(x: Seq<R>, n: nat) -> R {
    rsqrt(rdiv(fsum(n, |i: int| rmul(x[i], x[i])), rint::<R>(n as i32)))
}

/// The sum of squares of a run.
pub fn sum_squares<R: Real>(x: &[R]) -> (r: R)
    requires
        lawful::<R>(),
    ensures
        r == fsum(x@.len(), |i: int| rmul(x@[i], x@[i])),
{
    let ghost f = |i: int| rmul(x@[i], x@[i]);
    let mut acc = zero::<R>();
    for i in 0..x.len()
        invariant
            lawful::<R>(),
            f == (|i: int| rmul(x@[i], x@[i])),
            acc == fsum(i as nat, f),
    {
        acc = plus(acc, times(x[i], x[i]));
        assert(f(i as int) == rmul(x@[i as int], x@[i as int]));
    }
    acc
}

/// How much each value counts toward a fit when no importance matrix says: `rms(x) + |x|`,
/// linear in magnitude and never zero.
pub fn magnitude_weights<R: Real>(x: &[R]) -> (w: Vec<R>)
    requires
        lawful::<R>(),
        x@.len() <= 256,
    ensures
        w@.len() == x@.len(),
        forall|i: int|
            0 <= i < w@.len() ==> #[trigger] w@[i] == radd(rms_of(x@, x@.len()), rabs(x@[i])),
{
    let n: usize = x.len();
    let rms = sqrt(over(sum_squares(x), int_to::<R>(n as i32)));
    let mut w: Vec<R> = Vec::with_capacity(n);
    for i in 0..n
        invariant
            lawful::<R>(),
            n == x@.len(),
            rms == rms_of(x@, n as nat),
            w@.len() == i,
            forall|k: int| 0 <= k < i ==> #[trigger] w@[k] == radd(rms, rabs(x@[k])),
    {
        w.push(plus(rms, abs(x[i])));
    }
    w
}

// -- the scale a fixed set of levels implies --

/// Two weighted sums, `sum(w x l)` and `sum(w l l)`: their quotient is the scale that loses least
/// over a fixed set of levels.
#[derive(Debug)]
pub struct Fit<R> {
    pub wxl: R,
    pub wl2: R,
}

impl<R: Copy> Copy for Fit<R> {

}

impl<R: Copy> Clone for Fit<R> {
    fn clone(&self) -> (r: Self)
        ensures
            r == *self,
    {
        *self
    }
}

impl<R: Real> Fit<R> {
    pub open spec fn scale_of(self) -> R {
        rdiv(self.wxl, self.wl2)
    }

    pub open spec fn objective_of(self) -> R {
        rmul(self.scale_of(), self.wxl)
    }

    /// The best scale for these levels.
    pub fn scale(self) -> (r: R)
        requires
            lawful::<R>(),
        ensures
            r == self.scale_of(),
    {
        over(self.wxl, self.wl2)
    }

    /// What that scale leaves to be maximised.
    pub fn objective(self) -> (r: R)
        requires
            lawful::<R>(),
        ensures
            r == self.objective_of(),
    {
        times(over(self.wxl, self.wl2), self.wxl)
    }
}

/// A tenth, in the carrier.
pub open spec fn tenth<R: Real>() -> R {
    rbits::<R>(0x3DCC_CCCD)
}

// -- signed levels, no offset --

/// The level of one value in `-nmax..nmax` under the inverse scale `inv`.
pub open spec fn signed_level<R: Real>(nmax: int, inv: R, v: R) -> int {
    clamped(rround(rmul(inv, v)) as int, -nmax, nmax - 1)
}

/// The two sums over the first `n` values, under the inverse scale `inv`.
pub open spec fn signed_score<R: Real>(nmax: int, x: Seq<R>, w: Seq<R>, inv: R, n: nat) -> Fit<R>
    decreases n,
{
    if n == 0 {
        Fit { wxl: rzero::<R>(), wl2: rzero::<R>() }
    } else {
        let f = signed_score(nmax, x, w, inv, (n - 1) as nat);
        let (v, k) = (x[n - 1], w[n - 1]);
        let l = rint::<R>(signed_level(nmax, inv, v) as i32);
        Fit { wxl: radd(f.wxl, rmul(rmul(k, v), l)), wl2: radd(f.wl2, rmul(rmul(k, l), l)) }
    }
}

/// A search in progress: the biased levels, the sums they give and the objective reached.
pub struct Search<R> {
    pub ls: Seq<i8>,
    pub fit: Fit<R>,
    pub best: R,
}

/// The search with every level taken from the inverse scale `inv`.
pub open spec fn committed<R: Real>(nmax: int, x: Seq<R>, w: Seq<R>, inv: R) -> Search<R> {
    let fit = signed_score(nmax, x, w, inv, x.len());
    Search {
        ls: Seq::new(x.len(), |i: int| (signed_level(nmax, inv, x[i]) + nmax) as i8),
        fit,
        best: fit.objective_of(),
    }
}

/// A candidate's sums beat the objective `best`.
pub open spec fn beats<R: Real>(f: Fit<R>, best: R) -> bool {
    rlt(rmul(best, f.wl2), rmul(f.wxl, f.wxl))
}

/// Levels re-derived from the scale the last pass implied, while that improves the fit; at most
/// `k` times.
pub open spec fn rederived<R: Real>(
    nmax: int,
    x: Seq<R>,
    w: Seq<R>,
    s: Search<R>,
    k: nat,
) -> Search<R>
    decreases k,
{
    if k == 0 {
        s
    } else {
        let inv = rdiv(rint::<R>(1), s.fit.scale_of());
        let c = committed(nmax, x, w, inv);
        if c.ls == s.ls || req(c.fit.wl2, rzero::<R>()) || rle(
            rmul(c.fit.wxl, c.fit.wxl),
            rmul(s.best, c.fit.wl2),
        ) {
            s
        } else {
            rederived(nmax, x, w, c, (k - 1) as nat)
        }
    }
}

/// Value `i` taken out of the fit and put back where it fits best, if that raises the objective;
/// and whether it did.
pub open spec fn moved_at<R: Real>(
    nmax: int,
    x: Seq<R>,
    w: Seq<R>,
    s: Search<R>,
    i: int,
) -> (Search<R>, bool) {
    let (v, k) = (x[i], w[i]);
    let l = s.ls[i] - nmax;
    let wxl = rsub(s.fit.wxl, rmul(rmul(k, v), rint(l as i32)));
    let wl2 = rsub(s.fit.wl2, rmul(k, rint((l * l) as i32)));
    let to = clamped(rround(rdiv(rmul(v, wl2), wxl)) as int, -nmax, nmax - 1);
    let wxl2 = radd(wxl, rmul(rmul(k, v), rint(to as i32)));
    let wl22 = radd(wl2, rmul(k, rint((to * to) as i32)));
    let fit = Fit { wxl: wxl2, wl2: wl22 };
    if !rle(wxl, rzero::<R>()) && to != l && rlt(rzero::<R>(), wl22) && rlt(
        rmul(rmul(s.fit.wxl, s.fit.wxl), wl22),
        rmul(rmul(wxl2, wxl2), s.fit.wl2),
    ) {
        (
            Search { ls: s.ls.update(i, (to + nmax) as i8), fit, best: fit.objective_of() },
            true,
        )
    } else {
        (s, false)
    }
}

/// The first `n` values each given one move, and whether any moved.
pub open spec fn swept<R: Real>(
    nmax: int,
    x: Seq<R>,
    w: Seq<R>,
    s: Search<R>,
    n: nat,
) -> (Search<R>, bool)
    decreases n,
{
    if n == 0 {
        (s, false)
    } else {
        let before = swept(nmax, x, w, s, (n - 1) as nat);
        let after = moved_at(nmax, x, w, before.0, n - 1);
        (after.0, before.1 || after.1)
    }
}

/// Sweeps repeated until none moves a value; at most `k` of them.
pub open spec fn settled<R: Real>(
    nmax: int,
    x: Seq<R>,
    w: Seq<R>,
    s: Search<R>,
    k: nat,
) -> Search<R>
    decreases k,
{
    if k == 0 {
        s
    } else {
        let after = swept(nmax, x, w, s, x.len());
        if after.1 {
            settled(nmax, x, w, after.0, (k - 1) as nat)
        } else {
            after.0
        }
    }
}

/// The inverse scale that puts the extreme value `step` tenths past the end of the range.
pub open spec fn stretch<R: Real>(nmax: int, top: R, step: int) -> R {
    rdiv(
        rneg(radd(rint::<R>(nmax as i32), rmul(tenth::<R>(), rint::<R>(step as i32)))),
        top,
    )
}

/// The first `k` of the nine stretches from -4 to 4 tried, zero skipped, keeping each that wins.
pub open spec fn stretched<R: Real>(
    nmax: int,
    x: Seq<R>,
    w: Seq<R>,
    s: Search<R>,
    k: nat,
) -> Search<R>
    decreases k,
{
    if k == 0 {
        s
    } else {
        let before = stretched(nmax, x, w, s, (k - 1) as nat);
        let step = k - 1 - 4;
        let c = committed(nmax, x, w, stretch(nmax, extreme_of(x, x.len()), step));
        if step != 0 && rlt(rzero::<R>(), c.fit.wl2) && beats(c.fit, before.best) {
            c
        } else {
            before
        }
    }
}

/// Where the signed search ends.
pub open spec fn signed_search<R: Real>(nmax: int, x: Seq<R>, w: Seq<R>) -> Search<R> {
    let start = committed(nmax, x, w, rdiv(rneg(rint::<R>(nmax as i32)), extreme_of(x, x.len())));
    stretched(nmax, x, w, settled(nmax, x, w, rederived(nmax, x, w, start, 3), 5), 9)
}

/// The scale the signed search gives a group; zero for a group of zeros.
pub open spec fn signed_fit<R: Real>(nmax: int, x: Seq<R>, w: Seq<R>) -> R {
    if req(extreme_of(x, x.len()), rzero::<R>()) {
        rzero::<R>()
    } else {
        signed_search(nmax, x, w).fit.scale_of()
    }
}

/// The biased levels the signed search gives a group; zeros for a group of zeros.
pub open spec fn signed_fit_levels<R: Real>(nmax: int, x: Seq<R>, w: Seq<R>) -> Seq<i8> {
    if req(extreme_of(x, x.len()), rzero::<R>()) {
        Seq::new(x.len(), |i: int| 0i8)
    } else {
        signed_search(nmax, x, w).ls
    }
}

fn level_of<R: Real>(nmax: i32, inv: R, v: R) -> (l: i32)
    requires
        lawful::<R>(),
        1 <= nmax <= 64,
    ensures
        l == signed_level(nmax as int, inv, v),
        -nmax <= l < nmax,
{
    clamp(nearest_int(times(inv, v)), -nmax, nmax - 1)
}

/// Score an inverse scale, and the levels it gives.
fn score_signed<R: Real>(nmax: i32, x: &[R], weights: &[R], inv: R) -> (r: (Fit<R>, Vec<i8>))
    requires
        lawful::<R>(),
        1 <= nmax <= 64,
        x@.len() <= weights@.len(),
    ensures
        r.0 == signed_score(nmax as int, x@, weights@, inv, x@.len()),
        r.1@ == committed(nmax as int, x@, weights@, inv).ls,
{
    let mut fit = Fit { wxl: zero::<R>(), wl2: zero::<R>() };
    let mut ls: Vec<i8> = Vec::with_capacity(x.len());
    for i in 0..x.len()
        invariant
            lawful::<R>(),
            1 <= nmax <= 64,
            x@.len() <= weights@.len(),
            fit == signed_score(nmax as int, x@, weights@, inv, i as nat),
            ls@.len() == i,
            forall|k: int|
                0 <= k < i ==> #[trigger] ls@[k] == (signed_level(nmax as int, inv, x@[k])
                    + nmax) as i8,
    {
        let l: i32 = level_of(nmax, inv, x[i]);
        let (v, k) = (x[i], weights[i]);
        let lr = int_to::<R>(l);
        fit = Fit {
            wxl: plus(fit.wxl, times(times(k, v), lr)),
            wl2: plus(fit.wl2, times(times(k, lr), lr)),
        };
        ls.push((l + nmax) as i8);
    }
    assert(ls@ =~= committed(nmax as int, x@, weights@, inv).ls);
    (fit, ls)
}

fn same_levels(a: &Vec<i8>, b: &Vec<i8>) -> (r: bool)
    requires
        a@.len() == b@.len(),
    ensures
        r == (a@ == b@),
{
    for i in 0..a.len()
        invariant
            a@.len() == b@.len(),
            forall|k: int| 0 <= k < i ==> #[trigger] a@[k] == b@[k],
    {
        if a[i] != b[i] {
            return false;
        }
    }
    assert(a@ =~= b@);
    true
}

/// One value's move; whether it moved.
fn move_at<R: Real>(
    nmax: i32,
    x: &[R],
    weights: &[R],
    ls: &mut Vec<i8>,
    fit: &mut Fit<R>,
    best: &mut R,
    i: usize,
) -> (moved: bool)
    requires
        lawful::<R>(),
        1 <= nmax <= 64,
        x@.len() <= weights@.len(),
        old(ls)@.len() == x@.len(),
        i < x@.len(),
        forall|k: int| 0 <= k < x@.len() ==> 0 <= #[trigger] old(ls)@[k] < 2 * nmax,
    ensures
        (Search { ls: final(ls)@, fit: *final(fit), best: *final(best) }, moved) == moved_at(
            nmax as int,
            x@,
            weights@,
            (Search { ls: old(ls)@, fit: *old(fit), best: *old(best) }),
            i as int,
        ),
        final(ls)@.len() == x@.len(),
        forall|k: int| 0 <= k < x@.len() ==> 0 <= #[trigger] final(ls)@[k] < 2 * nmax,
{
    let (v, k) = (x[i], weights[i]);
    let l: i32 = ls[i] as i32 - nmax;
    let kv = times(k, v);
    let wxl = minus(fit.wxl, times(kv, int_to(l)));
    if le(wxl, zero::<R>()) {
        return false;
    }
    assert(0 <= l * l <= 64 * 64) by (nonlinear_arith)
        requires
            -64 <= l <= 63,
    ;
    let wl2 = minus(fit.wl2, times(k, int_to(l * l)));
    let to: i32 = clamp(nearest_int(over(times(v, wl2), wxl)), -nmax, nmax - 1);
    if to == l {
        return false;
    }
    assert(0 <= to * to <= 64 * 64) by (nonlinear_arith)
        requires
            -64 <= to <= 63,
    ;
    let wxl2 = plus(wxl, times(kv, int_to(to)));
    let wl22 = plus(wl2, times(k, int_to(to * to)));
    if lt(zero::<R>(), wl22) && lt(
        times(times(fit.wxl, fit.wxl), wl22),
        times(times(wxl2, wxl2), fit.wl2),
    ) {
        ls[i] = (to + nmax) as i8;
        *fit = Fit { wxl: wxl2, wl2: wl22 };
        *best = fit.objective();
        true
    } else {
        false
    }
}

/// Pick the scale for a group quantised to levels in `-nmax..nmax`, and the levels biased by
/// `nmax`.
///
/// The range is asymmetric, so the search starts by mapping the extreme value onto the end that
/// exists and then refines: levels re-derived from the implied scale, single levels moved, and the
/// extreme value stretched a few tenths past the end. Each refinement is kept only if the
/// objective rises.
pub fn fit_signed_scale<R: Real>(nmax: i32, x: &[R], weights: &[R]) -> (r: (R, Vec<i8>))
    requires
        lawful::<R>(),
        1 <= nmax <= 64,
        x@.len() <= weights@.len(),
    ensures
        r.0 == signed_fit(nmax as int, x@, weights@),
        r.1@ == signed_fit_levels(nmax as int, x@, weights@),
        r.1@.len() == x@.len(),
        forall|k: int| 0 <= k < x@.len() ==> 0 <= #[trigger] r.1@[k] < 2 * nmax,
{
    let n: usize = x.len();
    let top = extreme(x);
    if eq(top, zero::<R>()) {
        let none: Vec<i8> = filled(0i8, n);
        assert(none@ =~= signed_fit_levels(nmax as int, x@, weights@));
        return (zero::<R>(), none);
    }
    let (mut fit, mut ls) = score_signed(nmax, x, weights, over(neg(int_to::<R>(nmax)), top));
    let mut best = fit.objective();
    let ghost start = committed(
        nmax as int,
        x@,
        weights@,
        rdiv(rneg(rint::<R>(nmax)), extreme_of(x@, x@.len())),
    );
    let mut k: usize = 3;
    while k > 0
        invariant_except_break
            rederived(nmax as int, x@, weights@, start, 3) == rederived(
                nmax as int,
                x@,
                weights@,
                (Search { ls: ls@, fit, best }),
                k as nat,
            ),
        invariant
            lawful::<R>(),
            1 <= nmax <= 64,
            x@.len() <= weights@.len(),
            ls@.len() == x@.len(),
            forall|i: int| 0 <= i < x@.len() ==> 0 <= #[trigger] ls@[i] < 2 * nmax,
        ensures
            rederived(nmax as int, x@, weights@, start, 3) == (Search { ls: ls@, fit, best }),
        decreases k,
    {
        let inv = over(int_to::<R>(1), fit.scale());
        let (cand, cls) = score_signed(nmax, x, weights, inv);
        if same_levels(&cls, &ls) || eq(cand.wl2, zero::<R>()) || le(
            times(cand.wxl, cand.wxl),
            times(best, cand.wl2),
        ) {
            break;
        }
        fit = cand;
        ls = cls;
        best = fit.objective();
        k = k - 1;
    }
    let ghost mid = Search { ls: ls@, fit, best };
    let mut k: usize = 5;
    while k > 0
        invariant_except_break
            settled(nmax as int, x@, weights@, mid, 5) == settled(
                nmax as int,
                x@,
                weights@,
                (Search { ls: ls@, fit, best }),
                k as nat,
            ),
        invariant
            lawful::<R>(),
            1 <= nmax <= 64,
            n == x@.len(),
            x@.len() <= weights@.len(),
            ls@.len() == x@.len(),
            forall|i: int| 0 <= i < x@.len() ==> 0 <= #[trigger] ls@[i] < 2 * nmax,
        ensures
            settled(nmax as int, x@, weights@, mid, 5) == (Search { ls: ls@, fit, best }),
        decreases k,
    {
        let ghost s = Search { ls: ls@, fit, best };
        let mut moved: bool = false;
        for i in 0..n
            invariant
                lawful::<R>(),
                1 <= nmax <= 64,
                n == x@.len(),
                x@.len() <= weights@.len(),
                ls@.len() == x@.len(),
                forall|q: int| 0 <= q < x@.len() ==> 0 <= #[trigger] ls@[q] < 2 * nmax,
                (Search { ls: ls@, fit, best }, moved) == swept(
                    nmax as int,
                    x@,
                    weights@,
                    s,
                    i as nat,
                ),
        {
            let m = move_at(nmax, x, weights, &mut ls, &mut fit, &mut best, i);
            moved = moved || m;
        }
        if !moved {
            break;
        }
        k = k - 1;
    }
    let ghost late = Search { ls: ls@, fit, best };
    let tenth_r = from_bits::<R>(0x3DCC_CCCD);
    for k in 0..9usize
        invariant
            lawful::<R>(),
            1 <= nmax <= 64,
            x@.len() <= weights@.len(),
            ls@.len() == x@.len(),
            tenth_r == tenth::<R>(),
            top == extreme_of(x@, x@.len()),
            forall|i: int| 0 <= i < x@.len() ==> 0 <= #[trigger] ls@[i] < 2 * nmax,
            (Search { ls: ls@, fit, best }) == stretched(
                nmax as int,
                x@,
                weights@,
                late,
                k as nat,
            ),
    {
        let step: i32 = k as i32 - 4;
        if step != 0 {
            let inv = over(neg(plus(int_to::<R>(nmax), times(tenth_r, int_to::<R>(step)))), top);
            let (cand, cls) = score_signed(nmax, x, weights, inv);
            if lt(zero::<R>(), cand.wl2) && lt(times(best, cand.wl2), times(cand.wxl, cand.wxl)) {
                fit = cand;
                ls = cls;
                best = fit.objective();
            }
        }
    }
    (fit.scale(), ls)
}

// -- unsigned levels with an offset --

/// The smallest of the first `n + 1` values by comparison alone.
pub open spec fn lowest<R: Real>(x: Seq<R>, n: nat) -> R
    decreases n,
{
    if n == 0 {
        x[0]
    } else if rlt(x[n as int], lowest(x, (n - 1) as nat)) {
        x[n as int]
    } else {
        lowest(x, (n - 1) as nat)
    }
}

/// The largest of the first `n + 1` values by comparison alone.
pub open spec fn highest<R: Real>(x: Seq<R>, n: nat) -> R
    decreases n,
{
    if n == 0 {
        x[0]
    } else if rlt(highest(x, (n - 1) as nat), x[n as int]) {
        x[n as int]
    } else {
        highest(x, (n - 1) as nat)
    }
}

/// `w[0] + w[1] + ... + w[n]`.
pub open spec fn weight_total<R: Real>(w: Seq<R>, n: nat) -> R
    decreases n,
{
    if n == 0 {
        w[0]
    } else {
        radd(weight_total(w, (n - 1) as nat), w[n as int])
    }
}

/// `w[0] x[0] + ... + w[n] x[n]`.
pub open spec fn weighted_total<R: Real>(x: Seq<R>, w: Seq<R>, n: nat) -> R
    decreases n,
{
    if n == 0 {
        rmul(w[0], x[0])
    } else {
        radd(weighted_total(x, w, (n - 1) as nat), rmul(w[n as int], x[n as int]))
    }
}

/// The level of one value above `offset`, in `0..=nmax`.
pub open spec fn offset_level<R: Real>(nmax: int, per_unit: R, offset: R, v: R) -> int {
    clamped(rround(rmul(per_unit, rsub(v, offset))) as int, 0, nmax)
}

/// The weighted squared error of the first `n` values reconstructed as `scale * l + offset`, the
/// levels taken from `per_unit` above `from`.
pub open spec fn offset_error<R: Real>(
    nmax: int,
    x: Seq<R>,
    w: Seq<R>,
    per_unit: R,
    from: R,
    scale: R,
    offset: R,
    n: nat,
) -> R
    decreases n,
{
    if n == 0 {
        rzero::<R>()
    } else {
        let v = x[n - 1];
        let l = rint::<R>(offset_level(nmax, per_unit, from, v) as i32);
        let diff = rsub(radd(rmul(scale, l), offset), v);
        radd(
            offset_error(nmax, x, w, per_unit, from, scale, offset, (n - 1) as nat),
            rmul(rmul(w[n - 1], diff), diff),
        )
    }
}

/// `sum(w l)`, `sum(w l l)` and `sum(w l x)` over the first `n` values.
pub open spec fn offset_sums<R: Real>(
    nmax: int,
    x: Seq<R>,
    w: Seq<R>,
    per_unit: R,
    from: R,
    n: nat,
) -> (R, R, R)
    decreases n,
{
    if n == 0 {
        (rzero::<R>(), rzero::<R>(), rzero::<R>())
    } else {
        let (wl, wl2, wxl) = offset_sums(nmax, x, w, per_unit, from, (n - 1) as nat);
        let (v, k) = (x[n - 1], w[n - 1]);
        let l = rint::<R>(offset_level(nmax, per_unit, from, v) as i32);
        (
            radd(wl, rmul(k, l)),
            radd(wl2, rmul(k, rmul(l, l))),
            radd(wxl, rmul(rmul(k, l), v)),
        )
    }
}

/// An affine fit in progress: its error, scale and offset.
pub struct Affine<R> {
    pub error: R,
    pub scale: R,
    pub offset: R,
}

/// The multiplier grid point `step` tries: from `nmax - 0.9` up by `0.05`.
pub open spec fn grid_unit<R: Real>(nmax: int, step: int) -> R {
    radd(
        radd(rbits::<R>(0xBF66_6666), rmul(rbits::<R>(0x3D4C_CCCD), rint::<R>(step as i32))),
        rint::<R>(nmax as i32),
    )
}

/// One step of the grid: the levels of the current offset at this multiplier, the scale and offset
/// that fit them best with the offset kept from rising above zero, and both kept if they lose less.
pub open spec fn grid_step<R: Real>(
    nmax: int,
    x: Seq<R>,
    w: Seq<R>,
    top: R,
    s: Affine<R>,
    step: int,
) -> Affine<R> {
    let n = x.len();
    let per_unit = rdiv(grid_unit::<R>(nmax, step), rsub(top, s.offset));
    let (wl, wl2, wxl) = offset_sums(nmax, x, w, per_unit, s.offset, n);
    let wt = weight_total(w, (n - 1) as nat);
    let wxt = weighted_total(x, w, (n - 1) as nat);
    let denom = rsub(rmul(wt, wl2), rmul(wl, wl));
    let co = rdiv(rsub(rmul(wl2, wxt), rmul(wl, wxl)), denom);
    let (scale, offset) = if rlt(rzero::<R>(), co) {
        (rdiv(wxl, wl2), rzero::<R>())
    } else {
        (rdiv(rsub(rmul(wt, wxl), rmul(wxt, wl)), denom), co)
    };
    let error = offset_error(nmax, x, w, per_unit, s.offset, scale, offset, n);
    if rlt(rzero::<R>(), denom) && rlt(error, s.error) {
        Affine { error, scale, offset }
    } else {
        s
    }
}

/// The first `k` steps of the grid, each starting from the offset the last one settled on.
pub open spec fn grid_walk<R: Real>(
    nmax: int,
    x: Seq<R>,
    w: Seq<R>,
    top: R,
    s: Affine<R>,
    k: nat,
) -> Affine<R>
    decreases k,
{
    if k == 0 {
        s
    } else {
        grid_step(nmax, x, w, top, grid_walk(nmax, x, w, top, s, (k - 1) as nat), k - 1)
    }
}

/// The minimum the affine fit starts from: never above zero.
pub open spec fn floor_of<R: Real>(x: Seq<R>) -> R {
    let low = lowest(x, (x.len() - 1) as nat);
    if rlt(rzero::<R>(), low) {
        rzero::<R>()
    } else {
        low
    }
}

/// The affine fit before the grid: the range divided evenly.
pub open spec fn even_fit<R: Real>(nmax: int, x: Seq<R>, w: Seq<R>) -> Affine<R> {
    let offset = floor_of(x);
    let per_unit = rdiv(
        rint::<R>(nmax as i32),
        rsub(highest(x, (x.len() - 1) as nat), offset),
    );
    let scale = rdiv(rint::<R>(1), per_unit);
    Affine {
        error: offset_error(nmax, x, w, per_unit, offset, scale, offset, x.len()),
        scale,
        offset,
    }
}

/// The scale and negated minimum the affine search gives a group.
pub open spec fn affine_fit<R: Real>(nmax: int, x: Seq<R>, w: Seq<R>) -> (R, R) {
    let top = highest(x, (x.len() - 1) as nat);
    if rle(top, floor_of(x)) {
        (rzero::<R>(), rneg(floor_of(x)))
    } else {
        let s = grid_walk(nmax, x, w, top, even_fit(nmax, x, w), 37);
        (s.scale, rneg(s.offset))
    }
}

fn affine_level<R: Real>(nmax: i32, per_unit: R, offset: R, v: R) -> (l: i32)
    requires
        lawful::<R>(),
        0 <= nmax <= 255,
    ensures
        l == offset_level(nmax as int, per_unit, offset, v),
{
    clamp(nearest_int(times(per_unit, minus(v, offset))), 0, nmax)
}

fn affine_error<R: Real>(
    nmax: i32,
    x: &[R],
    weights: &[R],
    per_unit: R,
    from: R,
    scale: R,
    offset: R,
) -> (e: R)
    requires
        lawful::<R>(),
        0 <= nmax <= 255,
        x@.len() <= weights@.len(),
    ensures
        e == offset_error(nmax as int, x@, weights@, per_unit, from, scale, offset, x@.len()),
{
    let mut error = zero::<R>();
    for i in 0..x.len()
        invariant
            lawful::<R>(),
            0 <= nmax <= 255,
            x@.len() <= weights@.len(),
            error == offset_error(
                nmax as int,
                x@,
                weights@,
                per_unit,
                from,
                scale,
                offset,
                i as nat,
            ),
    {
        let l = int_to::<R>(affine_level(nmax, per_unit, from, x[i]));
        let diff = minus(plus(times(scale, l), offset), x[i]);
        error = plus(error, times(times(weights[i], diff), diff));
    }
    error
}

fn affine_sums<R: Real>(nmax: i32, x: &[R], weights: &[R], per_unit: R, from: R) -> (r: (R, R, R))
    requires
        lawful::<R>(),
        0 <= nmax <= 255,
        x@.len() <= weights@.len(),
    ensures
        r == offset_sums(nmax as int, x@, weights@, per_unit, from, x@.len()),
{
    let (mut wl, mut wl2, mut wxl) = (zero::<R>(), zero::<R>(), zero::<R>());
    for i in 0..x.len()
        invariant
            lawful::<R>(),
            0 <= nmax <= 255,
            x@.len() <= weights@.len(),
            (wl, wl2, wxl) == offset_sums(nmax as int, x@, weights@, per_unit, from, i as nat),
    {
        let l = int_to::<R>(affine_level(nmax, per_unit, from, x[i]));
        let k = weights[i];
        wl = plus(wl, times(k, l));
        wl2 = plus(wl2, times(k, times(l, l)));
        wxl = plus(wxl, times(times(k, l), x[i]));
    }
    (wl, wl2, wxl)
}

/// Fit a group to levels `0..=nmax` under `scale * l + min`, and return `(scale, -min)`.
///
/// The minimum a step settles on is carried into the next step's levels, and the grid is rescaled
/// by the new span each time: the search walks, and the order of its steps is part of the answer.
pub fn fit_scale_and_offset<R: Real>(nmax: i32, x: &[R], weights: &[R]) -> (r: (R, R))
    requires
        lawful::<R>(),
        0 <= nmax <= 255,
        0 < x@.len() <= weights@.len(),
    ensures
        r == affine_fit(nmax as int, x@, weights@),
{
    let n: usize = x.len();
    let mut offset = x[0];
    let mut top = x[0];
    let mut w_total = weights[0];
    let mut wx_total = times(weights[0], x[0]);
    for i in 1..n
        invariant
            lawful::<R>(),
            n == x@.len(),
            0 < n <= weights@.len(),
            offset == lowest(x@, (i - 1) as nat),
            top == highest(x@, (i - 1) as nat),
            w_total == weight_total(weights@, (i - 1) as nat),
            wx_total == weighted_total(x@, weights@, (i - 1) as nat),
    {
        if lt(x[i], offset) {
            offset = x[i];
        }
        if lt(top, x[i]) {
            top = x[i];
        }
        w_total = plus(w_total, weights[i]);
        wx_total = plus(wx_total, times(weights[i], x[i]));
    }
    if lt(zero::<R>(), offset) {
        offset = zero::<R>();
    }
    if le(top, offset) {
        return (zero::<R>(), neg(offset));
    }
    let even = over(int_to::<R>(nmax), minus(top, offset));
    let mut scale = over(int_to::<R>(1), even);
    let mut best = affine_error(nmax, x, weights, even, offset, scale, offset);
    let grid_min = from_bits::<R>(0xBF66_6666);
    let grid_inc = from_bits::<R>(0x3D4C_CCCD);
    for step in 0..37i32
        invariant
            lawful::<R>(),
            n == x@.len(),
            0 < n <= weights@.len(),
            0 <= nmax <= 255,
            top == highest(x@, (n - 1) as nat),
            w_total == weight_total(weights@, (n - 1) as nat),
            wx_total == weighted_total(x@, weights@, (n - 1) as nat),
            grid_min == rbits::<R>(0xBF66_6666),
            grid_inc == rbits::<R>(0x3D4C_CCCD),
            (Affine { error: best, scale, offset }) == grid_walk(
                nmax as int,
                x@,
                weights@,
                top,
                even_fit(nmax as int, x@, weights@),
                step as nat,
            ),
    {
        let unit = plus(plus(grid_min, times(grid_inc, int_to::<R>(step))), int_to::<R>(nmax));
        let per_unit = over(unit, minus(top, offset));
        let (wl, wl2, wxl) = affine_sums(nmax, x, weights, per_unit, offset);
        let denom = minus(times(w_total, wl2), times(wl, wl));
        if lt(zero::<R>(), denom) {
            let mut cs = over(minus(times(w_total, wxl), times(wx_total, wl)), denom);
            let mut co = over(minus(times(wl2, wx_total), times(wl, wxl)), denom);
            if lt(zero::<R>(), co) {
                co = zero::<R>();
                cs = over(wxl, wl2);
            }
            let error = affine_error(nmax, x, weights, per_unit, offset, cs, co);
            if lt(error, best) {
                best = error;
                scale = cs;
                offset = co;
            }
        }
    }
    (scale, neg(offset))
}

// -- the second stage: scales quantised in turn --

/// The code of one non-negative value in `0..=nmax`.
pub open spec fn unsigned_level<R: Real>(nmax: u8, inv: R, v: R) -> u8 {
    let q = rround(rmul(inv, v)) as u8;
    if q > nmax {
        nmax
    } else {
        q
    }
}

/// The weighted squared error of the first `n` values under the inverse scale `inv`.
pub open spec fn unsigned_error<R: Real>(nmax: u8, x: Seq<R>, w: Seq<R>, inv: R, n: nat) -> R
    decreases n,
{
    if n == 0 {
        rzero::<R>()
    } else {
        let v = x[n - 1];
        let diff = rsub(
            v,
            rmul(rdiv(rint::<R>(1), inv), rint(unsigned_level(nmax, inv, v) as i32)),
        );
        radd(unsigned_error(nmax, x, w, inv, (n - 1) as nat), rmul(rmul(w[n - 1], diff), diff))
    }
}

/// The inverse scale of the candidate `step` tenths from the widest code.
pub open spec fn unsigned_candidate<R: Real>(nmax: u8, top: R, step: int) -> R {
    rdiv(
        radd(rmul(tenth::<R>(), rint::<R>(step as i32)), rint::<R>(nmax as i32)),
        top,
    )
}

/// The best of the starting inverse scale and the first `k` of the nine candidates from -4 to 4,
/// zero skipped, with its error.
pub open spec fn unsigned_inverse<R: Real>(nmax: u8, x: Seq<R>, w: Seq<R>, k: nat) -> (R, R)
    decreases k,
{
    let top = max_of(rzero::<R>(), x, x.len());
    if k == 0 {
        let inv = rdiv(rint::<R>(nmax as i32), top);
        (inv, unsigned_error(nmax, x, w, inv, x.len()))
    } else {
        let (inv, best) = unsigned_inverse(nmax, x, w, (k - 1) as nat);
        let step = k - 1 - 4;
        let c = unsigned_candidate(nmax, top, step);
        let e = unsigned_error(nmax, x, w, c, x.len());
        if step != 0 && rlt(e, best) {
            (c, e)
        } else {
            (inv, best)
        }
    }
}

/// The two sums over the first `n` values under the inverse scale `inv`.
pub open spec fn unsigned_sums<R: Real>(nmax: u8, x: Seq<R>, w: Seq<R>, inv: R, n: nat) -> Fit<R>
    decreases n,
{
    if n == 0 {
        Fit { wxl: rzero::<R>(), wl2: rzero::<R>() }
    } else {
        let f = unsigned_sums(nmax, x, w, inv, (n - 1) as nat);
        let (v, k) = (x[n - 1], w[n - 1]);
        let c = rint::<R>(unsigned_level(nmax, inv, v) as i32);
        Fit { wxl: radd(f.wxl, rmul(rmul(k, v), c)), wl2: radd(f.wl2, rmul(rmul(k, c), c)) }
    }
}

/// Unsigned codes and the sums they give.
pub struct Codes<R> {
    pub ls: Seq<u8>,
    pub fit: Fit<R>,
}

/// Value `i` taken out of the fit and put back where it fits best, if that raises the objective;
/// and whether it did.
pub open spec fn recoded_at<R: Real>(
    nmax: u8,
    x: Seq<R>,
    w: Seq<R>,
    s: Codes<R>,
    i: int,
) -> (Codes<R>, bool) {
    let (v, k) = (x[i], w[i]);
    let c = rint::<R>(s.ls[i] as i32);
    let wxl = rsub(s.fit.wxl, rmul(rmul(k, v), c));
    let wl2 = rsub(s.fit.wl2, rmul(rmul(k, c), c));
    let q = rround(rdiv(rmul(v, wl2), wxl)) as u8;
    let to = if q > nmax {
        nmax
    } else {
        q
    };
    let t = rint::<R>(to as i32);
    let wxl2 = radd(wxl, rmul(rmul(k, v), t));
    let wl22 = radd(wl2, rmul(rmul(k, t), t));
    if !rle(wxl, rzero::<R>()) && !rle(wl2, rzero::<R>()) && to != s.ls[i] && rlt(
        rmul(rmul(s.fit.wxl, s.fit.wxl), wl22),
        rmul(rmul(wxl2, wxl2), s.fit.wl2),
    ) {
        (Codes { ls: s.ls.update(i, to), fit: Fit { wxl: wxl2, wl2: wl22 } }, true)
    } else {
        (s, false)
    }
}

/// The first `n` values each given one move, and whether any moved.
pub open spec fn recoded<R: Real>(
    nmax: u8,
    x: Seq<R>,
    w: Seq<R>,
    s: Codes<R>,
    n: nat,
) -> (Codes<R>, bool)
    decreases n,
{
    if n == 0 {
        (s, false)
    } else {
        let before = recoded(nmax, x, w, s, (n - 1) as nat);
        let after = recoded_at(nmax, x, w, before.0, n - 1);
        (after.0, before.1 || after.1)
    }
}

/// Sweeps repeated until none moves a value; at most `k` of them.
pub open spec fn recoded_settled<R: Real>(
    nmax: u8,
    x: Seq<R>,
    w: Seq<R>,
    s: Codes<R>,
    k: nat,
) -> Codes<R>
    decreases k,
{
    if k == 0 {
        s
    } else {
        let after = recoded(nmax, x, w, s, x.len());
        if after.1 {
            recoded_settled(nmax, x, w, after.0, (k - 1) as nat)
        } else {
            after.0
        }
    }
}

/// Where the unsigned search ends.
pub open spec fn unsigned_search<R: Real>(nmax: u8, x: Seq<R>, w: Seq<R>) -> Codes<R> {
    let inv = unsigned_inverse(nmax, x, w, 9).0;
    let start = Codes {
        ls: Seq::new(x.len(), |i: int| unsigned_level(nmax, inv, x[i])),
        fit: unsigned_sums(nmax, x, w, inv, x.len()),
    };
    recoded_settled(nmax, x, w, start, 5)
}

/// The scale and codes the unsigned search gives a group; zeros where nothing is positive.
pub open spec fn unsigned_fit<R: Real>(nmax: u8, x: Seq<R>, w: Seq<R>) -> (R, Seq<u8>) {
    if req(max_of(rzero::<R>(), x, x.len()), rzero::<R>()) {
        (rzero::<R>(), Seq::new(x.len(), |i: int| 0u8))
    } else {
        let s = unsigned_search(nmax, x, w);
        (s.fit.scale_of(), s.ls)
    }
}

fn unsigned_code<R: Real>(nmax: u8, inv: R, v: R) -> (q: u8)
    requires
        lawful::<R>(),
    ensures
        q == unsigned_level(nmax, inv, v),
        q <= nmax,
{
    let q: u8 = nearest_int(times(inv, v)) as u8;
    if q > nmax {
        nmax
    } else {
        q
    }
}

fn error_unsigned<R: Real>(nmax: u8, x: &[R], weights: &[R], inv: R) -> (e: R)
    requires
        lawful::<R>(),
        x@.len() <= weights@.len(),
    ensures
        e == unsigned_error(nmax, x@, weights@, inv, x@.len()),
{
    let scale = over(int_to::<R>(1), inv);
    let mut error = zero::<R>();
    for i in 0..x.len()
        invariant
            lawful::<R>(),
            x@.len() <= weights@.len(),
            scale == rdiv(rint::<R>(1), inv),
            error == unsigned_error(nmax, x@, weights@, inv, i as nat),
    {
        let diff = minus(x[i], times(scale, int_to(unsigned_code(nmax, inv, x[i]) as i32)));
        error = plus(error, times(times(weights[i], diff), diff));
    }
    error
}

/// One value's move among unsigned codes; whether it moved.
fn recode_at<R: Real>(
    nmax: u8,
    x: &[R],
    weights: &[R],
    ls: &mut Vec<u8>,
    fit: &mut Fit<R>,
    i: usize,
) -> (moved: bool)
    requires
        lawful::<R>(),
        x@.len() <= weights@.len(),
        old(ls)@.len() == x@.len(),
        i < x@.len(),
        forall|k: int| 0 <= k < x@.len() ==> #[trigger] old(ls)@[k] <= nmax,
    ensures
        (Codes { ls: final(ls)@, fit: *final(fit) }, moved) == recoded_at(
            nmax,
            x@,
            weights@,
            (Codes { ls: old(ls)@, fit: *old(fit) }),
            i as int,
        ),
        final(ls)@.len() == x@.len(),
        forall|k: int| 0 <= k < x@.len() ==> #[trigger] final(ls)@[k] <= nmax,
{
    let (v, k) = (x[i], weights[i]);
    let c = int_to::<R>(ls[i] as i32);
    let kv = times(k, v);
    let wxl = minus(fit.wxl, times(kv, c));
    let wl2 = minus(fit.wl2, times(times(k, c), c));
    if le(wxl, zero::<R>()) || le(wl2, zero::<R>()) {
        return false;
    }
    let q: u8 = nearest_int(over(times(v, wl2), wxl)) as u8;
    let to: u8 = if q > nmax { nmax } else { q };
    if to == ls[i] {
        return false;
    }
    let t = int_to::<R>(to as i32);
    let wxl2 = plus(wxl, times(kv, t));
    let wl22 = plus(wl2, times(times(k, t), t));
    if lt(times(times(fit.wxl, fit.wxl), wl22), times(times(wxl2, wxl2), fit.wl2)) {
        ls[i] = to;
        *fit = Fit { wxl: wxl2, wl2: wl22 };
        true
    } else {
        false
    }
}

/// Fit non-negative values to codes `0..=nmax` with no offset, returning the scale and the codes.
///
/// The second stage of a k-quant block: the sub-block scales are themselves quantised, weighted by
/// how much each sub-block carries.
pub fn fit_unsigned_scale<R: Real>(nmax: u8, x: &[R], weights: &[R]) -> (r: (R, Vec<u8>))
    requires
        lawful::<R>(),
        x@.len() <= weights@.len(),
    ensures
        (r.0, r.1@) == unsigned_fit(nmax, x@, weights@),
        r.1@.len() == x@.len(),
        forall|k: int| 0 <= k < x@.len() ==> #[trigger] r.1@[k] <= nmax,
{
    let n: usize = x.len();
    let top = largest(zero::<R>(), x);
    if eq(top, zero::<R>()) {
        let none: Vec<u8> = filled(0u8, n);
        assert(none@ =~= unsigned_fit(nmax, x@, weights@).1);
        return (zero::<R>(), none);
    }
    let tenth_r = from_bits::<R>(0x3DCC_CCCD);
    let mut inv = over(int_to::<R>(nmax as i32), top);
    let mut best = error_unsigned(nmax, x, weights, inv);
    for k in 0..9usize
        invariant
            lawful::<R>(),
            x@.len() <= weights@.len(),
            tenth_r == tenth::<R>(),
            top == max_of(rzero::<R>(), x@, x@.len()),
            (inv, best) == unsigned_inverse(nmax, x@, weights@, k as nat),
    {
        let step: i32 = k as i32 - 4;
        if step != 0 {
            let cand = over(plus(times(tenth_r, int_to::<R>(step)), int_to::<R>(nmax as i32)), top);
            let e = error_unsigned(nmax, x, weights, cand);
            if lt(e, best) {
                best = e;
                inv = cand;
            }
        }
    }
    let mut fit = Fit { wxl: zero::<R>(), wl2: zero::<R>() };
    let mut ls: Vec<u8> = Vec::with_capacity(n);
    for i in 0..n
        invariant
            lawful::<R>(),
            n == x@.len(),
            x@.len() <= weights@.len(),
            fit == unsigned_sums(nmax, x@, weights@, inv, i as nat),
            ls@.len() == i,
            forall|k: int| 0 <= k < i ==> #[trigger] ls@[k] == unsigned_level(nmax, inv, x@[k]),
            forall|k: int| 0 <= k < i ==> #[trigger] ls@[k] <= nmax,
    {
        let q: u8 = unsigned_code(nmax, inv, x[i]);
        let c = int_to::<R>(q as i32);
        let (v, k) = (x[i], weights[i]);
        fit = Fit {
            wxl: plus(fit.wxl, times(times(k, v), c)),
            wl2: plus(fit.wl2, times(times(k, c), c)),
        };
        ls.push(q);
    }
    assert(ls@ =~= Seq::new(x@.len(), |i: int| unsigned_level(nmax, inv, x@[i])));
    let ghost start = Codes { ls: ls@, fit };
    let mut k: usize = 5;
    while k > 0
        invariant_except_break
            recoded_settled(nmax, x@, weights@, start, 5) == recoded_settled(
                nmax,
                x@,
                weights@,
                (Codes { ls: ls@, fit }),
                k as nat,
            ),
        invariant
            lawful::<R>(),
            n == x@.len(),
            x@.len() <= weights@.len(),
            ls@.len() == x@.len(),
            forall|i: int| 0 <= i < x@.len() ==> #[trigger] ls@[i] <= nmax,
        ensures
            recoded_settled(nmax, x@, weights@, start, 5) == (Codes { ls: ls@, fit }),
        decreases k,
    {
        let ghost s = Codes { ls: ls@, fit };
        let mut moved: bool = false;
        for i in 0..n
            invariant
                lawful::<R>(),
                n == x@.len(),
                x@.len() <= weights@.len(),
                ls@.len() == x@.len(),
                forall|q: int| 0 <= q < x@.len() ==> #[trigger] ls@[q] <= nmax,
                (Codes { ls: ls@, fit }, moved) == recoded(nmax, x@, weights@, s, i as nat),
        {
            let m = recode_at(nmax, x, weights, &mut ls, &mut fit, i);
            moved = moved || m;
        }
        if !moved {
            break;
        }
        k = k - 1;
    }
    (fit.scale(), ls)
}

} // verus!
