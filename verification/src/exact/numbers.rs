//! Carrier values as real numbers, and sums of them.
use vstd::prelude::*;
use crate::arith::{Real, radd, rfma, rint, rmul, rneg, rsub, rzero};
use crate::lanes::lanes_total;
use crate::sums::{fsum, isum};

verus! {

/// `val` reads the carrier's values as real numbers, and its sums and products as theirs.
pub open spec fn exact<R: Real>(val: spec_fn(R) -> real) -> bool {
    &&& val(rzero::<R>()) == 0 as real
    &&& forall|i: i32| #[trigger] val(rint::<R>(i)) == i as real
    &&& forall|a: R, b: R| #[trigger] val(radd(a, b)) == val(a) + val(b)
    &&& forall|a: R, b: R| #[trigger] val(rsub(a, b)) == val(a) - val(b)
    &&& forall|a: R, b: R| #[trigger] val(rmul(a, b)) == val(a) * val(b)
    &&& forall|a: R, b: R, c: R| #[trigger] val(rfma(a, b, c)) == val(a) * val(b) + val(c)
    &&& forall|a: R| #[trigger] val(rneg(a)) == -val(a)
}

/// The magnitude of a number.
pub open spec fn size(x: real) -> real {
    if x < 0 as real {
        -x
    } else {
        x
    }
}

/// The larger of two numbers.
pub open spec fn larger(a: real, b: real) -> real {
    if a < b {
        b
    } else {
        a
    }
}

/// `f(0) + f(1) + ... + f(n - 1)`.
pub open spec fn rsum(n: nat, f: spec_fn(int) -> real) -> real
    decreases n,
{
    if n == 0 {
        0 as real
    } else {
        rsum((n - 1) as nat, f) + f(n - 1)
    }
}

/// A carrier sum is the sum of its terms' numbers.
pub proof fn lemma_fsum_val<R: Real>(val: spec_fn(R) -> real, n: nat, f: spec_fn(int) -> R)
    requires
        exact(val),
    ensures
        val(fsum(n, f)) == rsum(n, |i: int| val(f(i))),
    decreases n,
{
    if n > 0 {
        lemma_fsum_val(val, (n - 1) as nat, f);
    }
}

/// A sum depends on its terms alone.
pub proof fn lemma_rsum_eq(n: nat, f: spec_fn(int) -> real, g: spec_fn(int) -> real)
    requires
        forall|i: int| 0 <= i < n ==> #[trigger] f(i) == g(i),
    ensures
        rsum(n, f) == rsum(n, g),
    decreases n,
{
    if n > 0 {
        lemma_rsum_eq((n - 1) as nat, f, g);
        assert(f(n - 1) == g(n - 1));
    }
}

/// Integers sum to their integer sum.
pub proof fn lemma_rsum_int(n: nat, g: spec_fn(int) -> int)
    ensures
        rsum(n, |i: int| g(i) as real) == isum(n, g) as real,
    decreases n,
{
    if n > 0 {
        lemma_rsum_int((n - 1) as nat, g);
    }
}

/// A constant factor moves out of a sum.
pub proof fn lemma_rsum_scale(n: nat, k: real, f: spec_fn(int) -> real)
    ensures
        rsum(n, |i: int| k * f(i)) == k * rsum(n, f),
    decreases n,
{
    let s = rsum(n, f);
    if n > 0 {
        lemma_rsum_scale((n - 1) as nat, k, f);
        let (a, b) = (rsum((n - 1) as nat, f), f(n - 1));
        assert(k * (a + b) == k * a + k * b) by (nonlinear_arith);
    } else {
        assert(k * s == s) by (nonlinear_arith)
            requires
                s == 0 as real,
        ;
    }
}

/// Two sums over the same range add term by term.
pub proof fn lemma_rsum_plus(n: nat, f: spec_fn(int) -> real, g: spec_fn(int) -> real)
    ensures
        rsum(n, |i: int| f(i) + g(i)) == rsum(n, f) + rsum(n, g),
    decreases n,
{
    if n > 0 {
        lemma_rsum_plus((n - 1) as nat, f, g);
    }
}

/// A sum of `n + m` terms is the sum of the first `n` and of the last `m`.
pub proof fn lemma_rsum_split(n: nat, m: nat, f: spec_fn(int) -> real)
    ensures
        rsum(n + m, f) == rsum(n, f) + rsum(m, |i: int| f(n + i)),
    decreases m,
{
    if m > 0 {
        lemma_rsum_split(n, (m - 1) as nat, f);
    }
}

/// A sum of `n * m` terms is the sum of its `n` runs of `m`.
pub proof fn lemma_rsum_runs(n: nat, m: nat, f: spec_fn(int) -> real)
    ensures
        rsum(n * m, f) == rsum(n, |c: int| rsum(m, |t: int| f(c * m + t))),
    decreases n,
{
    if n > 0 {
        let k = (n - 1) as nat;
        lemma_rsum_runs(k, m, f);
        assert(n * m == k * m + m) by (nonlinear_arith)
            requires
                n == k + 1,
        ;
        lemma_rsum_split(k * m, m, f);
        lemma_rsum_eq(m, |i: int| f(k * m + i), |t: int| f((n - 1) * m + t));
    } else {
        assert(0 * m == 0) by (nonlinear_arith);
    }
}

/// The eight lanes fold to their sum.
pub proof fn lemma_lanes_fold<R: Real>(val: spec_fn(R) -> real, v: Seq<R>)
    requires
        exact(val),
    ensures
        val(lanes_total(v)) == val(v[0]) + val(v[1]) + val(v[2]) + val(v[3]) + val(v[4]) + val(v[5])
            + val(v[6]) + val(v[7]),
{
}

/// Eight integers under one factor.
pub proof fn lemma_eight(d: real, i: spec_fn(int) -> int, total: int)
    requires
        total == i(0) + i(1) + i(2) + i(3) + i(4) + i(5) + i(6) + i(7),
    ensures
        d * (i(0) as real) + d * (i(1) as real) + d * (i(2) as real) + d * (i(3) as real) + d * (i(
            4,
        ) as real) + d * (i(5) as real) + d * (i(6) as real) + d * (i(7) as real) == d * (
        total as real),
{
    let (a, b, c, e, f, g, h, k) = (i(0), i(1), i(2), i(3), i(4), i(5), i(6), i(7));
    assert(d * (a as real) + d * (b as real) + d * (c as real) + d * (e as real) + d * (f as real)
        + d * (g as real) + d * (h as real) + d * (k as real) == d * (total as real))
        by (nonlinear_arith)
        requires
            total == a + b + c + e + f + g + h + k,
    ;
}

} // verus!
