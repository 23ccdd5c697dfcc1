//! Finite sums, of integers and of carrier values, and the facts the kernels use of them.
use vstd::prelude::*;
use crate::arith::{Real, lawful, radd, rzero, plus, zero};

verus! {

/// `f(0) + f(1) + ... + f(n - 1)`, exactly.
pub open spec fn isum(n: nat, f: spec_fn(int) -> int) -> int
    decreases n,
{
    if n == 0 {
        0
    } else {
        isum((n - 1) as nat, f) + f(n - 1)
    }
}

/// `((0 + f(0)) + f(1)) + ... + f(n - 1)`, left to right in the carrier.
pub open spec fn fsum<R: Real>(n: nat, f: spec_fn(int) -> R) -> R
    decreases n,
{
    if n == 0 {
        rzero::<R>()
    } else {
        radd(fsum((n - 1) as nat, f), f(n - 1))
    }
}

/// A sum depends on its terms alone.
pub proof fn lemma_isum_eq(n: nat, f: spec_fn(int) -> int, g: spec_fn(int) -> int)
    requires
        forall|i: int| 0 <= i < n ==> #[trigger] f(i) == g(i),
    ensures
        isum(n, f) == isum(n, g),
    decreases n,
{
    if n > 0 {
        lemma_isum_eq((n - 1) as nat, f, g);
        assert(f(n - 1) == g(n - 1));
    }
}

/// A carrier sum depends on its terms alone.
pub proof fn lemma_fsum_eq<R: Real>(n: nat, f: spec_fn(int) -> R, g: spec_fn(int) -> R)
    requires
        forall|i: int| 0 <= i < n ==> #[trigger] f(i) == g(i),
    ensures
        fsum(n, f) == fsum(n, g),
    decreases n,
{
    if n > 0 {
        lemma_fsum_eq((n - 1) as nat, f, g);
        assert(f(n - 1) == g(n - 1));
    }
}

/// Terms of magnitude at most `b` sum to at most `n * b`.
pub proof fn lemma_isum_bound(n: nat, f: spec_fn(int) -> int, b: int)
    requires
        forall|i: int| 0 <= i < n ==> -b <= #[trigger] f(i) <= b,
    ensures
        -(n * b) <= isum(n, f) <= n * b,
    decreases n,
{
    if n > 0 {
        lemma_isum_bound((n - 1) as nat, f, b);
        assert(-b <= f(n - 1) <= b);
        assert(n * b == (n - 1) * b + b) by (nonlinear_arith);
    } else {
        assert(n * b == 0) by (nonlinear_arith)
            requires
                n == 0,
        ;
    }
}

/// Two sums over the same range add term by term.
pub proof fn lemma_isum_plus(n: nat, f: spec_fn(int) -> int, g: spec_fn(int) -> int)
    ensures
        isum(n, f) + isum(n, g) == isum(n, |i: int| f(i) + g(i)),
    decreases n,
{
    if n > 0 {
        lemma_isum_plus((n - 1) as nat, f, g);
    }
}

/// A constant factor moves out of a sum.
pub proof fn lemma_isum_scale(n: nat, k: int, f: spec_fn(int) -> int)
    ensures
        isum(n, |i: int| k * f(i)) == k * isum(n, f),
    decreases n,
{
    if n > 0 {
        lemma_isum_scale((n - 1) as nat, k, f);
        let s = isum((n - 1) as nat, f);
        let t = f(n - 1);
        assert(k * (s + t) == k * s + k * t) by (nonlinear_arith);
    } else {
        assert(k * 0 == 0) by (nonlinear_arith);
    }
}

/// A sum over `n + m` terms is the sum of the first `n` and of the last `m`.
pub proof fn lemma_isum_split(n: nat, m: nat, f: spec_fn(int) -> int)
    ensures
        isum(n + m, f) == isum(n, f) + isum(m, |i: int| f(n + i)),
    decreases m,
{
    if m > 0 {
        lemma_isum_split(n, (m - 1) as nat, f);
    }
}

/// A sum of `n * m` terms is the sum of its `n` runs of `m`.
pub proof fn lemma_isum_runs(n: nat, m: nat, f: spec_fn(int) -> int)
    ensures
        isum(n * m, f) == isum(n, |c: int| isum(m, |t: int| f(c * m + t))),
    decreases n,
{
    let g = |c: int| isum(m, |t: int| f(c * m + t));
    if n > 0 {
        lemma_isum_runs((n - 1) as nat, m, f);
        assert(n * m == (n - 1) * m + m) by (nonlinear_arith);
        lemma_isum_split(((n - 1) * m) as nat, m, f);
        lemma_isum_eq(m, |i: int| f((n - 1) * m + i), |t: int| f((n - 1) * m + t));
        assert(g(n - 1) == isum(m, |t: int| f((n - 1) * m + t)));
    } else {
        assert(n * m == 0) by (nonlinear_arith)
            requires
                n == 0,
        ;
    }
}

/// `x[0] * y[0] + ... + x[n - 1] * y[n - 1]`.
pub open spec fn dot_codes(n: nat, x: Seq<i8>, y: Seq<i8>) -> int {
    isum(n, |i: int| x[i] * y[i])
}

/// The integer dot product of two runs of eight-bit codes, which no run this short can overflow.
pub fn dot_i8(x: &[i8], y: &[i8], n: usize) -> (r: i32)
    requires
        n <= x@.len(),
        n <= y@.len(),
        n <= 0x1_0000,
    ensures
        r == dot_codes(n as nat, x@, y@),
        -(n * 16384) <= r <= n * 16384,
{
    let ghost f = |i: int| x@[i] * y@[i];
    let mut sum: i32 = 0;
    for i in 0..n
        invariant
            n <= x@.len(),
            n <= y@.len(),
            n <= 0x1_0000,
            f == (|i: int| x@[i] * y@[i]),
            sum == isum(i as nat, f),
            -(i * 16384) <= sum <= i * 16384,
    {
        let a: i32 = x[i] as i32;
        let b: i32 = y[i] as i32;
        assert(-16384 <= a * b <= 16384) by (nonlinear_arith)
            requires
                -128 <= a <= 127,
                -128 <= b <= 127,
        ;
        assert(f(i as int) == a * b);
        sum = sum + a * b;
    }
    sum
}

/// A vector of `n` copies of `x`.
pub fn filled<T: Copy>(x: T, n: usize) -> (v: Vec<T>)
    ensures
        v@.len() == n,
        forall|i: int| 0 <= i < n ==> v@[i] == x,
{
    let mut v: Vec<T> = Vec::with_capacity(n);
    for i in 0..n
        invariant
            v@.len() == i,
            forall|j: int| 0 <= j < i ==> v@[j] == x,
    {
        v.push(x);
    }
    v
}

/// The carrier sum of a slice, left to right.
pub fn sum_slice<R: Real>(x: &[R]) -> (r: R)
    requires
        lawful::<R>(),
    ensures
        r == fsum(x@.len(), |i: int| x@[i]),
{
    let ghost f = |i: int| x@[i];
    let mut acc = zero::<R>();
    for i in 0..x.len()
        invariant
            lawful::<R>(),
            f == (|i: int| x@[i]),
            acc == fsum(i as nat, f),
    {
        acc = plus(acc, x[i]);
        assert(f(i as int) == x@[i as int]);
    }
    acc
}

} // verus!
