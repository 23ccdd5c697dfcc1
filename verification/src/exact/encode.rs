//! What encoding keeps of a value: each format's block, read back, against the values it was made
//! from.
use vstd::prelude::*;
use crate::arith::{Real, req, rhalf, rinf, rint, rmax, rmin, rmul, rneg, rround, rto_half, rzero};
use crate::blocks::Quantized;
use crate::exact::decode::{
    q4_0_reads, q4_1_reads, q5_0_reads, q5_1_reads, q8_0_reads, q8_1_reads, q8k_reads,
};
use crate::exact::fit::ordered;
use crate::exact::numbers::{larger, size};
use crate::exact::roundtrip::{
    lemma_amax, lemma_extreme, nearest_is_true, peak_is_true, q8k_comes_back, wide_byte_is_true,
};
use crate::format::q4_0::{BlockQ4_0, nibble_of, signed_code, signed_scale};
use crate::format::q4_1::{BlockQ4_1, block_max, span_code, span_scale};
use crate::format::q5_0::{BlockQ5_0, code5_of};
use crate::format::q5_1::BlockQ5_1;
use crate::format::q8_0::{BlockQ8_0, byte_code, byte_scale};
use crate::format::q8_1::BlockQ8_1;
use crate::format::q8_k::{BlockQ8K, bsum_of, q8k_inverse};
use crate::scale::{amax_of, extreme_of, max_of, min_of, reciprocal_of};
use crate::sums::isum;

verus! {

/// An ordered reading that also reads the lesser and the larger of two values as they are.
pub open spec fn ranked<R: Real>(val: spec_fn(R) -> real) -> bool {
    &&& ordered(val)
    &&& forall|a: R, b: R| #[trigger] val(rmax(a, b)) == larger(val(a), val(b))
    &&& forall|a: R, b: R|
        #[trigger] val(rmin(a, b)) == (if val(b) < val(a) {
            val(b)
        } else {
            val(a)
        })
}

/// `m` is the largest magnitude among the values.
pub open spec fn tallest<R: Real>(val: spec_fn(R) -> real, x: Seq<R>, m: real) -> bool {
    &&& forall|i: int| 0 <= i < x.len() ==> size(val(#[trigger] x[i])) <= m
    &&& exists|i: int| 0 <= i < x.len() && size(val(#[trigger] x[i])) == m
}

/// The values run from `lo` to `hi`.
pub open spec fn spans<R: Real>(val: spec_fn(R) -> real, x: Seq<R>, lo: real, hi: real) -> bool {
    &&& forall|i: int| 0 <= i < x.len() ==> lo <= val(#[trigger] x[i]) <= hi
    &&& exists|i: int| 0 <= i < x.len() && val(#[trigger] x[i]) == lo
    &&& exists|i: int| 0 <= i < x.len() && val(#[trigger] x[i]) == hi
}

/// Half precision holds the number `y`.
pub open spec fn half_holds<R: Real>(val: spec_fn(R) -> real, y: real) -> bool {
    forall|r: R|
        val(r) == y ==> val(rhalf::<R>(#[trigger] rto_half::<R>(r))) == y
}

/// Half precision holds both numbers of which `k` make up `m`.
pub open spec fn half_holds_part<R: Real>(val: spec_fn(R) -> real, k: real, m: real) -> bool {
    forall|r: R|
        k * size(val(r)) == m ==> val(rhalf::<R>(#[trigger] rto_half::<R>(r))) == val(r)
}

/// `p` steps of `s` make `y`.
pub open spec fn steps_to(p: real, s: real, y: real) -> bool {
    p * s == y
}

/// A magnitude times a magnitude.
proof fn lemma_sizes(a: real, s: real)
    ensures
        size(a * s) == size(a) * size(s),
{
    let (t, u) = (size(a), size(s));
    assert(size(a * s) == t * u) by (nonlinear_arith)
        requires
            a >= 0 as real && t == a || a < 0 as real && t == -a,
            s >= 0 as real && u == s || s < 0 as real && u == -s,
    ;
}

/// At most `c` of something.
proof fn lemma_at_most(a: real, s: real, c: real)
    requires
        size(a) <= c,
    ensures
        size(a * s) <= c * size(s),
{
    lemma_sizes(a, s);
    let (t, u) = (size(a), size(s));
    assert(t * u <= c * u) by (nonlinear_arith)
        requires
            t <= c,
            u >= 0 as real,
    ;
}

/// A product with nothing.
proof fn lemma_nought(a: real, s: real)
    requires
        s == 0 as real,
    ensures
        a * s == 0 as real,
        s * a == 0 as real,
{
    assert(a * s == 0 as real && s * a == 0 as real) by (nonlinear_arith)
        requires
            s == 0 as real,
    ;
}

/// No more steps than the largest value takes.
proof fn lemma_in_reach(p: real, s: real, xv: real, k: real)
    requires
        s != 0 as real,
        p * s == xv,
        size(xv) <= k * size(s),
    ensures
        size(p) <= k,
{
    lemma_sizes(p, s);
    let (t, u) = (size(p), size(s));
    if t > k {
        assert(t * u > k * u) by (nonlinear_arith)
            requires
                t > k,
                u > 0 as real,
        ;
    }
}

/// Something times a number is one number.
proof fn lemma_divides(a: real, b: real, s: real)
    requires
        s != 0 as real,
        a * s == b * s,
    ensures
        a == b,
{
    assert(a == b) by (nonlinear_arith)
        requires
            s != 0 as real,
            a * s == b * s,
    ;
}

/// The extreme is a value of the run, or nothing of an empty one.
proof fn lemma_extreme_found<R: Real>(x: Seq<R>, n: nat)
    requires
        n <= x.len(),
    ensures
        extreme_of(x, n) == rzero::<R>() || exists|i: int|
            0 <= i < n && #[trigger] x[i] == extreme_of(x, n),
    decreases n,
{
    if n > 0 {
        lemma_extreme_found(x, (n - 1) as nat);
        if extreme_of(x, n) == x[n - 1] {
            assert(x[n - 1] == extreme_of(x, n));
        } else if extreme_of(x, (n - 1) as nat) != rzero::<R>() {
            let i = choose|i: int|
                0 <= i < n - 1 && #[trigger] x[i] == extreme_of(x, (n - 1) as nat);
            assert(x[i] == extreme_of(x, n));
        }
    }
}

/// The extreme is of the largest magnitude.
pub(crate) proof fn lemma_extreme_size<R: Real>(val: spec_fn(R) -> real, x: Seq<R>, m: real)
    requires
        ordered(val),
        tallest(val, x, m),
        x.len() > 0,
    ensures
        size(val(extreme_of(x, x.len()))) == m,
{
    let i = choose|i: int| 0 <= i < x.len() && size(val(#[trigger] x[i])) == m;
    lemma_extreme(val, x, x.len(), i);
    lemma_extreme_found(x, x.len());
    assert(val(rzero::<R>()) == 0 as real);
    let t = extreme_of(x, x.len());
    if t != rzero::<R>() {
        let j = choose|j: int| 0 <= j < x.len() && #[trigger] x[j] == t;
        assert(size(val(x[j])) <= m);
    }
}

/// The biased code of a value, read back: within a step of it, and within half a step where the
/// codes reach it.
proof fn lemma_signed<R: Real>(val: spec_fn(R) -> real, x: Seq<R>, e: int, k: i32, m: real)
    requires
        ordered(val),
        x.len() == 32,
        tallest(val, x, m),
        0 <= e < 32,
        k == 8 || k == 16,
    ensures
        ({
            let s = val(signed_scale(x, k));
            let c = signed_code(x[e], reciprocal_of(signed_scale(x, k)), k, 2 * k - 1);
            let miss = (c - k) as real * s - val(x[e]);
            &&& (k as real) * size(s) == m
            &&& size(miss) <= size(s)
            &&& forall|p: real|
                #[trigger] steps_to(p, s, val(x[e])) && p <= (k - 1) as real ==> 2 as real * size(miss)
                    <= size(s)
        }),
{
    let d = signed_scale(x, k);
    let s = val(d);
    let kr = k as real;
    let far = val(extreme_of(x, 32));
    lemma_extreme_size(val, x, m);
    let div = rneg(rint::<R>(k));
    assert(val(div) == -kr);
    assert(s * (-kr) == far);
    lemma_sizes(s, -kr);
    assert(size(s) * kr == kr * size(s)) by (nonlinear_arith);
    let xv = val(x[e]);
    assert(size(val(x[e])) <= m);
    let inv = reciprocal_of(d);
    let v = rmul(x[e], inv);
    let c = signed_code(x[e], inv, k, 2 * k - 1);
    let miss = (c - k) as real * s - xv;
    if s == 0 as real {
        lemma_nought(kr, size(s));
        lemma_nought((c - k) as real, s);
        assert(xv == 0 as real);
    } else {
        let i = val(inv);
        assert(req(d, rzero::<R>()) == (s == 0 as real));
        assert(i * s == 1 as real);
        let p = val(v);
        assert(p == xv * i);
        assert(p * s == xv) by (nonlinear_arith)
            requires
                p == xv * i,
                i * s == 1 as real,
        ;
        lemma_in_reach(p, s, xv, kr);
        let w = crate::arith::radd(v, rint::<R>(k));
        assert(val(w) == p + kr);
        let r = rround(w);
        assert(-1 as real <= 2 as real * (r as real - val(w)) <= 1 as real);
        assert(0 <= r <= 2 * k);
        let a = (c - k) as real;
        let gap = a - p;
        assert(gap * s == a * s - p * s) by (nonlinear_arith)
            requires
                gap == a - p,
        ;
        assert(gap * s == miss);
        if r <= 2 * k - 1 {
            assert(c == r);
            let two = 2 as real * gap;
            assert(size(two) <= 1 as real);
            lemma_at_most(two, s, 1 as real);
            assert(two * s == 2 as real * (gap * s)) by (nonlinear_arith)
                requires
                    two == 2 as real * gap,
            ;
        } else {
            assert(c == 2 * k - 1);
            assert(size(gap) <= 1 as real);
            lemma_at_most(gap, s, 1 as real);
        }
        assert forall|o: real| #[trigger] steps_to(o, s, xv) && o <= (k - 1) as real implies 2 as real
            * size(miss) <= size(s) by {
            lemma_divides(o, p, s);
        }
    }
}

/// q4_0: the scale is an eighth of the largest magnitude, and every value comes back within one
/// step of itself, within half a step where it is at most seven steps on the far side of the
/// largest; where half precision holds the scale and nothing else but the codes is rounded.
pub proof fn q4_0_comes_back<R: Real>(
    val: spec_fn(R) -> real,
    x: Seq<R>,
    m: real,
    b: BlockQ4_0,
    e: int,
)
    requires
        ordered(val),
        x.len() == 32,
        tallest(val, x, m),
        half_holds_part(val, 8 as real, m),
        <BlockQ4_0 as Quantized<R>>::encodes(x, b),
        0 <= e < 32,
    ensures
        ({
            let s = val(rhalf::<R>(b.d));
            let miss = val(<BlockQ4_0 as Quantized<R>>::value(b, e)) - val(x[e]);
            &&& 8 as real * size(s) == m
            &&& size(miss) <= size(s)
            &&& forall|p: real|
                #[trigger] steps_to(p, s, val(x[e])) && p <= 7 as real ==> 2 as real * size(miss)
                    <= size(s)
        }),
{
    lemma_signed(val, x, e, 8, m);
    q4_0_reads(val, b, e);
    assert(nibble_of(b.qs@, e) == signed_code(x[e], reciprocal_of(signed_scale(x, 8)), 8, 15));
    assert(val(rhalf::<R>(rto_half::<R>(signed_scale(x, 8)))) == val(signed_scale(x, 8)));
}

/// q5_0: the scale is a sixteenth of the largest magnitude; otherwise as for q4_0, with fifteen
/// steps on the far side.
pub proof fn q5_0_comes_back<R: Real>(
    val: spec_fn(R) -> real,
    x: Seq<R>,
    m: real,
    b: BlockQ5_0,
    e: int,
)
    requires
        ordered(val),
        x.len() == 32,
        tallest(val, x, m),
        half_holds_part(val, 16 as real, m),
        <BlockQ5_0 as Quantized<R>>::encodes(x, b),
        0 <= e < 32,
    ensures
        ({
            let s = val(rhalf::<R>(b.d));
            let miss = val(<BlockQ5_0 as Quantized<R>>::value(b, e)) - val(x[e]);
            &&& 16 as real * size(s) == m
            &&& size(miss) <= size(s)
            &&& forall|p: real|
                #[trigger] steps_to(p, s, val(x[e])) && p <= 15 as real ==> 2 as real * size(miss)
                    <= size(s)
        }),
{
    lemma_signed(val, x, e, 16, m);
    q5_0_reads(val, b, e);
    assert(code5_of(b.qh@, b.qs@, e) == signed_code(
        x[e],
        reciprocal_of(signed_scale(x, 16)),
        16,
        31,
    ));
    assert(val(rhalf::<R>(rto_half::<R>(signed_scale(x, 16)))) == val(signed_scale(x, 16)));
}

// -- a minimum and a step --

/// The smallest of a run, read.
proof fn lemma_lowest<R: Real>(val: spec_fn(R) -> real, x: Seq<R>, n: nat)
    requires
        ranked(val),
        n <= x.len(),
    ensures
        val(min_of(x, n)) <= val(rinf::<R>()),
        forall|i: int| 0 <= i < n ==> val(min_of(x, n)) <= val(#[trigger] x[i]),
        val(min_of(x, n)) == val(rinf::<R>()) || exists|i: int|
            0 <= i < n && val(#[trigger] x[i]) == val(min_of(x, n)),
    decreases n,
{
    if n > 0 {
        lemma_lowest(val, x, (n - 1) as nat);
        let was = min_of(x, (n - 1) as nat);
        assert(val(rmin(was, x[n - 1])) == val(min_of(x, n)));
        if val(min_of(x, n)) == val(x[n - 1]) {
            assert(val(x[n - 1]) == val(min_of(x, n)));
        } else if val(was) != val(rinf::<R>()) {
            let i = choose|i: int| 0 <= i < n - 1 && val(#[trigger] x[i]) == val(was);
            assert(val(x[i]) == val(min_of(x, n)));
        }
    }
}

/// The largest of a run, read.
proof fn lemma_highest<R: Real>(val: spec_fn(R) -> real, start: R, x: Seq<R>, n: nat)
    requires
        ranked(val),
        n <= x.len(),
    ensures
        val(start) <= val(max_of(start, x, n)),
        forall|i: int| 0 <= i < n ==> val(#[trigger] x[i]) <= val(max_of(start, x, n)),
        val(max_of(start, x, n)) == val(start) || exists|i: int|
            0 <= i < n && val(#[trigger] x[i]) == val(max_of(start, x, n)),
    decreases n,
{
    if n > 0 {
        lemma_highest(val, start, x, (n - 1) as nat);
        let was = max_of(start, x, (n - 1) as nat);
        assert(val(rmax(was, x[n - 1])) == val(max_of(start, x, n)));
        if val(max_of(start, x, n)) == val(x[n - 1]) {
            assert(val(x[n - 1]) == val(max_of(start, x, n)));
        } else if val(was) != val(start) {
            let i = choose|i: int| 0 <= i < n - 1 && val(#[trigger] x[i]) == val(was);
            assert(val(x[i]) == val(max_of(start, x, n)));
        }
    }
}

/// The code of a value over the minimum, read back: within half a step of it.
proof fn lemma_span<R: Real>(
    val: spec_fn(R) -> real,
    x: Seq<R>,
    e: int,
    top: i32,
    lo: real,
    hi: real,
)
    requires
        ranked(val),
        x.len() == 32,
        spans(val, x, lo, hi),
        -val(rinf::<R>()) <= lo,
        hi <= val(rinf::<R>()),
        0 <= e < 32,
        top == 15 || top == 31,
    ensures
        ({
            let s = val(span_scale(x, top));
            let c = span_code(
                x[e],
                min_of(x, 32),
                reciprocal_of(span_scale(x, top)),
                top as int,
            );
            &&& top as real * s == hi - lo
            &&& val(min_of(x, 32)) == lo
            &&& 2 as real * size(c as real * s + lo - val(x[e])) <= s
        }),
{
    let d = span_scale(x, top);
    let (s, tr) = (val(d), top as real);
    lemma_lowest(val, x, 32);
    lemma_highest(val, rneg(rinf::<R>()), x, 32);
    let i0 = choose|i: int| 0 <= i < x.len() && val(#[trigger] x[i]) == lo;
    let i1 = choose|i: int| 0 <= i < x.len() && val(#[trigger] x[i]) == hi;
    assert(val(x[i0]) == lo && val(x[i1]) == hi);
    if val(min_of(x, 32)) != val(rinf::<R>()) {
        let j = choose|j: int| 0 <= j < 32 && val(#[trigger] x[j]) == val(min_of(x, 32));
        assert(lo <= val(x[j]));
    }
    if val(block_max(x)) != val(rneg(rinf::<R>())) {
        let j = choose|j: int| 0 <= j < 32 && val(#[trigger] x[j]) == val(block_max(x));
        assert(val(x[j]) <= hi);
    }
    assert(val(min_of(x, 32)) == lo);
    assert(val(block_max(x)) == hi);
    assert(val(rint::<R>(top)) == tr);
    assert(s * tr == hi - lo);
    assert(tr * s == s * tr) by (nonlinear_arith);
    let xv = val(x[e]);
    assert(lo <= val(x[e]) <= hi);
    let inv = reciprocal_of(d);
    let above = crate::arith::rsub(x[e], min_of(x, 32));
    let v = rmul(above, inv);
    let c = span_code(x[e], min_of(x, 32), inv, top as int);
    assert(s >= 0 as real) by {
        if s < 0 as real {
            assert(s * tr < 0 as real) by (nonlinear_arith)
                requires
                    s < 0 as real,
                    tr > 0 as real,
            ;
        }
    }
    if s == 0 as real {
        lemma_nought(tr, s);
        lemma_nought(c as real, s);
    } else {
        let i = val(inv);
        assert(req(d, rzero::<R>()) == (s == 0 as real));
        assert(i * s == 1 as real);
        let (p, far) = (val(v), xv - lo);
        assert(p == far * i);
        assert(p * s == far) by (nonlinear_arith)
            requires
                p == far * i,
                i * s == 1 as real,
        ;
        lemma_in_reach(p, s, far, tr);
        assert(p >= 0 as real) by {
            if p < 0 as real {
                assert(p * s < 0 as real) by (nonlinear_arith)
                    requires
                        p < 0 as real,
                        s > 0 as real,
                ;
            }
        }
        let r = rround(v);
        assert(-1 as real <= 2 as real * (r as real - p) <= 1 as real);
        assert(0 <= r <= top);
        assert(c == r);
        let cr = c as real;
        let gap = cr - p;
        let two = 2 as real * gap;
        lemma_at_most(two, s, 1 as real);
        assert(two * s == 2 as real * (cr * s - p * s)) by (nonlinear_arith)
            requires
                two == 2 as real * gap,
                gap == cr - p,
        ;
    }
}

/// q4_1: the minimum is the smallest value, fifteen steps reach from it to the largest, and every
/// value comes back within half a step; where half precision holds the step and the minimum and
/// nothing else but the codes is rounded.
pub proof fn q4_1_comes_back<R: Real>(
    val: spec_fn(R) -> real,
    x: Seq<R>,
    lo: real,
    hi: real,
    b: BlockQ4_1,
    e: int,
)
    requires
        ranked(val),
        x.len() == 32,
        spans(val, x, lo, hi),
        -val(rinf::<R>()) <= lo,
        hi <= val(rinf::<R>()),
        half_holds_part(val, 15 as real, hi - lo),
        half_holds(val, lo),
        <BlockQ4_1 as Quantized<R>>::encodes(x, b),
        0 <= e < 32,
    ensures
        15 as real * val(rhalf::<R>(b.d)) == hi - lo,
        val(rhalf::<R>(b.m)) == lo,
        2 as real * size(val(<BlockQ4_1 as Quantized<R>>::value(b, e)) - val(x[e])) <= val(
            rhalf::<R>(b.d),
        ),
{
    lemma_span(val, x, e, 15, lo, hi);
    q4_1_reads(val, b, e);
    let d = span_scale(x, 15);
    assert(nibble_of(b.qs@, e) == span_code(x[e], min_of(x, 32), reciprocal_of(d), 15));
    assert(0 as real <= val(d));
    assert(val(rhalf::<R>(rto_half::<R>(d))) == val(d));
    assert(val(rhalf::<R>(rto_half::<R>(min_of(x, 32)))) == lo);
}

/// q5_1: likewise, in thirty-one steps.
pub proof fn q5_1_comes_back<R: Real>(
    val: spec_fn(R) -> real,
    x: Seq<R>,
    lo: real,
    hi: real,
    b: BlockQ5_1,
    e: int,
)
    requires
        ranked(val),
        x.len() == 32,
        spans(val, x, lo, hi),
        -val(rinf::<R>()) <= lo,
        hi <= val(rinf::<R>()),
        half_holds_part(val, 31 as real, hi - lo),
        half_holds(val, lo),
        <BlockQ5_1 as Quantized<R>>::encodes(x, b),
        0 <= e < 32,
    ensures
        31 as real * val(rhalf::<R>(b.d)) == hi - lo,
        val(rhalf::<R>(b.m)) == lo,
        2 as real * size(val(<BlockQ5_1 as Quantized<R>>::value(b, e)) - val(x[e])) <= val(
            rhalf::<R>(b.d),
        ),
{
    lemma_span(val, x, e, 31, lo, hi);
    q5_1_reads(val, b, e);
    let d = span_scale(x, 31);
    assert(code5_of(b.qh@, b.qs@, e) == span_code(x[e], min_of(x, 32), reciprocal_of(d), 31));
    assert(0 as real <= val(d));
    assert(val(rhalf::<R>(rto_half::<R>(d))) == val(d));
    assert(val(rhalf::<R>(rto_half::<R>(min_of(x, 32)))) == lo);
}

// -- bytes --

/// The largest magnitude of a run, read.
proof fn lemma_peak<R: Real>(val: spec_fn(R) -> real, x: Seq<R>, n: nat, m: real)
    requires
        ranked(val),
        n <= x.len(),
        forall|i: int| 0 <= i < x.len() ==> size(val(#[trigger] x[i])) <= m,
        0 as real <= m,
    ensures
        val(amax_of(x, n)) <= m,
        peak_is_true(val, x),
    decreases n,
{
    if n > 0 {
        lemma_peak(val, x, (n - 1) as nat, m);
        assert(size(val(x[n - 1])) <= m);
    }
}

/// The byte of a value, read back: within half a step of it.
proof fn lemma_byte_back<R: Real>(val: spec_fn(R) -> real, x: Seq<R>, e: int, m: real)
    requires
        ranked(val),
        x.len() == 32,
        tallest(val, x, m),
        0 <= e < 32,
    ensures
        ({
            let s = val(byte_scale(x));
            let c = byte_code(x[e], reciprocal_of(byte_scale(x)));
            &&& 127 as real * s == m
            &&& 0 as real <= s
            &&& 2 as real * size(c as real * s - val(x[e])) <= s
        }),
{
    let i0 = choose|i: int| 0 <= i < x.len() && size(val(#[trigger] x[i])) == m;
    assert(size(val(x[i0])) == m);
    lemma_peak(val, x, 32, m);
    lemma_amax(val, x, 32, i0);
    assert(val(amax_of(x, 32)) == m);
    let d = byte_scale(x);
    let (s, k) = (val(d), 127 as real);
    assert(val(rint::<R>(127)) == k);
    assert(s * k == m);
    assert(k * s == s * k) by (nonlinear_arith);
    assert(s >= 0 as real) by {
        if s < 0 as real {
            assert(s * k < 0 as real) by (nonlinear_arith)
                requires
                    s < 0 as real,
                    k > 0 as real,
            ;
        }
    }
    let xv = val(x[e]);
    assert(size(val(x[e])) <= m);
    let inv = reciprocal_of(d);
    let v = rmul(x[e], inv);
    let (p, i) = (val(v), val(inv));
    assert(p == xv * i);
    let c = byte_code(x[e], inv);
    if s == 0 as real {
        lemma_nought(k, s);
        lemma_nought(c as real, s);
    } else {
        assert(req(d, rzero::<R>()) == (s == 0 as real));
        assert(i * s == 1 as real);
        assert(p * s == xv) by (nonlinear_arith)
            requires
                p == xv * i,
                i * s == 1 as real,
        ;
        lemma_in_reach(p, s, xv, k);
        let r = rround(v);
        assert(-1 as real <= 2 as real * (r as real - p) <= 1 as real);
        assert(-127 <= r <= 127);
        assert(c == r);
        let cr = c as real;
        let gap = cr - p;
        let two = 2 as real * gap;
        lemma_at_most(two, s, 1 as real);
        assert(two * s == 2 as real * (cr * s - p * s)) by (nonlinear_arith)
            requires
                two == 2 as real * gap,
                gap == cr - p,
        ;
    }
}

/// q8_0: 127 steps are the largest magnitude, and every value comes back within half a step; where
/// half precision holds the step and nothing else but the codes is rounded.
pub proof fn q8_0_keeps<R: Real>(
    val: spec_fn(R) -> real,
    x: Seq<R>,
    m: real,
    b: BlockQ8_0,
    e: int,
)
    requires
        ranked(val),
        x.len() == 32,
        tallest(val, x, m),
        half_holds_part(val, 127 as real, m),
        <BlockQ8_0 as Quantized<R>>::encodes(x, b),
        0 <= e < 32,
    ensures
        127 as real * val(rhalf::<R>(b.d)) == m,
        2 as real * size(val(<BlockQ8_0 as Quantized<R>>::value(b, e)) - val(x[e])) <= val(
            rhalf::<R>(b.d),
        ),
{
    lemma_byte_back(val, x, e, m);
    q8_0_reads(val, b, e);
    assert(b.qs@[e] == byte_code(x[e], reciprocal_of(byte_scale(x))));
    assert(val(rhalf::<R>(rto_half::<R>(byte_scale(x)))) == val(byte_scale(x)));
}

/// q8_1: as q8_0; and the stored sum is the step times the sum of the codes, where half precision
/// holds it.
pub proof fn q8_1_keeps<R: Real>(
    val: spec_fn(R) -> real,
    x: Seq<R>,
    m: real,
    b: BlockQ8_1,
    e: int,
)
    requires
        ranked(val),
        x.len() == 32,
        tallest(val, x, m),
        half_holds_part(val, 127 as real, m),
        <BlockQ8_1 as Quantized<R>>::encodes(x, b),
        0 <= e < 32,
    ensures
        127 as real * val(rhalf::<R>(b.d)) == m,
        2 as real * size(val(<BlockQ8_1 as Quantized<R>>::value(b, e)) - val(x[e])) <= val(
            rhalf::<R>(b.d),
        ),
        ({
            let sum = isum(32, |i: int| b.qs@[i] as int) as real * val(rhalf::<R>(b.d));
            half_holds(val, sum) ==> val(rhalf::<R>(b.s)) == sum
        }),
{
    lemma_byte_back(val, x, e, m);
    q8_1_reads(val, b, e);
    assert(b.qs@[e] == byte_code(x[e], reciprocal_of(byte_scale(x))));
    assert(val(rhalf::<R>(rto_half::<R>(byte_scale(x)))) == val(byte_scale(x)));
    let f = |i: int| b.qs@[i] as int;
    assert(crate::format::q8_1::code_sum(b.qs@) == isum(32, f)) by {
        crate::sums::lemma_isum_eq(32, |i: int| b.qs@[i] as int, f);
    }
    assert forall|i: int| 0 <= i < 32 implies -128 <= #[trigger] f(i) <= 128 by {}
    crate::sums::lemma_isum_bound(32, f, 128);
    let t = rmul(rint(isum(32, f) as i32), byte_scale(x));
    assert(val(t) == isum(32, f) as real * val(byte_scale(x)));
    assert(b.s == rto_half::<R>(t));
}

/// q8_K: 127 steps are the largest magnitude, every value comes back within half a step, and the
/// sixteen sums are those of the codes, sixteen by sixteen; where nothing but the codes is rounded.
pub proof fn q8k_keeps<R: Real>(
    val: spec_fn(R) -> real,
    x: Seq<R>,
    m: real,
    b: BlockQ8K<R>,
    e: int,
)
    requires
        ordered(val),
        x.len() == 256,
        tallest(val, x, m),
        BlockQ8K::<R>::encodes(x, b),
        0 <= e < 256,
    ensures
        127 as real * size(val(b.d)) == m,
        2 as real * size(val(b.value(e)) - val(x[e])) <= size(val(b.d)),
        forall|s: int|
            0 <= s < 16 ==> #[trigger] b.bsums@[s] == isum(16, |t: int| b.qs@[16 * s + t] as int),
{
    let far = val(extreme_of(x, 256));
    lemma_extreme_size(val, x, m);
    q8k_reads(val, b, e);
    let (d, k) = (val(b.d), 127 as real);
    assert(req(extreme_of(x, 256), rzero::<R>()) == (far == 0 as real));
    if far == 0 as real {
        lemma_nought(k, size(d));
        assert(size(val(x[e])) <= m);
        assert(b.qs@[e] == 0);
        lemma_nought(d, 0 as real);
        assert forall|s: int| 0 <= s < 16 implies #[trigger] b.bsums@[s] == isum(
            16,
            |t: int| b.qs@[16 * s + t] as int,
        ) by {
            let f = |t: int| b.qs@[16 * s + t] as int;
            assert forall|t: int| 0 <= t < 16 implies 0 <= #[trigger] f(t) <= 0 by {
                assert(b.qs@[16 * s + t] == 0);
            }
            crate::sums::lemma_isum_bound(16, f, 0);
        }
    } else {
        let inv = q8k_inverse(x);
        let i = val(inv);
        let top = rneg(rint::<R>(127));
        assert(val(top) == -k);
        assert(i * far == -k);
        assert(i != 0 as real) by {
            if i == 0 as real {
                lemma_nought(far, i);
            }
        }
        assert(val(rint::<R>(1)) == 1 as real);
        assert(d * i == 1 as real);
        let p = rmul(inv, x[e]);
        lemma_extreme(val, x, 256, e);
        assert(nearest_is_true(val, p)) by {
            let (pv, xv) = (val(p), val(x[e]));
            assert(pv == i * xv);
            assert(size(xv) <= size(far));
            lemma_sizes(i, xv);
            lemma_sizes(i, far);
            let (u, a, c) = (size(i), size(xv), size(far));
            assert(u * a <= u * c) by (nonlinear_arith)
                requires
                    a <= c,
                    u >= 0 as real,
            ;
        }
        assert(wide_byte_is_true(val, x, b.d, e));
        q8k_comes_back(val, x, b, e);
        assert(far == -k * d) by (nonlinear_arith)
            requires
                i * far == -k,
                d * i == 1 as real,
        ;
        lemma_sizes(-k, d);
        assert forall|s: int| 0 <= s < 16 implies #[trigger] b.bsums@[s] == isum(
            16,
            |t: int| b.qs@[16 * s + t] as int,
        ) by {
            assert(b.bsums@[s] == bsum_of(b.qs@, s));
            crate::sums::lemma_isum_eq(
                16,
                |t: int| b.qs@[16 * s + t] as int,
                |t: int| b.qs@[16 * s + t] as int,
            );
        }
    }
}

} // verus!
