//! Eight-bit blocks read back: no value comes back further than half a step from where it started.
use vstd::prelude::*;
use crate::arith::{Real, rabs, req, rhalf, rlt, rmax, rmul, rround, rzero};
use crate::blocks::Quantized;
use crate::exact::numbers::{larger, size};
use crate::format::q8_0::{BlockQ8_0, byte_code, byte_scale};
use crate::format::q8_1::BlockQ8_1;
use crate::format::q8_k::{BlockQ8K, q8k_inverse};
use crate::scale::{amax_of, extreme_of, reciprocal_of};

verus! {

/// Finding the largest magnitude of a block rounds nothing: magnitudes and maxima are read truly.
pub open spec fn peak_is_true<R: Real>(val: spec_fn(R) -> real, x: Seq<R>) -> bool {
    &&& val(rzero::<R>()) == 0 as real
    &&& forall|i: int|
        0 <= i < x.len() ==> val(
            #[trigger] rmax(amax_of(x, i as nat), rabs(x[i])),
        ) == larger(val(amax_of(x, i as nat)), size(val(x[i])))
}

/// Finding the extreme of a block rounds nothing: magnitudes are compared truly.
pub open spec fn extreme_is_true<R: Real>(val: spec_fn(R) -> real, x: Seq<R>) -> bool {
    &&& val(rzero::<R>()) == 0 as real
    &&& forall|i: int|
        0 <= i < x.len() ==> #[trigger] rlt(rabs(extreme_of(x, i as nat)), rabs(x[i])) == (size(
            val(extreme_of(x, i as nat)),
        ) < size(val(x[i])))
    &&& req(extreme_of(x, x.len()), rzero::<R>()) == (val(extreme_of(x, x.len())) == 0 as real)
}

/// The nearest integer to `p`, at most half away from it.
pub open spec fn nearest_is_true<R: Real>(val: spec_fn(R) -> real, p: R) -> bool {
    -1 as real <= 2 as real * (rround(p) as real - val(p)) <= 1 as real
}

/// Encoding value `e` of a block to a byte rounds nothing but the code itself.
pub open spec fn byte_is_true<R: Real>(val: spec_fn(R) -> real, x: Seq<R>, e: int) -> bool {
    let d = byte_scale(x);
    let inv = reciprocal_of(d);
    let p = rmul(x[e], inv);
    &&& peak_is_true(val, x)
    &&& val(d) * 127 as real == val(amax_of(x, 32))
    &&& req(d, rzero::<R>()) == (val(d) == 0 as real)
    &&& val(d) != 0 as real ==> val(inv) * val(d) == 1 as real
    &&& val(p) == val(x[e]) * val(inv)
    &&& nearest_is_true(val, p)
}

/// Encoding value `e` of a super-block to a byte rounds nothing but the code itself.
pub open spec fn wide_byte_is_true<R: Real>(
    val: spec_fn(R) -> real,
    x: Seq<R>,
    d: R,
    e: int,
) -> bool {
    let far = extreme_of(x, 256);
    let inv = q8k_inverse(x);
    let p = rmul(inv, x[e]);
    &&& extreme_is_true(val, x)
    &&& val(far) != 0 as real ==> val(inv) * val(far) == -127 as real && val(d) * val(inv)
        == 1 as real
    &&& val(p) == val(inv) * val(x[e])
    &&& nearest_is_true(val, p)
}

/// No value is larger than the largest magnitude.
pub(crate) proof fn lemma_amax<R: Real>(val: spec_fn(R) -> real, x: Seq<R>, n: nat, e: int)
    requires
        peak_is_true(val, x),
        n <= x.len(),
    ensures
        0 as real <= val(amax_of(x, n)),
        0 <= e < n ==> size(val(x[e])) <= val(amax_of(x, n)),
    decreases n,
{
    if n > 0 {
        lemma_amax(val, x, (n - 1) as nat, e);
        assert(amax_of(x, n) == rmax(amax_of(x, (n - 1) as nat), rabs(x[n - 1])));
    }
}

/// No value is larger than the extreme.
pub(crate) proof fn lemma_extreme<R: Real>(val: spec_fn(R) -> real, x: Seq<R>, n: nat, e: int)
    requires
        extreme_is_true(val, x),
        n <= x.len(),
    ensures
        0 <= e < n ==> size(val(x[e])) <= size(val(extreme_of(x, n))),
    decreases n,
{
    if n > 0 {
        lemma_extreme(val, x, (n - 1) as nat, e);
        let m = extreme_of(x, (n - 1) as nat);
        assert(rlt(rabs(m), rabs(x[n - 1])) == (size(val(m)) < size(val(x[n - 1]))));
    }
}

/// A value of at most 127 steps is that many of them.
proof fn lemma_steps(p: real, d: real, x: real)
    requires
        d > 0 as real,
        p * d == x,
        size(x) <= 127 as real * d,
    ensures
        size(p) <= 127 as real,
{
    let c = 127 as real;
    if p > c {
        assert(p * d > c * d) by (nonlinear_arith)
            requires
                p > c,
                d > 0 as real,
        ;
    }
    if p < -c {
        assert(p * d < -(c * d)) by (nonlinear_arith)
            requires
                p < -c,
                d > 0 as real,
        ;
    }
}

/// Half a step away, in steps and in values.
proof fn lemma_half_step(p: real, r: real, d: real)
    requires
        0 as real <= d,
        -1 as real <= 2 as real * (r - p) <= 1 as real,
    ensures
        2 as real * size(p * d - r * d) <= d,
{
    let u = p - r;
    assert(u * d == p * d - r * d) by (nonlinear_arith)
        requires
            u == p - r,
    ;
    let w = 2 as real * u;
    assert(-d <= w * d <= d) by (nonlinear_arith)
        requires
            -1 as real <= w <= 1 as real,
            0 as real <= d,
    ;
    assert(w * d == 2 as real * (u * d)) by (nonlinear_arith)
        requires
            w == 2 as real * u,
    ;
}

/// The byte that stands for value `e` of a block, under its scale.
proof fn lemma_byte<R: Real>(val: spec_fn(R) -> real, x: Seq<R>, e: int)
    requires
        byte_is_true(val, x, e),
        x.len() == 32,
        0 <= e < 32,
    ensures
        ({
            let d = val(byte_scale(x));
            let code = byte_code(x[e], reciprocal_of(byte_scale(x)));
            &&& 0 as real <= d
            &&& -127 <= code <= 127
            &&& 2 as real * size(val(x[e]) - (code as real) * d) <= d
        }),
{
    lemma_amax(val, x, 32, e);
    let d = val(byte_scale(x));
    let big = val(amax_of(x, 32));
    let inv = reciprocal_of(byte_scale(x));
    let v = rmul(x[e], inv);
    let code = rround(v);
    let (xe, p, i) = (val(x[e]), val(v), val(inv));
    if d == 0 as real {
        assert(p == 0 as real) by (nonlinear_arith)
            requires
                p == xe * i,
                i == 0 as real,
        ;
        assert(xe == 0 as real);
        assert(code == 0);
        let z = 0int as real;
        assert(z * d == 0 as real) by (nonlinear_arith)
            requires
                z == 0 as real,
        ;
    } else {
        assert(p * d == xe) by (nonlinear_arith)
            requires
                p == xe * i,
                i * d == 1 as real,
        ;
        lemma_steps(p, d, xe);
        assert(-127 <= code <= 127);
        lemma_half_step(p, code as real, d);
    }
}

/// q8_0: a value comes back within half a step, where half precision holds the step and nothing but
/// the code is rounded.
pub proof fn q8_0_comes_back<R: Real>(
    val: spec_fn(R) -> real,
    x: Seq<R>,
    b: BlockQ8_0,
    e: int,
)
    requires
        x.len() == 32,
        0 <= e < 32,
        <BlockQ8_0 as Quantized<R>>::encodes(x, b),
        byte_is_true(val, x, e),
        val(rhalf::<R>(b.d)) == val(byte_scale(x)),
        val(<BlockQ8_0 as Quantized<R>>::value(b, e)) == (b.qs@[e] as real) * val(rhalf::<R>(b.d)),
    ensures
        2 as real * size(val(x[e]) - val(<BlockQ8_0 as Quantized<R>>::value(b, e))) <= val(
            rhalf::<R>(b.d),
        ),
{
    lemma_byte(val, x, e);
    assert(b.qs@[e] == byte_code(x[e], reciprocal_of(byte_scale(x))));
}

/// q8_1: a value comes back within half a step, where half precision holds the step and nothing but
/// the code is rounded; the stored sum has no part in it.
pub proof fn q8_1_comes_back<R: Real>(
    val: spec_fn(R) -> real,
    x: Seq<R>,
    b: BlockQ8_1,
    e: int,
)
    requires
        x.len() == 32,
        0 <= e < 32,
        <BlockQ8_1 as Quantized<R>>::encodes(x, b),
        byte_is_true(val, x, e),
        val(rhalf::<R>(b.d)) == val(byte_scale(x)),
        val(<BlockQ8_1 as Quantized<R>>::value(b, e)) == (b.qs@[e] as real) * val(rhalf::<R>(b.d)),
    ensures
        2 as real * size(val(x[e]) - val(<BlockQ8_1 as Quantized<R>>::value(b, e))) <= val(
            rhalf::<R>(b.d),
        ),
{
    lemma_byte(val, x, e);
    assert(b.qs@[e] == byte_code(x[e], reciprocal_of(byte_scale(x))));
}

/// q8_K: a value comes back within half a step, where nothing but the code is rounded.
pub proof fn q8k_comes_back<R: Real>(
    val: spec_fn(R) -> real,
    x: Seq<R>,
    b: BlockQ8K<R>,
    e: int,
)
    requires
        x.len() == 256,
        0 <= e < 256,
        BlockQ8K::<R>::encodes(x, b),
        wide_byte_is_true(val, x, b.d, e),
        val(b.value(e)) == (b.qs@[e] as real) * val(b.d),
    ensures
        2 as real * size(val(x[e]) - val(b.value(e))) <= size(val(b.d)),
{
    lemma_extreme(val, x, 256, e);
    let (xe, far, d) = (val(x[e]), val(extreme_of(x, 256)), val(b.d));
    let q = b.qs@[e];
    if far == 0 as real {
        assert(xe == 0 as real);
        assert(q == 0);
        let z = 0int as real;
        assert(z * d == 0 as real) by (nonlinear_arith)
            requires
                z == 0 as real,
        ;
    } else {
        let inv = q8k_inverse(x);
        let v = rmul(inv, x[e]);
        let (p, i) = (val(v), val(inv));
        assert(i * far == -127 as real);
        assert(i != 0 as real) by {
            if i == 0 as real {
                assert(i * far == 0 as real) by (nonlinear_arith)
                    requires
                        i == 0 as real,
                ;
            }
        }
        assert(d * i == 1 as real);
        assert(p * d == xe) by (nonlinear_arith)
            requires
                p == i * xe,
                d * i == 1 as real,
        ;
        // the extreme is 127 steps
        assert(far == -127 as real * d) by (nonlinear_arith)
            requires
                i * far == -127 as real,
                d * i == 1 as real,
        ;
        let s = size(d);
        let ps = if d < 0 as real {
            -p
        } else {
            p
        };
        assert(ps * s == xe) by (nonlinear_arith)
            requires
                p * d == xe,
                ps == -p && s == -d || ps == p && s == d,
        ;
        assert(d != 0 as real) by {
            if d == 0 as real {
                assert(d * i == 0 as real) by (nonlinear_arith)
                    requires
                        d == 0 as real,
                ;
            }
        }
        assert(size(xe) <= size(far));
        let (c, n) = (127 as real, -127 as real);
        assert(n * d == -(c * d) && c * (-d) == -(c * d)) by (nonlinear_arith)
            requires
                n == -c,
        ;
        assert(c * s >= 0 as real) by (nonlinear_arith)
            requires
                c >= 0 as real,
                s >= 0 as real,
        ;
        assert(size(far) == c * s);
        lemma_steps(ps, s, xe);
        let r = rround(v);
        assert(-127 <= r <= 127);
        assert(q == r);
        let rr = r as real;
        if d < 0 as real {
            lemma_half_step(ps, -rr, s);
            assert(ps * s - (-rr) * s == p * d - rr * d) by (nonlinear_arith)
                requires
                    ps == -p,
                    s == -d,
            ;
        } else {
            lemma_half_step(p, rr, d);
        }
    }
}

} // verus!
