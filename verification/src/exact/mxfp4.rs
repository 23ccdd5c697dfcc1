//! The exponent search of mxfp4: no block under the exponents it tries leaves a smaller error.
use vstd::prelude::*;
use crate::arith::{Real, rbits, rdiv, req, rinf, rint, rlt, rzero};
use crate::blocks::{KVALUES_MXFP4, Quantized, e8m0_value};
use crate::exact::fit::ordered;
use crate::exact::numbers::{lemma_rsum_eq, lemma_rsum_plus, lemma_rsum_split, rsum, size};
use crate::exact::roundtrip::{lemma_amax, peak_is_true};
use crate::format::mxfp4::{
    BlockMxFp4, code_gap, mx_allowed, mx_best, mx_code, mx_error, mx_first, mx_loss, nearest_code,
};
use crate::format::q4_0::nibble_of;
use crate::scale::amax_of;

verus! {

/// The squared difference of two numbers.
pub open spec fn squared_gap(a: real, b: real) -> real {
    (a - b) * (a - b)
}

/// The squared error a block leaves of the values it stands for.
pub open spec fn block_error<R: Real>(
    val: spec_fn(R) -> real,
    x: Seq<R>,
    b: BlockMxFp4,
) -> real {
    rsum(32, |i: int| squared_gap(val(<BlockMxFp4 as Quantized<R>>::value(b, i)), val(x[i])))
}

/// The encoder tries exponent `e` for these values.
pub open spec fn tried<R: Real>(x: Seq<R>, e: int) -> bool {
    mx_first(x) <= e < mx_first(x) + 3 && mx_allowed::<R>(e)
}

/// What the encoder measures stays below the value it starts from: some exponent's error does, and
/// under each exponent it tries, some code's distance from each value.
pub open spec fn measurable<R: Real>(x: Seq<R>) -> bool {
    &&& mx_best(x, mx_first(x), 3).1 is Some
    &&& forall|e: int, i: int|
        #![trigger tried(x, e), x[i]]
        tried(x, e) && 0 <= i < 32 ==> rlt(
            nearest_code(rdiv(x[i], e8m0_value::<R>(e as u8)), 16).0,
            rinf::<R>(),
        )
}

/// The code that is kept is as near as any looked at.
proof fn lemma_nearest<R: Real>(val: spec_fn(R) -> real, v: R, n: nat, c: int)
    requires
        ordered(val),
        n <= 16,
    ensures
        val(nearest_code(v, n).0) <= val(rinf::<R>()),
        0 <= c < n ==> val(nearest_code(v, n).0) <= val(code_gap(c, v)),
        rlt(nearest_code(v, n).0, rinf::<R>()) ==> 0 <= nearest_code(v, n).1 < n && nearest_code(
            v,
            n,
        ).0 == code_gap(nearest_code(v, n).1, v),
    decreases n,
{
    if n > 0 {
        lemma_nearest(val, v, (n - 1) as nat, c);
    }
}

/// A code whose table value is nearer to the quotient reconstructs nearer to the value.
proof fn lemma_scaled_gap(a: real, b: real, q: real, d: real, v: real)
    requires
        q * d == v,
        size(a - q) <= size(b - q),
    ensures
        squared_gap(a * d, v) <= squared_gap(b * d, v),
{
    let (s, t) = (a - q, b - q);
    lemma_stretched_gap(a, q, d);
    lemma_stretched_gap(b, q, d);
    assert(s * s <= t * t) by (nonlinear_arith)
        requires
            size(s) <= size(t),
    ;
    assert(d * d >= 0 as real) by (nonlinear_arith);
    let (p, r, k) = (s * s, t * t, d * d);
    assert(p * k <= r * k) by (nonlinear_arith)
        requires
            p <= r,
            k >= 0 as real,
    ;
}

/// `(a * d - q * d)^2 == (a - q)^2 * d^2`.
proof fn lemma_stretched_gap(a: real, q: real, d: real)
    ensures
        squared_gap(a * d, q * d) == ((a - q) * (a - q)) * (d * d),
{
    let s = a - q;
    assert(a * d - q * d == s * d) by (nonlinear_arith)
        requires
            s == a - q,
    ;
    assert((s * d) * (s * d) == (s * s) * (d * d)) by (nonlinear_arith);
}

/// Under an exponent that is tried, no code does better than the one the encoder takes.
proof fn lemma_code<R: Real>(val: spec_fn(R) -> real, x: Seq<R>, e: u8, i: int, c: int)
    requires
        ordered(val),
        measurable(x),
        tried(x, e as int),
        0 <= i < 32,
        0 <= c < 16,
        x.len() == 32,
    ensures
        val(mx_loss(x[i], e)) <= squared_gap(
            (KVALUES_MXFP4@[c] as i32) as real * val(e8m0_value::<R>(e)),
            val(x[i]),
        ),
        val(mx_loss(x[i], e)) == squared_gap(
            (KVALUES_MXFP4@[mx_code(x[i], e)] as i32) as real * val(e8m0_value::<R>(e)),
            val(x[i]),
        ),
        0 <= mx_code(x[i], e) < 16,
{
    let d = e8m0_value::<R>(e);
    let q = rdiv(x[i], d);
    let k = mx_code(x[i], e);
    assert(tried(x, e as int) && x[i] == x[i]);
    assert(!req(d, rzero::<R>()));
    lemma_nearest(val, q, 16, c);
    assert(val(code_gap(k, q)) <= val(code_gap(c, q)));
    let (kr, cr) = ((KVALUES_MXFP4@[k] as i32) as real, (KVALUES_MXFP4@[c] as i32) as real);
    assert(val(rint::<R>(KVALUES_MXFP4@[k] as i32)) == kr);
    assert(val(rint::<R>(KVALUES_MXFP4@[c] as i32)) == cr);
    lemma_scaled_gap(kr, cr, val(q), val(d), val(x[i]));
}

/// The error of the first `n` pairs is the sum of their losses.
proof fn lemma_pairs<R: Real>(val: spec_fn(R) -> real, x: Seq<R>, e: u8, n: nat)
    requires
        ordered(val),
        n <= 16,
    ensures
        val(mx_error(x, e, n)) == rsum(
            n,
            |j: int| val(mx_loss(x[j], e)) + val(mx_loss(x[j + 16], e)),
        ),
    decreases n,
{
    if n > 0 {
        lemma_pairs(val, x, e, (n - 1) as nat);
    }
}

/// The error of a block is the sum of its values' losses.
proof fn lemma_total<R: Real>(val: spec_fn(R) -> real, x: Seq<R>, e: u8)
    requires
        ordered(val),
    ensures
        val(mx_error(x, e, 16)) == rsum(32, |i: int| val(mx_loss(x[i], e))),
{
    let f = |i: int| val(mx_loss(x[i], e));
    let g = |j: int| val(mx_loss(x[j + 16], e));
    lemma_pairs(val, x, e, 16);
    lemma_rsum_plus(16, f, g);
    lemma_rsum_eq(
        16,
        |j: int| f(j) + g(j),
        |j: int| val(mx_loss(x[j], e)) + val(mx_loss(x[j + 16], e)),
    );
    lemma_rsum_split(16, 16, f);
    lemma_rsum_eq(16, g, |i: int| f(16 + i));
}

/// The exponent that is kept leaves no more than any tried.
proof fn lemma_kept<R: Real>(val: spec_fn(R) -> real, x: Seq<R>, first: int, k: nat, e: u8)
    requires
        ordered(val),
    ensures
        first <= e < first + k && mx_allowed::<R>(e as int) ==> val(mx_best(x, first, k).0) <= val(
            mx_error(x, e, 16),
        ),
        mx_best(x, first, k).1 matches Some(b) ==> first <= b < first + k && mx_allowed::<R>(
            b as int,
        ) && mx_best(x, first, k).0 == mx_error(x, b, 16),
    decreases k,
{
    if k > 0 {
        lemma_kept(val, x, first, (k - 1) as nat, e);
    }
}

/// A larger term each makes a larger sum.
proof fn lemma_rsum_below(n: nat, f: spec_fn(int) -> real, g: spec_fn(int) -> real)
    requires
        forall|i: int| 0 <= i < n ==> #[trigger] f(i) <= g(i),
    ensures
        rsum(n, f) <= rsum(n, g),
    decreases n,
{
    if n > 0 {
        lemma_rsum_below((n - 1) as nat, f, g);
        assert(f(n - 1) <= g(n - 1));
    }
}

/// The block written for thirty-two values leaves the least squared error of all that the three
/// exponents around their magnitude allow, whatever the other block's codes are. Values whose
/// errors exceed everything that can be measured are left out: they are written as zeros.
pub proof fn the_block_written_loses_least<R: Real>(
    val: spec_fn(R) -> real,
    x: Seq<R>,
    b: BlockMxFp4,
    other: BlockMxFp4,
)
    requires
        ordered(val),
        x.len() == 32,
        peak_is_true(val, x),
        measurable(x),
        BlockMxFp4::encodes(x, b),
        tried(x, other.e as int),
    ensures
        block_error(val, x, b) <= block_error(val, x, other),
{
    let theirs = |i: int|
        squared_gap(val(<BlockMxFp4 as Quantized<R>>::value(other, i)), val(x[i]));
    let ours = |i: int| squared_gap(val(<BlockMxFp4 as Quantized<R>>::value(b, i)), val(x[i]));
    let top = amax_of(x, 32);
    if req(top, rzero::<R>()) {
        assert forall|i: int| 0 <= i < 32 implies #[trigger] ours(i) <= theirs(i) by {
            lemma_amax(val, x, 32, i);
            lemma_zero_value(val, b, i);
            let t = val(<BlockMxFp4 as Quantized<R>>::value(other, i)) - val(x[i]);
            assert(t * t >= 0 as real) by (nonlinear_arith);
            let z = val(<BlockMxFp4 as Quantized<R>>::value(b, i)) - val(x[i]);
            assert(z * z == 0 as real) by (nonlinear_arith)
                requires
                    z == 0 as real,
            ;
        }
        lemma_rsum_below(32, ours, theirs);
    } else {
        let e = mx_best(x, mx_first(x), 3).1->0;
        lemma_kept(val, x, mx_first(x), 3, other.e);
        lemma_total(val, x, e);
        lemma_total(val, x, other.e);
        let kept = |i: int| val(mx_loss(x[i], e));
        let best = |i: int| val(mx_loss(x[i], other.e));
        assert forall|i: int| 0 <= i < 32 implies #[trigger] kept(i) == ours(i) by {
            assert(nibble_of(b.qs@, i) == mx_code(x[i], e));
            lemma_code(val, x, e, i, 0);
            lemma_value(val, b, i);
        }
        lemma_rsum_eq(32, kept, ours);
        assert forall|i: int| 0 <= i < 32 implies #[trigger] best(i) <= theirs(i) by {
            lemma_nibble(other, i);
            lemma_code(val, x, other.e, i, nibble_of(other.qs@, i));
            lemma_value(val, other, i);
        }
        lemma_rsum_below(32, best, theirs);
    }
}

/// Four bits are a code.
proof fn lemma_nibble(b: BlockMxFp4, i: int)
    requires
        0 <= i < 32,
    ensures
        0 <= nibble_of(b.qs@, i) < 16,
{
}

/// What a value of a block is read as.
proof fn lemma_value<R: Real>(val: spec_fn(R) -> real, b: BlockMxFp4, i: int)
    requires
        ordered(val),
        0 <= i < 32,
    ensures
        val(<BlockMxFp4 as Quantized<R>>::value(b, i)) == (KVALUES_MXFP4@[nibble_of(b.qs@, i)]
            as i32) as real * val(e8m0_value::<R>(b.e)),
{
}

/// A block of zero codes is zero.
proof fn lemma_zero_value<R: Real>(val: spec_fn(R) -> real, b: BlockMxFp4, i: int)
    requires
        ordered(val),
        0 <= i < 32,
        nibble_of(b.qs@, i) == 0,
    ensures
        val(<BlockMxFp4 as Quantized<R>>::value(b, i)) == 0 as real,
{
    lemma_value(val, b, i);
    assert(KVALUES_MXFP4@[0] == 0);
    let d = val(e8m0_value::<R>(b.e));
    let z = (KVALUES_MXFP4@[0] as i32) as real;
    assert(z * d == 0 as real) by (nonlinear_arith)
        requires
            z == 0 as real,
    ;
}

/// The scale an exponent stands for, as bits.
pub open spec fn exponent_bits(e: u8) -> u32 {
    (if e == 0 {
        0x0020_0000
    } else if e == 1 {
        0x0040_0000
    } else {
        (e - 1) * 0x0080_0000
    }) as u32
}

/// Under the exponent a block is written with, no code in place of the one taken reads back nearer
/// to its value. A code further off than everything that can be measured is left out.
pub proof fn the_codes_written_are_nearest<R: Real>(
    val: spec_fn(R) -> real,
    x: Seq<R>,
    b: BlockMxFp4,
    other: BlockMxFp4,
    i: int,
)
    requires
        ordered(val),
        x.len() == 32,
        BlockMxFp4::encodes(x, b),
        b.e != 0,
        other.e == b.e,
        0 <= i < 32,
        size(val(<BlockMxFp4 as Quantized<R>>::value(other, i)) - val(x[i])) < val(rinf::<R>()) * size(
            val(rbits::<R>(exponent_bits(b.e))),
        ),
    ensures
        squared_gap(val(<BlockMxFp4 as Quantized<R>>::value(b, i)), val(x[i])) <= squared_gap(
            val(<BlockMxFp4 as Quantized<R>>::value(other, i)),
            val(x[i]),
        ),
{
    let e = b.e;
    let d = e8m0_value::<R>(e);
    assert(d == rbits::<R>(exponent_bits(e)));
    lemma_kept(val, x, mx_first(x), 3, e);
    assert(mx_best(x, mx_first(x), 3).1 == Some(e));
    assert(!req(d, rzero::<R>()));
    let q = rdiv(x[i], d);
    let c = nibble_of(other.qs@, i);
    lemma_nibble(other, i);
    lemma_value(val, b, i);
    lemma_value(val, other, i);
    lemma_nearest(val, q, 16, c);
    let k = mx_code(x[i], e);
    assert(nibble_of(b.qs@, i) == k);
    let (kr, cr) = ((KVALUES_MXFP4@[k] as i32) as real, (KVALUES_MXFP4@[c] as i32) as real);
    assert(val(rint::<R>(KVALUES_MXFP4@[c] as i32)) == cr);
    let (vq, vd, vx) = (val(q), val(d), val(x[i]));
    assert(vq * vd == vx);
    let (g, u, r) = (size(cr - vq), size(vd), val(rinf::<R>()));
    let w = cr - vq;
    assert(cr * vd - vq * vd == w * vd) by (nonlinear_arith)
        requires
            w == cr - vq,
    ;
    assert(size(w * vd) == g * u) by (nonlinear_arith)
        requires
            w >= 0 as real && g == w || w < 0 as real && g == -w,
            vd >= 0 as real && u == vd || vd < 0 as real && u == -vd,
    ;
    assert(g < r) by (nonlinear_arith)
        requires
            g * u < r * u,
            u >= 0 as real,
    ;
    assert(val(code_gap(c, q)) == g);
    assert(rlt(nearest_code(q, 16).0, rinf::<R>()));
    assert(val(rint::<R>(KVALUES_MXFP4@[k] as i32)) == kr);
    lemma_scaled_gap(kr, cr, vq, vd, vx);
}

} // verus!
