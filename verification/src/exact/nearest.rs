//! The super-block encoders: under the scales a block stores, no code it could have taken instead
//! reads back nearer to the value.
use vstd::prelude::*;
use crate::arith::{Real, radd, rdiv, req, rhalf, rround, rzero};
use crate::blocks::Quantized;
use crate::exact::decode::{
    field, lemma_packed, lemma_six_bits, lemma_two_bits, lemma_wide, packed_min, packed_scale, q2k_reads, q3k_reads, q4k_reads,
    q5k_reads, q6k_reads, six_bit_scale,
};
use crate::exact::fit::ordered;
use crate::exact::numbers::size;
use crate::format::q2_k::{BlockQ2K, crumb_code};
use crate::format::q3_k::{BlockQ3K, q3k_code, q3k_step, three_bits};
use crate::format::q4_k::{BlockQ4K, wide_nibble};
use crate::format::q5_k::{BlockQ5K, wide_five};
use crate::format::q6_k::{BlockQ6K, q6k_step, six_bits};
use crate::kfit::Guided;
use crate::koffset::{drop_of, minned_code, step_of};
use crate::scale::clamped;

verus! {

/// A value whose distance in steps fits an integer.
pub open spec fn countable(y: real, step: real) -> bool {
    step != 0 as real ==> size(y) <= 0x7fff_ffff as real * size(step)
}

/// Block `b` is what the values are encoded to, with importances or without.
pub open spec fn encoded<R: Real, B: Guided<R>>(x: Seq<R>, w: Option<Seq<R>>, b: B) -> bool {
    match w {
        Some(w) => B::encodes_guided(x, w, b),
        None => B::encodes(x, b),
    }
}

/// The integer nearest to `q`, brought into a range, is the nearest of the range.
proof fn lemma_clamped(q: real, r: int, c: int, lo: int, hi: int)
    requires
        -1 as real <= 2 as real * (r as real - q) <= 1 as real,
        lo <= c <= hi,
    ensures
        size(clamped(r, lo, hi) as real - q) <= size(c as real - q),
{
    let k = clamped(r, lo, hi);
    if c > k {
        assert(c as real >= k as real + 1 as real);
    } else if c < k {
        assert(c as real <= k as real - 1 as real);
    }
}

/// Nearer in steps is nearer in value.
proof fn lemma_nearer(a: real, c: real, q: real, s: real, y: real)
    requires
        q * s == y,
        size(a - q) <= size(c - q),
    ensures
        size(a * s - y) <= size(c * s - y),
{
    let (g, h) = (a - q, c - q);
    assert(g * s == a * s - q * s && h * s == c * s - q * s) by (nonlinear_arith)
        requires
            g == a - q,
            h == c - q,
    ;
    let (u, gs, hs) = (size(s), size(g), size(h));
    assert(size(g * s) == gs * u && size(h * s) == hs * u) by (nonlinear_arith)
        requires
            g >= 0 as real && gs == g || g < 0 as real && gs == -g,
            h >= 0 as real && hs == h || h < 0 as real && hs == -h,
            s >= 0 as real && u == s || s < 0 as real && u == -s,
    ;
    assert(gs * u <= hs * u) by (nonlinear_arith)
        requires
            gs <= hs,
            u >= 0 as real,
    ;
}

/// A quotient no larger than the bound on it.
pub(crate) proof fn lemma_quotient(q: real, s: real, y: real, k: real)
    requires
        s != 0 as real,
        q * s == y,
        size(y) <= k * size(s),
    ensures
        size(q) <= k,
{
    let (t, u) = (size(q), size(s));
    assert(size(q * s) == t * u) by (nonlinear_arith)
        requires
            q >= 0 as real && t == q || q < 0 as real && t == -q,
            s >= 0 as real && u == s || s < 0 as real && u == -s,
    ;
    if t > k {
        assert(t * u > k * u) by (nonlinear_arith)
            requires
                t > k,
                u > 0 as real,
        ;
    }
}

/// The nearest of a range of codes, of which the one taken is the rounded quotient.
proof fn lemma_taken<R: Real>(
    val: spec_fn(R) -> real,
    y: R,
    step: R,
    lo: int,
    hi: int,
    c: int,
)
    requires
        ordered(val),
        countable(val(y), val(step)),
        val(step) != 0 as real,
        lo <= c <= hi,
    ensures
        size(clamped(rround(rdiv(y, step)) as int, lo, hi) as real * val(step) - val(y)) <= size(
            c as real * val(step) - val(y),
        ),
{
    let q = rdiv(y, step);
    let k = 0x7fff_ffff as real;
    lemma_quotient(val(q), val(step), val(y), k);
    let r = rround(q) as int;
    assert(-1 as real <= 2 as real * (r as real - val(q)) <= 1 as real);
    lemma_clamped(val(q), r, c, lo, hi);
    lemma_nearer(clamped(r, lo, hi) as real, c as real, val(q), val(step), val(y));
}

/// A code times a step, either way round.
proof fn lemma_turn(a: real, b: real)
    ensures
        a * b == b * a,
{
    assert(a * b == b * a) by (nonlinear_arith);
}

/// Every code times nothing is nothing.
proof fn lemma_none(s: real, a: real)
    requires
        s == 0 as real,
    ensures
        s * a == 0 as real,
{
    assert(s * a == 0 as real) by (nonlinear_arith)
        requires
            s == 0 as real,
    ;
}

/// The code of a value over a minimum, against any other.
proof fn lemma_minned<R: Real>(
    val: spec_fn(R) -> real,
    v: R,
    step: R,
    drop: R,
    top: int,
    c: int,
)
    requires
        ordered(val),
        countable(val(v) + val(drop), val(step)),
        0 <= c <= top,
    ensures
        size(val(step) * minned_code(v, step, drop, top) as real - val(drop) - val(v)) <= size(
            val(step) * c as real - val(drop) - val(v),
        ),
{
    let (s, k) = (val(step), minned_code(v, step, drop, top));
    assert(req(step, rzero::<R>()) == (s == 0 as real));
    if s == 0 as real {
        lemma_none(s, k as real);
        lemma_none(s, c as real);
    } else {
        let y = radd(v, drop);
        assert(val(y) == val(v) + val(drop));
        lemma_taken(val, y, step, 0, top, c);
        lemma_turn(s, k as real);
        lemma_turn(s, c as real);
    }
}

/// q2_K: no block of the same scales and minimums reads back nearer, at any value.
pub proof fn q2k_codes_are_nearest<R: Real>(
    val: spec_fn(R) -> real,
    x: Seq<R>,
    w: Option<Seq<R>>,
    b: BlockQ2K,
    other: BlockQ2K,
    e: int,
)
    requires
        ordered(val),
        encoded::<R, BlockQ2K>(x, w, b),
        0 <= e < 256,
        other.d == b.d,
        other.dmin == b.dmin,
        other.scales@ == b.scales@,
        countable(
            val(x[e]) + val(rhalf::<R>(b.dmin)) * field(b.scales@[e / 16], 4, 4) as real,
            val(rhalf::<R>(b.d)) * field(b.scales@[e / 16], 0, 4) as real,
        ),
    ensures
        size(val(<BlockQ2K as Quantized<R>>::value(b, e)) - val(x[e])) <= size(
            val(<BlockQ2K as Quantized<R>>::value(other, e)) - val(x[e]),
        ),
{
    lemma_two_bits(b.qs@, e);
    lemma_two_bits(other.qs@, e);
    q2k_reads(val, b, e);
    q2k_reads(val, other, e);
    let (step, drop) = (step_of::<R, BlockQ2K>(b, e), drop_of::<R, BlockQ2K>(b, e));
    assert(crumb_code(b.qs@, e) == minned_code(x[e], step, drop, 3));
    assert(val(step) == val(rhalf::<R>(b.d)) * field(b.scales@[e / 16], 0, 4) as real);
    assert(val(drop) == val(rhalf::<R>(b.dmin)) * field(b.scales@[e / 16], 4, 4) as real);
    lemma_minned(val, x[e], step, drop, 3, crumb_code(other.qs@, e));
}

/// The step and the drop of value `e`, as numbers.
proof fn lemma_q4k_step<R: Real>(val: spec_fn(R) -> real, b: BlockQ4K, e: int)
    requires
        ordered(val),
        0 <= e < 256,
    ensures
        val(step_of::<R, BlockQ4K>(b, e)) == val(rhalf::<R>(b.d)) * packed_scale(b.scales@, e / 32)
            as real,
        val(drop_of::<R, BlockQ4K>(b, e)) == val(rhalf::<R>(b.dmin)) * packed_min(
            b.scales@,
            e / 32,
        ) as real,
{
    lemma_wide(b.qs@, e);
    lemma_packed(b.scales@, e / 32);
}

/// q4_K: no block of the same scales and minimums reads back nearer, at any value.
pub proof fn q4k_codes_are_nearest<R: Real>(
    val: spec_fn(R) -> real,
    x: Seq<R>,
    w: Option<Seq<R>>,
    b: BlockQ4K,
    other: BlockQ4K,
    e: int,
)
    requires
        ordered(val),
        encoded::<R, BlockQ4K>(x, w, b),
        0 <= e < 256,
        other.d == b.d,
        other.dmin == b.dmin,
        other.scales@ == b.scales@,
        countable(
            val(x[e]) + val(rhalf::<R>(b.dmin)) * packed_min(b.scales@, e / 32) as real,
            val(rhalf::<R>(b.d)) * packed_scale(b.scales@, e / 32) as real,
        ),
    ensures
        size(val(<BlockQ4K as Quantized<R>>::value(b, e)) - val(x[e])) <= size(
            val(<BlockQ4K as Quantized<R>>::value(other, e)) - val(x[e]),
        ),
{
    lemma_wide(b.qs@, e);
    lemma_wide(other.qs@, e);
    q4k_reads(val, b, e);
    q4k_reads(val, other, e);
    lemma_q4k_step::<R>(val, b, e);
    let (step, drop) = (step_of::<R, BlockQ4K>(b, e), drop_of::<R, BlockQ4K>(b, e));
    let (k, c) = (wide_nibble(b.qs@, e), wide_nibble(other.qs@, e));
    assert(k == minned_code(x[e], step, drop, 15));
    lemma_minned(val, x[e], step, drop, 15, c);
}

/// The step and the drop of value `e`, as numbers.
proof fn lemma_q5k_step<R: Real>(val: spec_fn(R) -> real, b: BlockQ5K, e: int)
    requires
        ordered(val),
        0 <= e < 256,
    ensures
        val(step_of::<R, BlockQ5K>(b, e)) == val(rhalf::<R>(b.d)) * packed_scale(b.scales@, e / 32)
            as real,
        val(drop_of::<R, BlockQ5K>(b, e)) == val(rhalf::<R>(b.dmin)) * packed_min(
            b.scales@,
            e / 32,
        ) as real,
{
    lemma_wide(b.qs@, e);
    lemma_packed(b.scales@, e / 32);
}

/// q5_K: no block of the same scales and minimums reads back nearer, at any value.
pub proof fn q5k_codes_are_nearest<R: Real>(
    val: spec_fn(R) -> real,
    x: Seq<R>,
    w: Option<Seq<R>>,
    b: BlockQ5K,
    other: BlockQ5K,
    e: int,
)
    requires
        ordered(val),
        encoded::<R, BlockQ5K>(x, w, b),
        0 <= e < 256,
        other.d == b.d,
        other.dmin == b.dmin,
        other.scales@ == b.scales@,
        countable(
            val(x[e]) + val(rhalf::<R>(b.dmin)) * packed_min(b.scales@, e / 32) as real,
            val(rhalf::<R>(b.d)) * packed_scale(b.scales@, e / 32) as real,
        ),
    ensures
        size(val(<BlockQ5K as Quantized<R>>::value(b, e)) - val(x[e])) <= size(
            val(<BlockQ5K as Quantized<R>>::value(other, e)) - val(x[e]),
        ),
{
    lemma_wide(b.qs@, e);
    lemma_wide(other.qs@, e);
    q5k_reads(val, b, e);
    q5k_reads(val, other, e);
    lemma_q5k_step::<R>(val, b, e);
    let (step, drop) = (step_of::<R, BlockQ5K>(b, e), drop_of::<R, BlockQ5K>(b, e));
    let (k, c) = (wide_five(b.qh@, b.qs@, e), wide_five(other.qh@, other.qs@, e));
    assert(k == minned_code(x[e], step, drop, 31));
    lemma_minned(val, x[e], step, drop, 31, c);
}

/// q3_K: no block of the same scales reads back nearer, at any value.
pub proof fn q3k_codes_are_nearest<R: Real>(
    val: spec_fn(R) -> real,
    x: Seq<R>,
    w: Option<Seq<R>>,
    b: BlockQ3K,
    other: BlockQ3K,
    e: int,
)
    requires
        ordered(val),
        encoded::<R, BlockQ3K>(x, w, b),
        0 <= e < 256,
        other.d == b.d,
        other.scales@ == b.scales@,
        countable(
            val(x[e]),
            val(rhalf::<R>(b.d)) * (six_bit_scale(b.scales@, e / 16) - 32) as real,
        ),
    ensures
        size(val(<BlockQ3K as Quantized<R>>::value(b, e)) - val(x[e])) <= size(
            val(<BlockQ3K as Quantized<R>>::value(other, e)) - val(x[e]),
        ),
{
    q3k_reads(val, b, e);
    q3k_reads(val, other, e);
    lemma_two_bits(b.qs@, e);
    lemma_two_bits(other.qs@, e);
    let step = q3k_step::<R>(b, e);
    let s = val(step);
    assert(s == val(rhalf::<R>(b.d)) * (six_bit_scale(b.scales@, e / 16) - 32) as real);
    let (k, c) = (
        three_bits(b.hmask@, b.qs@, e) - 4,
        three_bits(other.hmask@, other.qs@, e) - 4,
    );
    assert(k + 4 == q3k_code(x[e], step));
    assert(-4 <= c <= 3);
    assert(req(step, rzero::<R>()) == (s == 0 as real));
    if s == 0 as real {
        lemma_none(s, k as real);
        lemma_none(s, c as real);
    } else {
        lemma_taken(val, x[e], step, -4, 3, c);
        lemma_turn(s, k as real);
        lemma_turn(s, c as real);
    }
}

/// q6_K: no block of the same scales reads back nearer, at any value.
pub proof fn q6k_codes_are_nearest<R: Real>(
    val: spec_fn(R) -> real,
    x: Seq<R>,
    w: Option<Seq<R>>,
    b: BlockQ6K,
    other: BlockQ6K,
    e: int,
)
    requires
        ordered(val),
        encoded::<R, BlockQ6K>(x, w, b),
        0 <= e < 256,
        other.d == b.d,
        other.scales@ == b.scales@,
        countable(val(x[e]), val(rhalf::<R>(b.d)) * b.scales@[e / 16] as real),
    ensures
        size(val(<BlockQ6K as Quantized<R>>::value(b, e)) - val(x[e])) <= size(
            val(<BlockQ6K as Quantized<R>>::value(other, e)) - val(x[e]),
        ),
{
    lemma_six_bits(b.ql@, b.qh@, e);
    lemma_six_bits(other.ql@, other.qh@, e);
    q6k_reads(val, b, e);
    q6k_reads(val, other, e);
    let step = q6k_step::<R>(b, e);
    let (s, z) = (val(step), b.scales@[e / 16] as real);
    assert(s == val(rhalf::<R>(b.d)) * z);
    let (k, c) = (six_bits(b.ql@, b.qh@, e) - 32, six_bits(other.ql@, other.qh@, e) - 32);
    assert(req(step, rzero::<R>()) == (s == 0 as real));
    if req(
        crate::scale::extreme_of(crate::format::q6_k::q6k_fits(x, w), 16),
        rzero::<R>(),
    ) {
        assert(b.scales@[e / 16] == 0);
        lemma_none(z, val(rhalf::<R>(b.d)));
        lemma_turn(z, val(rhalf::<R>(b.d)));
    }
    if s == 0 as real {
        lemma_none(s, k as real);
        lemma_none(s, c as real);
    } else {
        assert(six_bits(b.ql@, b.qh@, e) == crate::format::q6_k::q6k_code(x, w, step, e));
        lemma_taken(val, x[e], step, -32, 31, c);
        lemma_turn(s, k as real);
        lemma_turn(s, c as real);
    }
}

} // verus!
