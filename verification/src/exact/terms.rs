//! Small identities between real numbers.
use vstd::prelude::*;

verus! {

pub(crate) proof fn lemma_cast(a: int, b: int)
    ensures
        (a * b) as real == (a as real) * (b as real),
{
    let (ra, rb) = (a as real, b as real);
    assert((a * b) as real == ra * rb) by (nonlinear_arith)
        requires
            ra == a as real,
            rb == b as real,
    ;
}

pub(crate) proof fn lemma_offset_place(dx: real, dy: real, m: real, c: real, q: real)
    ensures
        (c * dx + m) * (q * dy) == (dx * dy) * (c * q) + (m * dy) * q,
{
    let (p, w) = (c * dx, q * dy);
    assert((p + m) * w == p * w + m * w) by (nonlinear_arith);
    assert((c * dx) * (q * dy) == (dx * dy) * (c * q)) by (nonlinear_arith);
    assert(m * (q * dy) == (m * dy) * q) by (nonlinear_arith);
}

pub(crate) proof fn lemma_apart(dy: real, d: real, dm: real, su: real, sv: real)
    ensures
        (dy * d) * su + (-(dy * dm)) * sv == dy * (d * su - dm * sv),
{
    let (p, n, k) = (d * su, dm * sv, dy * dm);
    assert(dy * (p - n) == dy * p - dy * n) by (nonlinear_arith);
    assert((dy * d) * su == dy * (d * su)) by (nonlinear_arith);
    assert((dy * dm) * sv == dy * (dm * sv)) by (nonlinear_arith);
    assert((-k) * sv == -(k * sv)) by (nonlinear_arith);
}

pub(crate) proof fn lemma_place(d: real, dm: real, dy: real, a: real, c: real, m: real, y: real)
    ensures
        ((d * a) * c - dm * m) * (y * dy) == (dy * d) * (a * (c * y)) + (-(dy * dm)) * (m * y),
{
    let (p, n, w, k, z) = ((d * a) * c, dm * m, y * dy, dy * dm, m * y);
    assert((p - n) * w == p * w - n * w) by (nonlinear_arith);
    assert(((d * a) * c) * (y * dy) == (dy * d) * (a * (c * y))) by (nonlinear_arith);
    assert((dm * m) * (y * dy) == (dy * dm) * (m * y)) by (nonlinear_arith);
    assert((-k) * z == -(k * z)) by (nonlinear_arith);
}

} // verus!
