//! Integers as a carrier.
//!
//! Sums and products of integer codes need no rounding, and over [`Whole`] they have none: a kernel
//! run over it computes its integers and nothing else. What integers have no answer for - a
//! root, an exponential - is zero.
use vstd::prelude::*;
use crate::arith::{Brain, Half, Real, lawful};

verus! {

/// An integer modulo 2^32.
#[derive(Clone, Copy, Debug, PartialEq, Eq, Structural)]
pub struct Whole {
    pub v: i32,
}

impl Real for Whole {
    fn zero() -> (r: Whole)
        ensures
            r.v == 0,
    {
        Whole { v: 0 }
    }

    fn inf() -> (r: Whole)
        ensures
            r.v == i32::MAX,
    {
        Whole { v: i32::MAX }
    }

    fn from_i32(i: i32) -> (r: Whole)
        ensures
            r.v == i,
    {
        Whole { v: i }
    }

    fn from_count(n: usize) -> (r: Whole)
        ensures
            r.v == (if n <= i32::MAX {
                n as i32
            } else {
                i32::MAX
            }),
    {
        if n <= 2147483647 {
            Whole { v: n as i32 }
        } else {
            Whole { v: i32::MAX }
        }
    }

    fn from_bits(b: u32) -> (r: Whole)
        ensures
            r.v == 0,
    {
        Whole { v: 0 }
    }

    fn to_bits(a: Whole) -> (r: u32)
        ensures
            r == 0,
    {
        0
    }

    /// The bits of a half-precision number, as an integer.
    fn from_half(h: Half) -> (r: Whole)
        ensures
            r.v == h.bits,
    {
        Whole { v: h.bits as i32 }
    }

    fn to_half(a: Whole) -> (r: Half)
        ensures
            r.bits == 0,
    {
        Half { bits: 0 }
    }

    fn to_brain(a: Whole) -> (r: Brain)
        ensures
            r.bits == 0,
    {
        Brain { bits: 0 }
    }

    fn plus(a: Whole, b: Whole) -> (r: Whole)
        ensures
            r.v == a.v.wrapping_add(b.v),
    {
        Whole { v: a.v.wrapping_add(b.v) }
    }

    fn minus(a: Whole, b: Whole) -> (r: Whole)
        ensures
            r.v == a.v.wrapping_sub(b.v),
    {
        Whole { v: a.v.wrapping_sub(b.v) }
    }

    fn times(a: Whole, b: Whole) -> (r: Whole)
        ensures
            r.v == a.v.wrapping_mul(b.v),
    {
        Whole { v: a.v.wrapping_mul(b.v) }
    }

    fn over(a: Whole, b: Whole) -> (r: Whole)
        ensures
            r.v == 0,
    {
        Whole { v: 0 }
    }

    fn fused(a: Whole, b: Whole, c: Whole) -> (r: Whole)
        ensures
            r.v == a.v.wrapping_mul(b.v).wrapping_add(c.v),
    {
        Whole { v: a.v.wrapping_mul(b.v).wrapping_add(c.v) }
    }

    fn negate(a: Whole) -> (r: Whole)
        ensures
            r.v == 0i32.wrapping_sub(a.v),
    {
        Whole { v: 0i32.wrapping_sub(a.v) }
    }

    fn magnitude(a: Whole) -> (r: Whole)
        ensures
            r.v == (if a.v < 0 {
                0i32.wrapping_sub(a.v)
            } else {
                a.v
            }),
    {
        Whole { v: if a.v < 0 { 0i32.wrapping_sub(a.v) } else { a.v } }
    }

    fn greater(a: Whole, b: Whole) -> (r: Whole)
        ensures
            r == (if a.v < b.v {
                b
            } else {
                a
            }),
    {
        if a.v < b.v {
            b
        } else {
            a
        }
    }

    fn lesser(a: Whole, b: Whole) -> (r: Whole)
        ensures
            r == (if b.v < a.v {
                b
            } else {
                a
            }),
    {
        if b.v < a.v {
            b
        } else {
            a
        }
    }

    fn below(a: Whole, b: Whole) -> (r: bool)
        ensures
            r == (a.v < b.v),
    {
        a.v < b.v
    }

    fn at_most(a: Whole, b: Whole) -> (r: bool)
        ensures
            r == (a.v <= b.v),
    {
        a.v <= b.v
    }

    fn same(a: Whole, b: Whole) -> (r: bool)
        ensures
            r == (a.v == b.v),
    {
        a.v == b.v
    }

    fn nearest(a: Whole) -> (r: i32)
        ensures
            r == a.v,
    {
        a.v
    }

    fn log2_floor(a: Whole) -> (r: i32)
        ensures
            r == 0,
    {
        0
    }

    fn root(a: Whole) -> (r: Whole)
        ensures
            r.v == 0,
    {
        Whole { v: 0 }
    }

    fn exponential(a: Whole) -> (r: Whole)
        ensures
            r.v == 0,
    {
        Whole { v: 0 }
    }

    fn logarithm(a: Whole) -> (r: Whole)
        ensures
            r.v == 0,
    {
        Whole { v: 0 }
    }

    fn tangent_h(a: Whole) -> (r: Whole)
        ensures
            r.v == 0,
    {
        Whole { v: 0 }
    }

    fn error_fn(a: Whole) -> (r: Whole)
        ensures
            r.v == 0,
    {
        Whole { v: 0 }
    }
}

/// A carrier each of whose operations says what its result is, is lawful.
pub proof fn integers_are_lawful()
    ensures
        lawful::<Whole>(),
{
    reveal(lawful);
}

} // verus!
