//! Carriers that do not round.
//!
//! No machine word holds every number, but a proof can carry one along: a [`Number`] has nothing in
//! it at run time, and stands for a real number all the same. Its sums and products are exact, so
//! what is said of exact carriers is said of something. [`Extended`] adds a value below all numbers
//! and one above. What a program would have to look at a number to answer - which of two is the
//! smaller, which integer is nearest - neither can answer, and gives a constant.
use vstd::prelude::*;
use crate::arith::{
    Brain, Half, Real, lawful, radd, rdiv, rexp, rfma, rinf, rint, rlt, rmax, rmul, rneg, rsub,
    rzero,
};
use crate::exact::attention::{Reading, unseen};
use crate::exact::numbers::{larger, size};

verus! {

/// A real number, known to proofs alone.
#[derive(Clone, Copy)]
pub struct Number {
    pub v: Ghost<real>,
}

impl Real for Number {
    fn zero() -> (r: Number)
        ensures
            r.v@ == 0 as real,
    {
        Number { v: Ghost(0 as real) }
    }

    fn inf() -> (r: Number)
        ensures
            r.v@ == 0 as real,
    {
        Number { v: Ghost(0 as real) }
    }

    fn from_i32(i: i32) -> (r: Number)
        ensures
            r.v@ == i as real,
    {
        Number { v: Ghost(i as real) }
    }

    fn from_count(n: usize) -> (r: Number)
        ensures
            r.v@ == n as real,
    {
        Number { v: Ghost(n as real) }
    }

    fn from_bits(b: u32) -> (r: Number)
        ensures
            r.v@ == b as real,
    {
        Number { v: Ghost(b as real) }
    }

    fn from_half(h: Half) -> (r: Number)
        ensures
            r.v@ == h.bits as real,
    {
        Number { v: Ghost(h.bits as real) }
    }

    fn plus(a: Number, b: Number) -> (r: Number)
        ensures
            r.v@ == a.v@ + b.v@,
    {
        Number { v: Ghost(a.v@ + b.v@) }
    }

    fn minus(a: Number, b: Number) -> (r: Number)
        ensures
            r.v@ == a.v@ - b.v@,
    {
        Number { v: Ghost(a.v@ - b.v@) }
    }

    fn times(a: Number, b: Number) -> (r: Number)
        ensures
            r.v@ == a.v@ * b.v@,
    {
        Number { v: Ghost(a.v@ * b.v@) }
    }

    fn over(a: Number, b: Number) -> (r: Number)
        ensures
            r.v@ == a.v@ / b.v@,
    {
        Number { v: Ghost(a.v@ / b.v@) }
    }

    fn fused(a: Number, b: Number, c: Number) -> (r: Number)
        ensures
            r.v@ == a.v@ * b.v@ + c.v@,
    {
        Number { v: Ghost(a.v@ * b.v@ + c.v@) }
    }

    fn negate(a: Number) -> (r: Number)
        ensures
            r.v@ == -a.v@,
    {
        Number { v: Ghost(-a.v@) }
    }

    fn magnitude(a: Number) -> (r: Number)
        ensures
            r.v@ == size(a.v@),
    {
        Number { v: Ghost(size(a.v@)) }
    }

    fn greater(a: Number, b: Number) -> (r: Number)
        ensures
            r.v@ == larger(a.v@, b.v@),
    {
        Number { v: Ghost(larger(a.v@, b.v@)) }
    }

    fn lesser(a: Number, b: Number) -> (r: Number)
        ensures
            r.v@ == -larger(-a.v@, -b.v@),
    {
        Number { v: Ghost(-larger(-a.v@, -b.v@)) }
    }

    fn below(a: Number, b: Number) -> (r: bool)
        ensures
            r == false,
    {
        false
    }

    fn root(a: Number) -> (r: Number)
        ensures
            r.v@ == 0 as real,
    {
        Number { v: Ghost(0 as real) }
    }

    fn exponential(a: Number) -> (r: Number)
        ensures
            r.v@ == 0 as real,
    {
        Number { v: Ghost(0 as real) }
    }

    fn logarithm(a: Number) -> (r: Number)
        ensures
            r.v@ == 0 as real,
    {
        Number { v: Ghost(0 as real) }
    }

    fn tangent_h(a: Number) -> (r: Number)
        ensures
            r.v@ == 0 as real,
    {
        Number { v: Ghost(0 as real) }
    }

    fn error_fn(a: Number) -> (r: Number)
        ensures
            r.v@ == 0 as real,
    {
        Number { v: Ghost(0 as real) }
    }

    fn to_bits(a: Number) -> (r: u32)
        ensures
            r == 0,
    {
        0
    }

    fn to_half(a: Number) -> (r: Half)
        ensures
            r.bits == 0,
    {
        Half { bits: 0 }
    }

    fn to_brain(a: Number) -> (r: Brain)
        ensures
            r.bits == 0,
    {
        Brain { bits: 0 }
    }

    fn at_most(a: Number, b: Number) -> (r: bool)
        ensures
            r == false,
    {
        false
    }

    fn same(a: Number, b: Number) -> (r: bool)
        ensures
            r == false,
    {
        false
    }

    fn nearest(a: Number) -> (r: i32)
        ensures
            r == 0,
    {
        0
    }

    fn log2_floor(a: Number) -> (r: i32)
        ensures
            r == 0,
    {
        0
    }
}

/// The operations on numbers are functions.
pub proof fn numbers_are_lawful()
    ensures
        lawful::<Number>(),
{
    reveal(lawful);
}

/// Whatever the operands, a number's sums, differences, products and fused steps are exact: read by
/// `v`, [`Number`] meets each condition of an exact carrier.
pub fn numbers_are_exact(a: Number, b: Number, c: Number, i: i32)
    ensures
        rzero::<Number>().v@ == 0 as real,
        rint::<Number>(i).v@ == i as real,
        radd(a, b).v@ == a.v@ + b.v@,
        rsub(a, b).v@ == a.v@ - b.v@,
        rmul(a, b).v@ == a.v@ * b.v@,
        rfma(a, b, c).v@ == a.v@ * b.v@ + c.v@,
        rneg(a).v@ == -a.v@,
{
    results::<Number>(a, b, c, i);
}

/// The names of the results are results.
fn results<R: Real>(a: R, b: R, c: R, i: i32)
    ensures
        call_ensures(R::zero, (), rzero::<R>()),
        call_ensures(R::from_i32, (i,), rint::<R>(i)),
        call_ensures(R::plus, (a, b), radd(a, b)),
        call_ensures(R::minus, (a, b), rsub(a, b)),
        call_ensures(R::times, (a, b), rmul(a, b)),
        call_ensures(R::fused, (a, b, c), rfma(a, b, c)),
        call_ensures(R::negate, (a,), rneg(a)),
{
    proof {
        reveal(rzero);
        reveal(rint);
        reveal(radd);
        reveal(rsub);
        reveal(rmul);
        reveal(rfma);
        reveal(rneg);
    }
    R::zero();
    R::from_i32(i);
    R::plus(a, b);
    R::minus(a, b);
    R::times(a, b);
    R::fused(a, b, c);
    R::negate(a);
}

/// A real number, or the value below them all, or the one above.
#[derive(Clone, Copy)]
pub enum Extended {
    Low,
    Finite(Ghost<real>),
    High,
}

impl Extended {
    /// The value on the other side of zero.
    pub open spec fn turned(self) -> Extended {
        match self {
            Extended::Low => Extended::High,
            Extended::Finite(x) => Extended::Finite(Ghost(-x@)),
            Extended::High => Extended::Low,
        }
    }

    fn flipped(self) -> (r: Extended)
        ensures
            r == self.turned(),
    {
        match self {
            Extended::Low => Extended::High,
            Extended::Finite(x) => Extended::Finite(Ghost(-x@)),
            Extended::High => Extended::Low,
        }
    }
}

impl Real for Extended {
    fn zero() -> (r: Extended)
        ensures
            r == Extended::Finite(Ghost(0 as real)),
    {
        Extended::Finite(Ghost(0 as real))
    }

    fn inf() -> (r: Extended)
        ensures
            r == Extended::High,
    {
        Extended::High
    }

    fn from_i32(i: i32) -> (r: Extended)
        ensures
            r == Extended::Finite(Ghost(i as real)),
    {
        Extended::Finite(Ghost(i as real))
    }

    fn from_count(n: usize) -> (r: Extended)
        ensures
            r == Extended::Finite(Ghost(n as real)),
    {
        Extended::Finite(Ghost(n as real))
    }

    fn from_bits(b: u32) -> (r: Extended)
        ensures
            r == Extended::Finite(Ghost(b as real)),
    {
        Extended::Finite(Ghost(b as real))
    }

    fn from_half(h: Half) -> (r: Extended)
        ensures
            r == Extended::Finite(Ghost(h.bits as real)),
    {
        Extended::Finite(Ghost(h.bits as real))
    }

    fn plus(a: Extended, b: Extended) -> (r: Extended)
        ensures
            r == (match (a, b) {
                (Extended::Finite(x), Extended::Finite(y)) => Extended::Finite(Ghost(x@ + y@)),
                (Extended::Finite(_), _) => b,
                _ => a,
            }),
    {
        match (a, b) {
            (Extended::Finite(x), Extended::Finite(y)) => Extended::Finite(Ghost(x@ + y@)),
            (Extended::Finite(_), _) => b,
            _ => a,
        }
    }

    fn minus(a: Extended, b: Extended) -> (r: Extended)
        ensures
            r == (match (a, b) {
                (Extended::Finite(x), Extended::Finite(y)) => Extended::Finite(Ghost(x@ - y@)),
                (Extended::Finite(_), _) => b.turned(),
                _ => a,
            }),
    {
        match (a, b) {
            (Extended::Finite(x), Extended::Finite(y)) => Extended::Finite(Ghost(x@ - y@)),
            (Extended::Finite(_), _) => b.flipped(),
            _ => a,
        }
    }

    fn times(a: Extended, b: Extended) -> (r: Extended)
        ensures
            r == (match (a, b) {
                (Extended::Finite(x), Extended::Finite(y)) => Extended::Finite(Ghost(x@ * y@)),
                (Extended::Finite(_), _) => b,
                _ => a,
            }),
    {
        match (a, b) {
            (Extended::Finite(x), Extended::Finite(y)) => Extended::Finite(Ghost(x@ * y@)),
            (Extended::Finite(_), _) => b,
            _ => a,
        }
    }

    fn over(a: Extended, b: Extended) -> (r: Extended)
        ensures
            r == (match (a, b) {
                (Extended::Finite(x), Extended::Finite(y)) => Extended::Finite(Ghost(x@ / y@)),
                (Extended::Finite(_), _) => b,
                _ => a,
            }),
    {
        match (a, b) {
            (Extended::Finite(x), Extended::Finite(y)) => Extended::Finite(Ghost(x@ / y@)),
            (Extended::Finite(_), _) => b,
            _ => a,
        }
    }

    fn fused(a: Extended, b: Extended, c: Extended) -> (r: Extended)
        ensures
            r == (match (a, b, c) {
                (Extended::Finite(x), Extended::Finite(y), Extended::Finite(z)) => Extended::Finite(
                    Ghost(x@ * y@ + z@),
                ),
                _ => c,
            }),
    {
        match (a, b, c) {
            (Extended::Finite(x), Extended::Finite(y), Extended::Finite(z)) => Extended::Finite(
                Ghost(x@ * y@ + z@),
            ),
            _ => c,
        }
    }

    fn negate(a: Extended) -> (r: Extended)
        ensures
            r == a.turned(),
    {
        a.flipped()
    }

    fn magnitude(a: Extended) -> (r: Extended)
        ensures
            r == (match a {
                Extended::Finite(x) => Extended::Finite(Ghost(size(x@))),
                _ => Extended::High,
            }),
    {
        match a {
            Extended::Finite(x) => Extended::Finite(Ghost(size(x@))),
            _ => Extended::High,
        }
    }

    fn greater(a: Extended, b: Extended) -> (r: Extended)
        ensures
            r == (match (a, b) {
                (Extended::Low, _) => b,
                (Extended::High, _) => a,
                (_, Extended::High) => b,
                _ => a,
            }),
    {
        match (a, b) {
            (Extended::Low, _) => b,
            (Extended::High, _) => a,
            (_, Extended::High) => b,
            _ => a,
        }
    }

    fn lesser(a: Extended, b: Extended) -> (r: Extended)
        ensures
            r == (match (a, b) {
                (Extended::High, _) => b,
                (Extended::Low, _) => a,
                (_, Extended::Low) => b,
                _ => a,
            }),
    {
        match (a, b) {
            (Extended::High, _) => b,
            (Extended::Low, _) => a,
            (_, Extended::Low) => b,
            _ => a,
        }
    }

    fn below(a: Extended, b: Extended) -> (r: bool)
        ensures
            r == (match (a, b) {
                (Extended::Low, Extended::Low) => false,
                (Extended::Low, _) => true,
                _ => false,
            }),
    {
        match (a, b) {
            (Extended::Low, Extended::Low) => false,
            (Extended::Low, _) => true,
            _ => false,
        }
    }

    fn exponential(a: Extended) -> (r: Extended)
        ensures
            r == (match a {
                Extended::Finite(x) => Extended::Finite(Ghost(1 as real)),
                Extended::Low => Extended::Finite(Ghost(0 as real)),
                Extended::High => Extended::High,
            }),
    {
        match a {
            Extended::Finite(x) => Extended::Finite(Ghost(1 as real)),
            Extended::Low => Extended::Finite(Ghost(0 as real)),
            Extended::High => Extended::High,
        }
    }

    fn root(a: Extended) -> (r: Extended)
        ensures
            r == a,
    {
        a
    }

    fn logarithm(a: Extended) -> (r: Extended)
        ensures
            r == a,
    {
        a
    }

    fn tangent_h(a: Extended) -> (r: Extended)
        ensures
            r == a,
    {
        a
    }

    fn error_fn(a: Extended) -> (r: Extended)
        ensures
            r == a,
    {
        a
    }

    fn to_bits(a: Extended) -> (r: u32)
        ensures
            r == 0,
    {
        0
    }

    fn to_half(a: Extended) -> (r: Half)
        ensures
            r.bits == 0,
    {
        Half { bits: 0 }
    }

    fn to_brain(a: Extended) -> (r: Brain)
        ensures
            r.bits == 0,
    {
        Brain { bits: 0 }
    }

    fn at_most(a: Extended, b: Extended) -> (r: bool)
        ensures
            r == false,
    {
        false
    }

    fn same(a: Extended, b: Extended) -> (r: bool)
        ensures
            r == false,
    {
        false
    }

    fn nearest(a: Extended) -> (r: i32)
        ensures
            r == 0,
    {
        0
    }

    fn log2_floor(a: Extended) -> (r: i32)
        ensures
            r == 0,
    {
        0
    }
}

/// The operations on extended numbers are functions.
pub proof fn extended_are_lawful()
    ensures
        lawful::<Extended>(),
{
    reveal(lawful);
}

/// Extended numbers read as the numbers they are, under an exponential that is one everywhere.
pub open spec fn flat_reading() -> Reading<Extended> {
    Reading {
        finite: |a: Extended| a is Finite,
        val: |a: Extended| a->Finite_0@,
        exp: |x: real| 1 as real,
    }
}

/// Whatever the operands, [`Extended`] meets each condition of a faithful reading: its finite values
/// are numbers, and the value below them stays masked.
pub fn extended_reads_faithfully(a: Extended, b: Extended, Ghost(x): Ghost<real>, Ghost(y): Ghost<real>)
    ensures
        ({
            let m = flat_reading();
            let (p, q) = ((m.val)(a), (m.val)(b));
            let low = unseen::<Extended>();
            &&& m.is(rzero::<Extended>(), 0 as real)
            &&& (m.finite)(a) && (m.finite)(b) ==> m.is(radd(a, b), p + q) && m.is(
                rsub(a, b),
                p - q,
            ) && m.is(rmul(a, b), p * q)
            &&& (m.finite)(a) && (m.finite)(b) && q != 0 as real ==> (m.finite)(rdiv(a, b)) && (
            m.val)(rdiv(a, b)) * q == p
            &&& (m.finite)(a) && (m.finite)(b) ==> rmax(a, b) == a || rmax(a, b) == b
            &&& (m.finite)(a) ==> m.is(rexp(a), (m.exp)(p))
            &&& (m.exp)(x) > 0 as real
            &&& m.adds_up(x, y)
            &&& !(m.finite)(low)
            &&& m.is(rexp(low), 0 as real)
            &&& (m.finite)(a) ==> radd(a, low) == low && rsub(low, a) == low && rlt(low, a)
                && !rlt(a, low) && rmax(a, low) == a && rmax(low, a) == a
        }),
{
    let top = Extended::High;
    let low = Extended::Low;
    bounds::<Extended>(top);
    pairs::<Extended>(a, b);
    pairs::<Extended>(a, low);
    pairs::<Extended>(low, a);
    proof {
        if a is Finite && b is Finite && b->Finite_0@ != 0 as real {
            let (p, q) = (a->Finite_0@, b->Finite_0@);
            assert((p / q) * q == p) by (nonlinear_arith)
                requires
                    q != 0 as real,
            ;
        }
        assert(1 as real * 1 as real == 1 as real) by (nonlinear_arith);
    }
}

/// The names of the results are results.
fn bounds<R: Real>(a: R)
    ensures
        call_ensures(R::zero, (), rzero::<R>()),
        call_ensures(R::inf, (), rinf::<R>()),
        call_ensures(R::negate, (a,), rneg(a)),
{
    proof {
        reveal(rzero);
        reveal(rinf);
        reveal(rneg);
    }
    R::zero();
    R::inf();
    R::negate(a);
}

/// The names of the results are results.
fn pairs<R: Real>(a: R, b: R)
    ensures
        call_ensures(R::plus, (a, b), radd(a, b)),
        call_ensures(R::minus, (a, b), rsub(a, b)),
        call_ensures(R::times, (a, b), rmul(a, b)),
        call_ensures(R::over, (a, b), rdiv(a, b)),
        call_ensures(R::greater, (a, b), rmax(a, b)),
        call_ensures(R::below, (a, b), rlt(a, b)),
        call_ensures(R::exponential, (a,), rexp(a)),
{
    proof {
        reveal(radd);
        reveal(rsub);
        reveal(rmul);
        reveal(rdiv);
        reveal(rmax);
        reveal(rlt);
        reveal(rexp);
    }
    R::plus(a, b);
    R::minus(a, b);
    R::times(a, b);
    R::over(a, b);
    R::greater(a, b);
    R::below(a, b);
    R::exponential(a);
}

} // verus!
