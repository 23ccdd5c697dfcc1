//! The arithmetic every kernel is written over.
//!
//! A kernel of this library decides which values meet, in which order, and how their integer
//! codes are unpacked; it does not decide how two numbers are added. The second part is a
//! parameter, [`Real`], whose single-precision instance is what a program runs. The contracts
//! name the result of each operation (`radd`, `rmul`, ...) and so fix the exact tree of
//! operations a result is computed by - the order of a sum is part of its answer.
//!
//! [`lawful`] is what a kernel asks of its carrier: one result for one tuple of operands.
use vstd::prelude::*;

verus! {

/// A half-precision number, as the sixteen bits a block stores.
#[derive(Clone, Copy, Debug, PartialEq, Eq, Structural)]
pub struct Half {
    pub bits: u16,
}

/// A brain float, as its sixteen bits: the top half of a single-precision pattern.
#[derive(Clone, Copy, Debug, PartialEq, Eq, Structural)]
pub struct Brain {
    pub bits: u16,
}

impl Half {
    /// Positive zero.
    pub fn zero() -> (h: Half)
        ensures
            h.bits == 0,
    {
        Half { bits: 0 }
    }

    /// The number whose little-endian bytes are `lo` and `hi`.
    pub fn from_le_bytes(lo: u8, hi: u8) -> (h: Half)
        ensures
            h.bits == lo + 256 * hi,
    {
        Half { bits: lo as u16 + 256 * (hi as u16) }
    }

    /// The little-endian bytes.
    pub fn to_le_bytes(self) -> (b: (u8, u8))
        ensures
            self.bits == b.0 + 256 * b.1,
    {
        ((self.bits % 256) as u8, (self.bits / 256) as u8)
    }
}

/// A number type the kernels can be run over.
pub trait Real: Copy {
    /// The additive zero.
    fn zero() -> Self;

    /// The value above every finite one.
    fn inf() -> Self;

    /// An integer, rounded to the carrier.
    fn from_i32(i: i32) -> Self;

    /// A count, rounded to the carrier.
    fn from_count(n: usize) -> Self;

    /// The value whose single-precision pattern is `b`.
    fn from_bits(b: u32) -> Self;

    /// The single-precision pattern of a value.
    fn to_bits(a: Self) -> u32;

    /// A half-precision value, widened.
    fn from_half(h: Half) -> Self;

    /// The nearest half-precision value.
    fn to_half(a: Self) -> Half;

    /// The nearest brain-float value.
    fn to_brain(a: Self) -> Brain;

    /// `a + b`.
    fn plus(a: Self, b: Self) -> Self;

    /// `a - b`.
    fn minus(a: Self, b: Self) -> Self;

    /// `a * b`.
    fn times(a: Self, b: Self) -> Self;

    /// `a / b`.
    fn over(a: Self, b: Self) -> Self;

    /// `a * b + c`, rounded once.
    fn fused(a: Self, b: Self, c: Self) -> Self;

    /// `-a`.
    fn negate(a: Self) -> Self;

    /// `|a|`.
    fn magnitude(a: Self) -> Self;

    /// The larger of two values.
    fn greater(a: Self, b: Self) -> Self;

    /// The smaller of two values.
    fn lesser(a: Self, b: Self) -> Self;

    /// `a < b`.
    fn below(a: Self, b: Self) -> bool;

    /// `a <= b`.
    fn at_most(a: Self, b: Self) -> bool;

    /// `a == b` as the carrier compares.
    fn same(a: Self, b: Self) -> bool;

    /// The nearest integer, halves away from zero, saturating.
    fn nearest(a: Self) -> i32;

    /// The floor of the base-two logarithm, saturating.
    fn log2_floor(a: Self) -> i32;

    /// The square root.
    fn root(a: Self) -> Self;

    /// `e` to the power `a`.
    fn exponential(a: Self) -> Self;

    /// The natural logarithm.
    fn logarithm(a: Self) -> Self;

    /// The hyperbolic tangent.
    fn tangent_h(a: Self) -> Self;

    /// The Gauss error function.
    fn error_fn(a: Self) -> Self;

}

/// What [`Real::zero`] returns.
#[verifier::opaque]
pub open spec fn rzero<R: Real>() -> R {
    choose|r: R| call_ensures(R::zero, (), r)
}

/// What [`Real::inf`] returns.
#[verifier::opaque]
pub open spec fn rinf<R: Real>() -> R {
    choose|r: R| call_ensures(R::inf, (), r)
}

/// What [`Real::from_i32`] returns.
#[verifier::opaque]
pub open spec fn rint<R: Real>(i: i32) -> R {
    choose|r: R| call_ensures(R::from_i32, (i,), r)
}

/// What [`Real::from_count`] returns.
#[verifier::opaque]
pub open spec fn rcount<R: Real>(n: usize) -> R {
    choose|r: R| call_ensures(R::from_count, (n,), r)
}

/// What [`Real::from_bits`] returns.
#[verifier::opaque]
pub open spec fn rbits<R: Real>(b: u32) -> R {
    choose|r: R| call_ensures(R::from_bits, (b,), r)
}

/// What [`Real::to_bits`] returns.
#[verifier::opaque]
pub open spec fn rto_bits<R: Real>(a: R) -> u32 {
    choose|r: u32| call_ensures(R::to_bits, (a,), r)
}

/// What [`Real::from_half`] returns.
#[verifier::opaque]
pub open spec fn rhalf<R: Real>(h: Half) -> R {
    choose|r: R| call_ensures(R::from_half, (h,), r)
}

/// What [`Real::to_half`] returns.
#[verifier::opaque]
pub open spec fn rto_half<R: Real>(a: R) -> Half {
    choose|r: Half| call_ensures(R::to_half, (a,), r)
}

/// What [`Real::to_brain`] returns.
#[verifier::opaque]
pub open spec fn rto_brain<R: Real>(a: R) -> Brain {
    choose|r: Brain| call_ensures(R::to_brain, (a,), r)
}

/// What [`Real::plus`] returns.
#[verifier::opaque]
pub open spec fn radd<R: Real>(a: R, b: R) -> R {
    choose|r: R| call_ensures(R::plus, (a, b), r)
}

/// What [`Real::minus`] returns.
#[verifier::opaque]
pub open spec fn rsub<R: Real>(a: R, b: R) -> R {
    choose|r: R| call_ensures(R::minus, (a, b), r)
}

/// What [`Real::times`] returns.
#[verifier::opaque]
pub open spec fn rmul<R: Real>(a: R, b: R) -> R {
    choose|r: R| call_ensures(R::times, (a, b), r)
}

/// What [`Real::over`] returns.
#[verifier::opaque]
pub open spec fn rdiv<R: Real>(a: R, b: R) -> R {
    choose|r: R| call_ensures(R::over, (a, b), r)
}

/// What [`Real::fused`] returns.
#[verifier::opaque]
pub open spec fn rfma<R: Real>(a: R, b: R, c: R) -> R {
    choose|r: R| call_ensures(R::fused, (a, b, c), r)
}

/// What [`Real::negate`] returns.
#[verifier::opaque]
pub open spec fn rneg<R: Real>(a: R) -> R {
    choose|r: R| call_ensures(R::negate, (a,), r)
}

/// What [`Real::magnitude`] returns.
#[verifier::opaque]
pub open spec fn rabs<R: Real>(a: R) -> R {
    choose|r: R| call_ensures(R::magnitude, (a,), r)
}

/// What [`Real::greater`] returns.
#[verifier::opaque]
pub open spec fn rmax<R: Real>(a: R, b: R) -> R {
    choose|r: R| call_ensures(R::greater, (a, b), r)
}

/// What [`Real::lesser`] returns.
#[verifier::opaque]
pub open spec fn rmin<R: Real>(a: R, b: R) -> R {
    choose|r: R| call_ensures(R::lesser, (a, b), r)
}

/// What [`Real::below`] returns.
#[verifier::opaque]
pub open spec fn rlt<R: Real>(a: R, b: R) -> bool {
    choose|r: bool| call_ensures(R::below, (a, b), r)
}

/// What [`Real::at_most`] returns.
#[verifier::opaque]
pub open spec fn rle<R: Real>(a: R, b: R) -> bool {
    choose|r: bool| call_ensures(R::at_most, (a, b), r)
}

/// What [`Real::same`] returns.
#[verifier::opaque]
pub open spec fn req<R: Real>(a: R, b: R) -> bool {
    choose|r: bool| call_ensures(R::same, (a, b), r)
}

/// What [`Real::nearest`] returns.
#[verifier::opaque]
pub open spec fn rround<R: Real>(a: R) -> i32 {
    choose|r: i32| call_ensures(R::nearest, (a,), r)
}

/// What [`Real::log2_floor`] returns.
#[verifier::opaque]
pub open spec fn rlog2_floor<R: Real>(a: R) -> i32 {
    choose|r: i32| call_ensures(R::log2_floor, (a,), r)
}

/// What [`Real::root`] returns.
#[verifier::opaque]
pub open spec fn rsqrt<R: Real>(a: R) -> R {
    choose|r: R| call_ensures(R::root, (a,), r)
}

/// What [`Real::exponential`] returns.
#[verifier::opaque]
pub open spec fn rexp<R: Real>(a: R) -> R {
    choose|r: R| call_ensures(R::exponential, (a,), r)
}

/// What [`Real::logarithm`] returns.
#[verifier::opaque]
pub open spec fn rln<R: Real>(a: R) -> R {
    choose|r: R| call_ensures(R::logarithm, (a,), r)
}

/// What [`Real::tangent_h`] returns.
#[verifier::opaque]
pub open spec fn rtanh<R: Real>(a: R) -> R {
    choose|r: R| call_ensures(R::tangent_h, (a,), r)
}

/// What [`Real::error_fn`] returns.
#[verifier::opaque]
pub open spec fn rerf<R: Real>(a: R) -> R {
    choose|r: R| call_ensures(R::error_fn, (a,), r)
}

/// A sum of two values does not depend on their order.
pub open spec fn sums_commute<R: Real>() -> bool {
    forall|a: R, b: R| #[trigger] radd(a, b) == radd(b, a)
}

/// The carrier computes functions: each operation has one result for one tuple of operands.
#[verifier::opaque]
pub open spec fn lawful<R: Real>() -> bool {
    &&& forall|r: R, s: R| #[trigger] call_ensures(R::zero, (), r) && #[trigger] call_ensures(
        R::zero,
        (),
        s,
    ) ==> r == s
    &&& forall|r: R, s: R| #[trigger] call_ensures(R::inf, (), r) && #[trigger] call_ensures(
        R::inf,
        (),
        s,
    ) ==> r == s
    &&& forall|i: i32, r: R, s: R| #[trigger] call_ensures(R::from_i32, (i,), r) && #[trigger] call_ensures(
        R::from_i32,
        (i,),
        s,
    ) ==> r == s
    &&& forall|n: usize, r: R, s: R| #[trigger] call_ensures(R::from_count, (n,), r) && #[trigger] call_ensures(
        R::from_count,
        (n,),
        s,
    ) ==> r == s
    &&& forall|b: u32, r: R, s: R| #[trigger] call_ensures(R::from_bits, (b,), r) && #[trigger] call_ensures(
        R::from_bits,
        (b,),
        s,
    ) ==> r == s
    &&& forall|a: R, r: u32, s: u32| #[trigger] call_ensures(R::to_bits, (a,), r) && #[trigger] call_ensures(
        R::to_bits,
        (a,),
        s,
    ) ==> r == s
    &&& forall|h: Half, r: R, s: R| #[trigger] call_ensures(R::from_half, (h,), r) && #[trigger] call_ensures(
        R::from_half,
        (h,),
        s,
    ) ==> r == s
    &&& forall|a: R, r: Half, s: Half| #[trigger] call_ensures(R::to_half, (a,), r) && #[trigger] call_ensures(
        R::to_half,
        (a,),
        s,
    ) ==> r == s
    &&& forall|a: R, r: Brain, s: Brain| #[trigger] call_ensures(R::to_brain, (a,), r) && #[trigger] call_ensures(
        R::to_brain,
        (a,),
        s,
    ) ==> r == s
    &&& forall|a: R, b: R, r: R, s: R| #[trigger] call_ensures(R::plus, (a, b), r) && #[trigger] call_ensures(
        R::plus,
        (a, b),
        s,
    ) ==> r == s
    &&& forall|a: R, b: R, r: R, s: R| #[trigger] call_ensures(R::minus, (a, b), r) && #[trigger] call_ensures(
        R::minus,
        (a, b),
        s,
    ) ==> r == s
    &&& forall|a: R, b: R, r: R, s: R| #[trigger] call_ensures(R::times, (a, b), r) && #[trigger] call_ensures(
        R::times,
        (a, b),
        s,
    ) ==> r == s
    &&& forall|a: R, b: R, r: R, s: R| #[trigger] call_ensures(R::over, (a, b), r) && #[trigger] call_ensures(
        R::over,
        (a, b),
        s,
    ) ==> r == s
    &&& forall|a: R, b: R, c: R, r: R, s: R| #[trigger] call_ensures(R::fused, (a, b, c), r) && #[trigger] call_ensures(
        R::fused,
        (a, b, c),
        s,
    ) ==> r == s
    &&& forall|a: R, r: R, s: R| #[trigger] call_ensures(R::negate, (a,), r) && #[trigger] call_ensures(
        R::negate,
        (a,),
        s,
    ) ==> r == s
    &&& forall|a: R, r: R, s: R| #[trigger] call_ensures(R::magnitude, (a,), r) && #[trigger] call_ensures(
        R::magnitude,
        (a,),
        s,
    ) ==> r == s
    &&& forall|a: R, b: R, r: R, s: R| #[trigger] call_ensures(R::greater, (a, b), r) && #[trigger] call_ensures(
        R::greater,
        (a, b),
        s,
    ) ==> r == s
    &&& forall|a: R, b: R, r: R, s: R| #[trigger] call_ensures(R::lesser, (a, b), r) && #[trigger] call_ensures(
        R::lesser,
        (a, b),
        s,
    ) ==> r == s
    &&& forall|a: R, b: R, r: bool, s: bool| #[trigger] call_ensures(R::below, (a, b), r) && #[trigger] call_ensures(
        R::below,
        (a, b),
        s,
    ) ==> r == s
    &&& forall|a: R, b: R, r: bool, s: bool| #[trigger] call_ensures(R::at_most, (a, b), r) && #[trigger] call_ensures(
        R::at_most,
        (a, b),
        s,
    ) ==> r == s
    &&& forall|a: R, b: R, r: bool, s: bool| #[trigger] call_ensures(R::same, (a, b), r) && #[trigger] call_ensures(
        R::same,
        (a, b),
        s,
    ) ==> r == s
    &&& forall|a: R, r: i32, s: i32| #[trigger] call_ensures(R::nearest, (a,), r) && #[trigger] call_ensures(
        R::nearest,
        (a,),
        s,
    ) ==> r == s
    &&& forall|a: R, r: i32, s: i32| #[trigger] call_ensures(R::log2_floor, (a,), r) && #[trigger] call_ensures(
        R::log2_floor,
        (a,),
        s,
    ) ==> r == s
    &&& forall|a: R, r: R, s: R| #[trigger] call_ensures(R::root, (a,), r) && #[trigger] call_ensures(
        R::root,
        (a,),
        s,
    ) ==> r == s
    &&& forall|a: R, r: R, s: R| #[trigger] call_ensures(R::exponential, (a,), r) && #[trigger] call_ensures(
        R::exponential,
        (a,),
        s,
    ) ==> r == s
    &&& forall|a: R, r: R, s: R| #[trigger] call_ensures(R::logarithm, (a,), r) && #[trigger] call_ensures(
        R::logarithm,
        (a,),
        s,
    ) ==> r == s
    &&& forall|a: R, r: R, s: R| #[trigger] call_ensures(R::tangent_h, (a,), r) && #[trigger] call_ensures(
        R::tangent_h,
        (a,),
        s,
    ) ==> r == s
    &&& forall|a: R, r: R, s: R| #[trigger] call_ensures(R::error_fn, (a,), r) && #[trigger] call_ensures(
        R::error_fn,
        (a,),
        s,
    ) ==> r == s
}

/// The additive zero.
pub fn zero<R: Real>() -> (r: R)
    requires
        lawful::<R>(),
    ensures
        r == rzero::<R>(),
{
    proof {
        reveal(lawful);
        reveal(rzero);
    }
    R::zero()
}

/// The value above every finite one.
pub fn inf<R: Real>() -> (r: R)
    requires
        lawful::<R>(),
    ensures
        r == rinf::<R>(),
{
    proof {
        reveal(lawful);
        reveal(rinf);
    }
    R::inf()
}

/// An integer, rounded to the carrier.
pub fn int_to<R: Real>(i: i32) -> (r: R)
    requires
        lawful::<R>(),
    ensures
        r == rint::<R>(i),
{
    proof {
        reveal(lawful);
        reveal(rint);
    }
    R::from_i32(i)
}

/// A count, rounded to the carrier.
pub fn count_to<R: Real>(n: usize) -> (r: R)
    requires
        lawful::<R>(),
    ensures
        r == rcount::<R>(n),
{
    proof {
        reveal(lawful);
        reveal(rcount);
    }
    R::from_count(n)
}

/// The single-precision pattern of a value.
pub fn to_bits<R: Real>(a: R) -> (r: u32)
    requires
        lawful::<R>(),
    ensures
        r == rto_bits::<R>(a),
{
    proof {
        reveal(lawful);
        reveal(rto_bits);
    }
    R::to_bits(a)
}

/// The value whose single-precision pattern is `b`.
pub fn from_bits<R: Real>(b: u32) -> (r: R)
    requires
        lawful::<R>(),
    ensures
        r == rbits::<R>(b),
{
    proof {
        reveal(lawful);
        reveal(rbits);
    }
    R::from_bits(b)
}

/// A half-precision value, widened.
pub fn widen<R: Real>(h: Half) -> (r: R)
    requires
        lawful::<R>(),
    ensures
        r == rhalf::<R>(h),
{
    proof {
        reveal(lawful);
        reveal(rhalf);
    }
    R::from_half(h)
}

/// The nearest half-precision value.
pub fn narrow<R: Real>(a: R) -> (r: Half)
    requires
        lawful::<R>(),
    ensures
        r == rto_half::<R>(a),
{
    proof {
        reveal(lawful);
        reveal(rto_half);
    }
    R::to_half(a)
}

/// The nearest brain-float value.
pub fn narrow_brain<R: Real>(a: R) -> (r: Brain)
    requires
        lawful::<R>(),
    ensures
        r == rto_brain::<R>(a),
{
    proof {
        reveal(lawful);
        reveal(rto_brain);
    }
    R::to_brain(a)
}

/// `a + b`.
pub fn plus<R: Real>(a: R, b: R) -> (r: R)
    requires
        lawful::<R>(),
    ensures
        r == radd::<R>(a, b),
{
    proof {
        reveal(lawful);
        reveal(radd);
    }
    R::plus(a, b)
}

/// `a - b`.
pub fn minus<R: Real>(a: R, b: R) -> (r: R)
    requires
        lawful::<R>(),
    ensures
        r == rsub::<R>(a, b),
{
    proof {
        reveal(lawful);
        reveal(rsub);
    }
    R::minus(a, b)
}

/// `a * b`.
pub fn times<R: Real>(a: R, b: R) -> (r: R)
    requires
        lawful::<R>(),
    ensures
        r == rmul::<R>(a, b),
{
    proof {
        reveal(lawful);
        reveal(rmul);
    }
    R::times(a, b)
}

/// `a / b`.
pub fn over<R: Real>(a: R, b: R) -> (r: R)
    requires
        lawful::<R>(),
    ensures
        r == rdiv::<R>(a, b),
{
    proof {
        reveal(lawful);
        reveal(rdiv);
    }
    R::over(a, b)
}

/// `a * b + c`, rounded once.
pub fn fma<R: Real>(a: R, b: R, c: R) -> (r: R)
    requires
        lawful::<R>(),
    ensures
        r == rfma::<R>(a, b, c),
{
    proof {
        reveal(lawful);
        reveal(rfma);
    }
    R::fused(a, b, c)
}

/// `-a`.
pub fn neg<R: Real>(a: R) -> (r: R)
    requires
        lawful::<R>(),
    ensures
        r == rneg::<R>(a),
{
    proof {
        reveal(lawful);
        reveal(rneg);
    }
    R::negate(a)
}

/// `|a|`.
pub fn abs<R: Real>(a: R) -> (r: R)
    requires
        lawful::<R>(),
    ensures
        r == rabs::<R>(a),
{
    proof {
        reveal(lawful);
        reveal(rabs);
    }
    R::magnitude(a)
}

/// The larger of two values.
pub fn max<R: Real>(a: R, b: R) -> (r: R)
    requires
        lawful::<R>(),
    ensures
        r == rmax::<R>(a, b),
{
    proof {
        reveal(lawful);
        reveal(rmax);
    }
    R::greater(a, b)
}

/// The smaller of two values.
pub fn min<R: Real>(a: R, b: R) -> (r: R)
    requires
        lawful::<R>(),
    ensures
        r == rmin::<R>(a, b),
{
    proof {
        reveal(lawful);
        reveal(rmin);
    }
    R::lesser(a, b)
}

/// `a < b`.
pub fn lt<R: Real>(a: R, b: R) -> (r: bool)
    requires
        lawful::<R>(),
    ensures
        r == rlt::<R>(a, b),
{
    proof {
        reveal(lawful);
        reveal(rlt);
    }
    R::below(a, b)
}

/// `a <= b`.
pub fn le<R: Real>(a: R, b: R) -> (r: bool)
    requires
        lawful::<R>(),
    ensures
        r == rle::<R>(a, b),
{
    proof {
        reveal(lawful);
        reveal(rle);
    }
    R::at_most(a, b)
}

/// `a == b` as the carrier compares.
pub fn eq<R: Real>(a: R, b: R) -> (r: bool)
    requires
        lawful::<R>(),
    ensures
        r == req::<R>(a, b),
{
    proof {
        reveal(lawful);
        reveal(req);
    }
    R::same(a, b)
}

/// The nearest integer, halves away from zero, saturating.
pub fn nearest_int<R: Real>(a: R) -> (r: i32)
    requires
        lawful::<R>(),
    ensures
        r == rround::<R>(a),
{
    proof {
        reveal(lawful);
        reveal(rround);
    }
    R::nearest(a)
}

/// The floor of the base-two logarithm, saturating.
pub fn log2_floor<R: Real>(a: R) -> (r: i32)
    requires
        lawful::<R>(),
    ensures
        r == rlog2_floor::<R>(a),
{
    proof {
        reveal(lawful);
        reveal(rlog2_floor);
    }
    R::log2_floor(a)
}

/// The square root.
pub fn sqrt<R: Real>(a: R) -> (r: R)
    requires
        lawful::<R>(),
    ensures
        r == rsqrt::<R>(a),
{
    proof {
        reveal(lawful);
        reveal(rsqrt);
    }
    R::root(a)
}

/// `e` to the power `a`.
pub fn exp<R: Real>(a: R) -> (r: R)
    requires
        lawful::<R>(),
    ensures
        r == rexp::<R>(a),
{
    proof {
        reveal(lawful);
        reveal(rexp);
    }
    R::exponential(a)
}

/// The natural logarithm.
pub fn ln<R: Real>(a: R) -> (r: R)
    requires
        lawful::<R>(),
    ensures
        r == rln::<R>(a),
{
    proof {
        reveal(lawful);
        reveal(rln);
    }
    R::logarithm(a)
}

/// The hyperbolic tangent.
pub fn tanh<R: Real>(a: R) -> (r: R)
    requires
        lawful::<R>(),
    ensures
        r == rtanh::<R>(a),
{
    proof {
        reveal(lawful);
        reveal(rtanh);
    }
    R::tangent_h(a)
}

/// The Gauss error function.
pub fn erf<R: Real>(a: R) -> (r: R)
    requires
        lawful::<R>(),
    ensures
        r == rerf::<R>(a),
{
    proof {
        reveal(lawful);
        reveal(rerf);
    }
    R::error_fn(a)
}

} // verus!
