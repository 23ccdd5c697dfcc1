//! Eight accumulators side by side, and how they fold to one number.
//!
//! A kernel keeps eight independent running sums so that no addition waits on the one before
//! it. Float addition does not associate, so which values share a sum and the order the eight
//! are folded in are part of the result: both are stated here once.
use vstd::prelude::*;
use crate::arith::{Real, lawful, radd, rfma, rint, rzero, fma, int_to, plus, zero};
use crate::sums::isum;

verus! {

/// Lane `l` of thirty-two products gathers the four at `4 * l`.
pub open spec fn quad(x: Seq<i8>, y: Seq<i8>, l: int) -> int {
    isum(4, |t: int| x[4 * l + t] * y[4 * l + t])
}

/// The eight lanes of thirty-two byte products.
pub fn lane_products(x: &[i8; 32], y: &[i8; 32]) -> (r: [i32; 8])
    ensures
        forall|l: int| 0 <= l < 8 ==> #[trigger] r@[l] == quad(x@, y@, l),
        forall|l: int| 0 <= l < 8 ==> -65536 <= #[trigger] r@[l] <= 65536,
{
    let mut r = [0i32; 8];
    for l in 0..8usize
        invariant
            forall|k: int| 0 <= k < l ==> #[trigger] r@[k] == quad(x@, y@, k),
            forall|k: int| 0 <= k < l ==> -65536 <= #[trigger] r@[k] <= 65536,
    {
        let a = product(x[4 * l], y[4 * l]);
        let b = product(x[4 * l + 1], y[4 * l + 1]);
        let c = product(x[4 * l + 2], y[4 * l + 2]);
        let d = product(x[4 * l + 3], y[4 * l + 3]);
        r[l] = a + b + c + d;
        proof {
            reveal_with_fuel(isum, 5);
        }
    }
    r
}

/// The product of two bytes.
pub fn product(a: i8, b: i8) -> (r: i32)
    ensures
        r == a * b,
        -16384 <= r <= 16384,
{
    assert(-16384 <= a * b <= 16384) by (nonlinear_arith)
        requires
            -128 <= a <= 127,
            -128 <= b <= 127,
    ;
    a as i32 * b as i32
}

/// `(v[4 + i] + v[i])` pairwise, then the pairs two apart, then the last two.
pub open spec fn lanes_total<R: Real>(v: Seq<R>) -> R {
    radd(
        radd(radd(v[4], v[0]), radd(v[6], v[2])),
        radd(radd(v[5], v[1]), radd(v[7], v[3])),
    )
}

/// The eight lanes down to one value.
pub fn lanes_sum<R: Real>(v: &[R; 8]) -> (r: R)
    requires
        lawful::<R>(),
    ensures
        r == lanes_total(v@),
{
    let h0 = plus(v[4], v[0]);
    let h1 = plus(v[5], v[1]);
    let h2 = plus(v[6], v[2]);
    let h3 = plus(v[7], v[3]);
    plus(plus(h0, h2), plus(h1, h3))
}

/// One fused step in every lane: `scale * ints[l] + acc[l]`.
pub fn fma_lanes<R: Real>(scale: R, ints: &[i32; 8], acc: &mut [R; 8])
    requires
        lawful::<R>(),
    ensures
        forall|l: int|
            0 <= l < 8 ==> #[trigger] final(acc)@[l] == rfma(scale, rint(ints@[l]), old(acc)@[l]),
{
    let ghost start = acc@;
    for l in 0..8usize
        invariant
            lawful::<R>(),
            acc@.len() == 8,
            forall|k: int|
                0 <= k < 8 ==> #[trigger] acc@[k] == (if k < l {
                    rfma(scale, rint(ints@[k]), start[k])
                } else {
                    start[k]
                }),
    {
        acc[l] = fma(scale, int_to(ints[l]), acc[l]);
    }
}

/// Eight lanes at zero.
pub fn zero_lanes<R: Real>() -> (r: [R; 8])
    requires
        lawful::<R>(),
    ensures
        forall|l: int| 0 <= l < 8 ==> #[trigger] r@[l] == rzero::<R>(),
{
    [zero::<R>(); 8]
}

} // verus!
