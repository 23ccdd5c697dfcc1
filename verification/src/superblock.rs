//! The integer kernels of the formats whose block is 256 values with a scale per sixteen.
//!
//! A super-block's codes no longer share one scale, so its products meet a sub-block scale before
//! they are summed. In lanes: lane `l` gathers, from each of the eight runs of thirty-two values,
//! the four products at `4 * l`, times the scale of the sixteen values they belong to. Plainly:
//! each sub-block of sixteen is one exact integer sum.
use vstd::prelude::*;
use crate::lanes::product;
use crate::sums::{isum, lemma_isum_eq};

verus! {

/// A block of 256 codes with a small scale for each sixteen of them.
pub trait Codes256: Copy {
    /// The code of value `e`.
    spec fn code_of(self, e: int) -> int;

    /// The scale of values `16 * s .. 16 * s + 16`.
    spec fn sub_scale_of(self, s: int) -> int;

    /// The 256 codes, in value order.
    fn codes(&self) -> (r: [i8; 256])
        ensures
            forall|e: int| 0 <= e < 256 ==> #[trigger] r@[e] == self.code_of(e),
    ;

    /// The sixteen sub-block scales.
    fn sub_scales(&self) -> (r: [i8; 16])
        ensures
            forall|s: int| 0 <= s < 16 ==> #[trigger] r@[s] == self.sub_scale_of(s),
    ;
}

/// The products of one sub-block of sixteen.
pub open spec fn sub_dot<X: Codes256>(x: X, y: Seq<i8>, s: int) -> int {
    isum(16, |t: int| x.code_of(16 * s + t) * y[16 * s + t])
}

/// The four products lane `l` gathers from run `c` of thirty-two values.
pub open spec fn run_quad<X: Codes256>(x: X, y: Seq<i8>, c: int, l: int) -> int {
    isum(4, |t: int| x.code_of(32 * c + 4 * l + t) * y[32 * c + 4 * l + t])
}

/// Lane `l` of the scaled products of a super-block.
pub open spec fn lane_of<X: Codes256>(x: X, y: Seq<i8>, l: int) -> int {
    isum(8, |c: int| x.sub_scale_of(2 * c + l / 4) * run_quad(x, y, c, l))
}

/// All scaled products of a super-block.
pub open spec fn scaled_dot<X: Codes256>(x: X, y: Seq<i8>) -> int {
    isum(16, |s: int| x.sub_scale_of(s) * sub_dot(x, y, s))
}

/// The four products of run `c`, lane `l`, from decoded codes.
fn quad_at(x: &[i8; 256], y: &[i8; 256], at: usize) -> (r: i32)
    requires
        at + 4 <= 256,
    ensures
        r == isum(4, |t: int| x@[at + t] * y@[at + t]),
        -65536 <= r <= 65536,
{
    let a = product(x[at], y[at]);
    let b = product(x[at + 1], y[at + 1]);
    let c = product(x[at + 2], y[at + 2]);
    let d = product(x[at + 3], y[at + 3]);
    proof {
        reveal_with_fuel(isum, 5);
    }
    a + b + c + d
}

/// The eight lanes of the scaled products of a super-block.
pub fn lane_sums<X: Codes256>(x: &X, y: &[i8; 256]) -> (r: [i32; 8])
    ensures
        forall|l: int| 0 <= l < 8 ==> #[trigger] r@[l] == lane_of(*x, y@, l),
        forall|l: int| 0 <= l < 8 ==> -0x0400_0000 <= #[trigger] r@[l] <= 0x0400_0000,
{
    let codes = x.codes();
    let scales = x.sub_scales();
    let mut r = [0i32; 8];
    for l in 0..8usize
        invariant
            forall|e: int| 0 <= e < 256 ==> #[trigger] codes@[e] == x.code_of(e),
            forall|s: int| 0 <= s < 16 ==> #[trigger] scales@[s] == x.sub_scale_of(s),
            forall|k: int| 0 <= k < l ==> #[trigger] r@[k] == lane_of(*x, y@, k),
            forall|k: int| 0 <= k < l ==> -0x0400_0000 <= #[trigger] r@[k] <= 0x0400_0000,
    {
        let ghost f = |c: int| x.sub_scale_of(2 * c + l as int / 4) * run_quad(*x, y@, c, l as int);
        let mut sum: i32 = 0;
        for c in 0..8usize
            invariant
                0 <= l < 8,
                forall|e: int| 0 <= e < 256 ==> #[trigger] codes@[e] == x.code_of(e),
                forall|s: int| 0 <= s < 16 ==> #[trigger] scales@[s] == x.sub_scale_of(s),
                f == (|c: int|
                    x.sub_scale_of(2 * c + l as int / 4) * run_quad(*x, y@, c, l as int)),
                sum == isum(c as nat, f),
                -0x0080_0000 * c <= sum <= 0x0080_0000 * c,
        {
            let q = quad_at(&codes, y, 32 * c + 4 * l);
            let sc: i32 = scales[2 * c + l / 4] as i32;
            proof {
                let at = 32 * c + 4 * l;
                lemma_isum_eq(
                    4,
                    |t: int| codes@[at + t] * y@[at + t],
                    |t: int| x.code_of(32 * c + 4 * l + t) * y@[32 * c + 4 * l + t],
                );
                assert(q == run_quad(*x, y@, c as int, l as int));
                assert(sc == x.sub_scale_of(2 * c + l as int / 4));
                assert(-0x0080_0000 <= sc * q <= 0x0080_0000) by (nonlinear_arith)
                    requires
                        -128 <= sc <= 127,
                        -65536 <= q <= 65536,
                ;
                assert(f(c as int) == sc * q);
            }
            sum = sum + sc * q;
        }
        r[l] = sum;
    }
    r
}

/// The sixteen exact sub-block products.
pub fn sub_dots<X: Codes256>(x: &X, y: &[i8; 256]) -> (r: [i32; 16])
    ensures
        forall|s: int| 0 <= s < 16 ==> #[trigger] r@[s] == sub_dot(*x, y@, s),
        forall|s: int| 0 <= s < 16 ==> -0x4_0000 <= #[trigger] r@[s] <= 0x4_0000,
{
    let codes = x.codes();
    let mut r = [0i32; 16];
    for s in 0..16usize
        invariant
            forall|e: int| 0 <= e < 256 ==> #[trigger] codes@[e] == x.code_of(e),
            forall|k: int| 0 <= k < s ==> #[trigger] r@[k] == sub_dot(*x, y@, k),
            forall|k: int| 0 <= k < s ==> -0x4_0000 <= #[trigger] r@[k] <= 0x4_0000,
    {
        let ghost f = |t: int| x.code_of(16 * s + t) * y@[16 * s + t];
        let mut sum: i32 = 0;
        for t in 0..16usize
            invariant
                0 <= s < 16,
                forall|e: int| 0 <= e < 256 ==> #[trigger] codes@[e] == x.code_of(e),
                f == (|t: int| x.code_of(16 * s + t) * y@[16 * s + t]),
                sum == isum(t as nat, f),
                -16384 * t <= sum <= 16384 * t,
        {
            let p = product(codes[16 * s + t], y[16 * s + t]);
            assert(f(t as int) == p);
            sum = sum + p;
        }
        r[s] = sum;
    }
    r
}

/// Lane `l` of sixteen small factors against sixteen sums: two neighbours each.
pub open spec fn pair_of(m: Seq<i8>, bsums: Seq<i16>, l: int) -> int {
    m[2 * l] * bsums[2 * l] + m[2 * l + 1] * bsums[2 * l + 1]
}

/// The eight lanes of sixteen small factors against sixteen sums.
pub fn pair_lanes(m: &[i8; 16], bsums: &[i16; 16]) -> (r: [i32; 8])
    ensures
        forall|l: int| 0 <= l < 8 ==> #[trigger] r@[l] == pair_of(m@, bsums@, l),
        forall|l: int| 0 <= l < 8 ==> -0x0080_0000 <= #[trigger] r@[l] <= 0x0080_0000,
{
    let mut r = [0i32; 8];
    for l in 0..8usize
        invariant
            forall|k: int| 0 <= k < l ==> #[trigger] r@[k] == pair_of(m@, bsums@, k),
            forall|k: int| 0 <= k < l ==> -0x0080_0000 <= #[trigger] r@[k] <= 0x0080_0000,
    {
        r[l] = small_product(m[2 * l], bsums[2 * l]) + small_product(m[2 * l + 1], bsums[2 * l
            + 1]);
    }
    r
}

/// The product of an eight-bit factor and a sixteen-bit sum.
pub fn small_product(a: i8, b: i16) -> (r: i32)
    ensures
        r == a * b,
        -0x0040_0000 <= r <= 0x0040_0000,
{
    assert(-0x0040_0000 <= a * b <= 0x0040_0000) by (nonlinear_arith)
        requires
            -128 <= a <= 127,
            -32768 <= b <= 32767,
    ;
    a as i32 * b as i32
}

/// The eight lanes together are every scaled product: no product is lost or counted twice.
pub proof fn lanes_hold_every_product<X: Codes256>(x: X, y: Seq<i8>)
    ensures
        isum(8, |l: int| lane_of(x, y, l)) == scaled_dot(x, y),
{
    let q = |c: int, l: int| run_quad(x, y, c, l);
    let sc = |s: int| x.sub_scale_of(s);
    // Sub-block s is run s / 2, and its products are four lanes of that run.
    assert forall|s: int| 0 <= s < 16 implies #[trigger] sub_dot(x, y, s) == q(s / 2, 4 * (s % 2))
        + q(s / 2, 4 * (s % 2) + 1) + q(s / 2, 4 * (s % 2) + 2) + q(s / 2, 4 * (s % 2) + 3) by {
        let c = s / 2;
        let l = 4 * (s % 2);
        assert(32 * c + 4 * l == 16 * s);
        reveal_with_fuel(isum, 17);
    }
    assert forall|l: int| 0 <= l < 8 implies #[trigger] lane_of(x, y, l) == sc(l / 4) * q(0, l)
        + sc(2 + l / 4) * q(1, l) + sc(4 + l / 4) * q(2, l) + sc(6 + l / 4) * q(3, l) + sc(
        8 + l / 4,
    ) * q(4, l) + sc(10 + l / 4) * q(5, l) + sc(12 + l / 4) * q(6, l) + sc(14 + l / 4) * q(7, l) by {
        reveal_with_fuel(isum, 9);
    }
    assert forall|s: int| 0 <= s < 16 implies #[trigger] (sc(s) * sub_dot(x, y, s)) == sc(s) * q(
        s / 2,
        4 * (s % 2),
    ) + sc(s) * q(s / 2, 4 * (s % 2) + 1) + sc(s) * q(s / 2, 4 * (s % 2) + 2) + sc(s) * q(
        s / 2,
        4 * (s % 2) + 3,
    ) by {
        let (k, a, b, c, d) = (
            sc(s),
            q(s / 2, 4 * (s % 2)),
            q(s / 2, 4 * (s % 2) + 1),
            q(s / 2, 4 * (s % 2) + 2),
            q(s / 2, 4 * (s % 2) + 3),
        );
        assert(k * (a + b + c + d) == k * a + k * b + k * c + k * d) by (nonlinear_arith);
        assert(sub_dot(x, y, s) == a + b + c + d);
    }
    lemma_isum_eq(
        16,
        |s: int| x.sub_scale_of(s) * sub_dot(x, y, s),
        |s: int| sc(s) * sub_dot(x, y, s),
    );
    assert(isum(8, |l: int| lane_of(x, y, l)) == lane_of(x, y, 0) + lane_of(x, y, 1) + lane_of(
        x,
        y,
        2,
    ) + lane_of(x, y, 3) + lane_of(x, y, 4) + lane_of(x, y, 5) + lane_of(x, y, 6) + lane_of(
        x,
        y,
        7,
    )) by {
        reveal_with_fuel(isum, 9);
    }
    let g = |s: int| sc(s) * sub_dot(x, y, s);
    assert(isum(16, g) == g(0) + g(1) + g(2) + g(3) + g(4) + g(5) + g(6) + g(7) + g(8) + g(9) + g(
        10,
    ) + g(11) + g(12) + g(13) + g(14) + g(15)) by {
        reveal_with_fuel(isum, 17);
    }
}

} // verus!
