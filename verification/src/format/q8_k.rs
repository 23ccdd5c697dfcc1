//! q8_K - the activation side of every k-quant dot product.
//!
//! `y = q * d` over 256 values, with `d` kept in the carrier: the format is never written to a
//! file. It also holds the sum of each sixteen codes, which the formats that reconstruct with a
//! minimum or a zero point multiply instead of walking the block a second time.
use vstd::prelude::*;
use crate::arith::{
    Real, lawful, radd, rdiv, req, rfma, rint, rmul, rneg, rround, rzero, eq, int_to, nearest_int,
    neg, over, plus, times, zero,
};
use crate::blocks::{BlockFormat, GgmlDType, Quantized};
use crate::coded::shared;
use crate::lanes::{fma_lanes, lanes_sum, lanes_total, product, zero_lanes};
use crate::scale::{extreme, extreme_of};
use crate::sums::{dot_codes, dot_i8, isum};

verus! {

#[derive(Debug)]
pub struct BlockQ8K<R> {
    pub d: R,
    pub qs: [i8; 256],
    pub bsums: [i16; 16],
}

impl<R: Copy> Copy for BlockQ8K<R> {

}

impl<R: Copy> Clone for BlockQ8K<R> {
    fn clone(&self) -> (r: Self)
        ensures
            r == *self,
    {
        *self
    }
}

/// The sum of codes `16 * s .. 16 * s + 16`.
pub open spec fn bsum_of(qs: Seq<i8>, s: int) -> int {
    isum(16, |t: int| qs[16 * s + t] as int)
}

/// The stored sums are the sums of the codes.
pub open spec fn bsums_hold(qs: Seq<i8>, bsums: Seq<i16>) -> bool {
    forall|s: int| 0 <= s < 16 ==> #[trigger] bsums[s] == bsum_of(qs, s)
}

/// The inverse scale: the extreme value, with its sign, on the lowest code.
pub open spec fn q8k_inverse<R: Real>(x: Seq<R>) -> R {
    rdiv(rneg(rint::<R>(127)), extreme_of(x, 256))
}

/// The code of one value; only the upper end can be overrun.
pub open spec fn q8k_code<R: Real>(v: R, inv: R) -> i8 {
    let q = rround(rmul(inv, v));
    if q > 127 {
        127
    } else {
        q as i8
    }
}

/// The sums of each sixteen codes.
pub fn block_sums(qs: &[i8; 256]) -> (r: [i16; 16])
    ensures
        bsums_hold(qs@, r@),
{
    let mut r = [0i16; 16];
    for s in 0..16usize
        invariant
            forall|k: int| 0 <= k < s ==> #[trigger] r@[k] == bsum_of(qs@, k),
    {
        let ghost f = |t: int| qs@[16 * s + t] as int;
        let mut sum: i16 = 0;
        for t in 0..16usize
            invariant
                0 <= s < 16,
                f == (|t: int| qs@[16 * s + t] as int),
                sum == isum(t as nat, f),
                -128 * t <= sum <= 128 * t,
        {
            assert(f(t as int) == qs@[16 * s + t]);
            sum = sum + qs[16 * s + t] as i16;
        }
        r[s] = sum;
    }
    r
}

impl<R: Real> Quantized<R> for BlockQ8K<R> {
    open spec fn width() -> nat {
        256
    }

    open spec fn value(self, e: int) -> R {
        rmul(rint(self.qs@[e] as i32), self.d)
    }

    open spec fn encodes(x: Seq<R>, b: Self) -> bool {
        if req(extreme_of(x, 256), rzero::<R>()) {
            b.is_zero()
        } else {
            &&& b.d == rdiv(rint::<R>(1), q8k_inverse(x))
            &&& forall|e: int|
                0 <= e < 256 ==> #[trigger] b.qs@[e] == q8k_code(x[e], q8k_inverse(x))
            &&& bsums_hold(b.qs@, b.bsums@)
        }
    }

    open spec fn is_zero(self) -> bool {
        &&& self.d == rzero::<R>()
        &&& forall|e: int| 0 <= e < 256 ==> #[trigger] self.qs@[e] == 0
        &&& forall|s: int| 0 <= s < 16 ==> #[trigger] self.bsums@[s] == 0
    }

    fn block_len() -> usize {
        256
    }

    fn zeros() -> Self {
        proof {
            vstd::array::axiom_spec_array_fill_for_copy_type::<i8, 256>(0i8);
            vstd::array::axiom_spec_array_fill_for_copy_type::<i16, 16>(0i16);
        }
        BlockQ8K { d: zero(), qs: [0; 256], bsums: [0; 16] }
    }

    fn decode_into(&self, ys: &mut [R], at: usize) {
        let ghost start = ys@;
        let total: usize = ys.len();
        for e in 0..256usize
            invariant
                lawful::<R>(),
                total == ys@.len(),
                start.len() == total,
                at + 256 <= total,
                forall|i: int|
                    0 <= i < total ==> #[trigger] ys@[i] == (if at <= i < at + e {
                        self.value(i - at)
                    } else {
                        start[i]
                    }),
        {
            ys[at + e] = times(int_to(self.qs[e] as i32), self.d);
        }
    }

    fn encode_block(x: &[R]) -> (b: Self) {
        let top = extreme(x);
        if eq(top, zero::<R>()) {
            return Self::zeros();
        }
        let inv = over(neg(int_to::<R>(127)), top);
        let mut qs = [0i8; 256];
        for e in 0..256usize
            invariant
                lawful::<R>(),
                x@.len() == 256,
                inv == q8k_inverse(x@),
                forall|i: int| 0 <= i < e ==> #[trigger] qs@[i] == q8k_code(x@[i], inv),
        {
            let q: i32 = nearest_int(times(inv, x[e]));
            qs[e] = if q > 127 {
                127
            } else {
                q as i8
            };
        }
        BlockQ8K { d: over(int_to::<R>(1), inv), qs, bsums: block_sums(&qs) }
    }
}

/// An encoded block's stored sums are the sums of its codes.
pub proof fn encoded_bsums_hold<R: Real>(x: Seq<R>, b: BlockQ8K<R>)
    requires
        BlockQ8K::<R>::encodes(x, b),
    ensures
        bsums_hold(b.qs@, b.bsums@),
{
    if req(extreme_of(x, 256), rzero::<R>()) {
        assert forall|s: int| 0 <= s < 16 implies #[trigger] b.bsums@[s] == bsum_of(b.qs@, s) by {
            crate::sums::lemma_isum_eq(16, |t: int| b.qs@[16 * s + t] as int, |t: int| 0);
            crate::sums::lemma_isum_bound(16, |t: int| 0, 0);
        }
    }
}

/// Lane `l` of a 256-value product: the two neighbours at `2 * l` of each sixteen.
pub open spec fn pair_lane(x: Seq<i8>, y: Seq<i8>, l: int) -> int {
    isum(16, |c: int| x[16 * c + 2 * l] * y[16 * c + 2 * l] + x[16 * c + 2 * l + 1] * y[16 * c + 2 * l + 1])
}

/// The eight lanes of a 256-value product.
fn byte_lanes(x: &[i8; 256], y: &[i8; 256]) -> (r: [i32; 8])
    ensures
        forall|l: int| 0 <= l < 8 ==> #[trigger] r@[l] == pair_lane(x@, y@, l),
{
    let mut r = [0i32; 8];
    for l in 0..8usize
        invariant
            forall|k: int| 0 <= k < l ==> #[trigger] r@[k] == pair_lane(x@, y@, k),
    {
        let ghost f = |c: int|
            x@[16 * c + 2 * l] * y@[16 * c + 2 * l] + x@[16 * c + 2 * l + 1] * y@[16 * c + 2 * l + 1];
        let mut sum: i32 = 0;
        for c in 0..16usize
            invariant
                0 <= l < 8,
                f == (|c: int|
                    x@[16 * c + 2 * l] * y@[16 * c + 2 * l] + x@[16 * c + 2 * l + 1] * y@[16 * c + 2
                        * l + 1]),
                sum == isum(c as nat, f),
                -32768 * c <= sum <= 32768 * c,
        {
            let at: usize = 16 * c + 2 * l;
            let p = product(x[at], y[at]) + product(x[at + 1], y[at + 1]);
            assert(f(c as int) == p);
            sum = sum + p;
        }
        r[l] = sum;
    }
    r
}

/// Lane `l` after the first `n` blocks of two runs of q8_K.
pub open spec fn q8k_chain<R: Real>(xs: Seq<BlockQ8K<R>>, ys: Seq<BlockQ8K<R>>, n: nat, l: int) -> R
    decreases n,
{
    if n == 0 {
        rzero::<R>()
    } else {
        let (x, y) = (xs[n - 1], ys[n - 1]);
        rfma(
            rmul(x.d, y.d),
            rint(pair_lane(x.qs@, y.qs@, l) as i32),
            q8k_chain(xs, ys, (n - 1) as nat, l),
        )
    }
}

/// The plain product: each block's exact integer sum under both scales.
pub open spec fn q8k_plain<R: Real>(xs: Seq<BlockQ8K<R>>, ys: Seq<BlockQ8K<R>>, n: nat) -> R
    decreases n,
{
    if n == 0 {
        rzero::<R>()
    } else {
        let (x, y) = (xs[n - 1], ys[n - 1]);
        radd(
            q8k_plain(xs, ys, (n - 1) as nat),
            rmul(rmul(rint(dot_codes(256, x.qs@, y.qs@) as i32), x.d), y.d),
        )
    }
}

impl<R: Real> BlockFormat<R> for BlockQ8K<R> {
    type ActivationBlock = BlockQ8K<R>;

    open spec fn dtype_of() -> GgmlDType {
        GgmlDType::Q8K
    }

    open spec fn dot_of(xs: Seq<Self>, ys: Seq<BlockQ8K<R>>) -> R {
        lanes_total(Seq::new(8, |l: int| q8k_chain(xs, ys, shared(xs.len(), ys.len()), l)))
    }

    open spec fn dot_scalar_of(xs: Seq<Self>, ys: Seq<BlockQ8K<R>>) -> R {
        q8k_plain(xs, ys, shared(xs.len(), ys.len()))
    }

    fn dtype() -> GgmlDType {
        GgmlDType::Q8K
    }

    fn dot(xs: &[Self], ys: &[BlockQ8K<R>]) -> R {
        vec_dot_q8k_q8k(xs, ys)
    }

    fn dot_scalar(xs: &[Self], ys: &[BlockQ8K<R>]) -> (r: R) {
        let n: usize = if xs.len() <= ys.len() { xs.len() } else { ys.len() };
        let mut acc = zero::<R>();
        for b in 0..n
            invariant
                lawful::<R>(),
                n == shared(xs@.len(), ys@.len()),
                acc == q8k_plain(xs@, ys@, b as nat),
        {
            let dot = dot_i8(&xs[b].qs, &ys[b].qs, 256);
            acc = plus(acc, times(times(int_to(dot), xs[b].d), ys[b].d));
        }
        acc
    }
}

/// Eight-bit codes on both sides of a super-block.
pub fn vec_dot_q8k_q8k<R: Real>(xs: &[BlockQ8K<R>], ys: &[BlockQ8K<R>]) -> (r: R)
    requires
        lawful::<R>(),
    ensures
        r == lanes_total(
            Seq::new(8, |l: int| q8k_chain(xs@, ys@, shared(xs@.len(), ys@.len()), l)),
        ),
{
    let n: usize = if xs.len() <= ys.len() { xs.len() } else { ys.len() };
    let mut acc = zero_lanes::<R>();
    for b in 0..n
        invariant
            lawful::<R>(),
            n == shared(xs@.len(), ys@.len()),
            forall|l: int| 0 <= l < 8 ==> #[trigger] acc@[l] == q8k_chain(xs@, ys@, b as nat, l),
    {
        let ints = byte_lanes(&xs[b].qs, &ys[b].qs);
        fma_lanes(times(xs[b].d, ys[b].d), &ints, &mut acc);
        assert forall|l: int| 0 <= l < 8 implies #[trigger] acc@[l] == q8k_chain(
            xs@,
            ys@,
            (b + 1) as nat,
            l,
        ) by {
            assert(ints@[l] == pair_lane(xs@[b as int].qs@, ys@[b as int].qs@, l));
        }
    }
    assert(acc@ =~= Seq::new(8, |l: int| q8k_chain(xs@, ys@, n as nat, l)));
    lanes_sum(&acc)
}

/// Values have one block of this format.
pub proof fn q8k_encodes_once<R: Real>(x: Seq<R>, a: BlockQ8K<R>, b: BlockQ8K<R>)
    requires
        BlockQ8K::<R>::encodes(x, a),
        BlockQ8K::<R>::encodes(x, b),
    ensures
        a == b,
{
    encoded_bsums_hold(x, a);
    encoded_bsums_hold(x, b);
    assert forall|e: int| 0 <= e < 256 implies a.qs@[e] == b.qs@[e] by {
        if req(extreme_of(x, 256), rzero::<R>()) {
            assert(a.qs@[e] == 0 && b.qs@[e] == 0);
        } else {
            assert(a.qs@[e] == q8k_code(x[e], q8k_inverse(x)));
            assert(b.qs@[e] == q8k_code(x[e], q8k_inverse(x)));
        }
    }
    assert(a.qs =~= b.qs);
    assert forall|s: int| 0 <= s < 16 implies a.bsums@[s] == b.bsums@[s] by {
        assert(a.bsums@[s] == bsum_of(a.qs@, s));
        assert(b.bsums@[s] == bsum_of(b.qs@, s));
    }
    assert(a.bsums =~= b.bsums);
}

} // verus!
