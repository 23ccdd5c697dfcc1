//! The unquantised carriers: their strided product is the sum of the products.
use vstd::prelude::*;
use crate::arith::Real;
use crate::exact::numbers::{exact, lemma_rsum_eq, lemma_rsum_plus, lemma_rsum_split, rsum};
use crate::float::{Carrier, across, carrier_dot, folded, stride_chain, tail_sum};

verus! {

/// The products of the first `k` values.
pub open spec fn products<R: Real, C: Carrier<R>>(
    val: spec_fn(R) -> real,
    xs: Seq<C>,
    ys: Seq<C>,
    k: nat,
) -> real {
    rsum(k, |i: int| val(xs[i].stands_for()) * val(ys[i].stands_for()))
}

/// The thirty-two lanes of the chains.
spec fn lanes<R: Real, C: Carrier<R>>(
    val: spec_fn(R) -> real,
    xs: Seq<C>,
    ys: Seq<C>,
    n: nat,
) -> real {
    rsum(32, |i: int| val(stride_chain::<R, C>(xs, ys, n, i / 8, i % 8)))
}

/// A stride more in every lane is thirty-two products more.
proof fn lemma_lanes<R: Real, C: Carrier<R>>(
    val: spec_fn(R) -> real,
    xs: Seq<C>,
    ys: Seq<C>,
    n: nat,
)
    requires
        exact(val),
    ensures
        lanes::<R, C>(val, xs, ys, n) == products::<R, C>(val, xs, ys, 32 * n),
    decreases n,
{
    let now = |i: int| val(stride_chain::<R, C>(xs, ys, n, i / 8, i % 8));
    if n == 0 {
        let none = |i: int| 0 as real;
        lemma_rsum_eq(32, now, none);
        assert(rsum(32, none) == 0 as real) by {
            reveal_with_fuel(rsum, 33);
        }
    } else {
        let m = (n - 1) as nat;
        lemma_lanes::<R, C>(val, xs, ys, m);
        let was = |i: int| val(stride_chain::<R, C>(xs, ys, m, i / 8, i % 8));
        let f = |i: int| val(xs[i].stands_for()) * val(ys[i].stands_for());
        let here = |i: int| f(32 * m + i);
        let both = |i: int| was(i) + here(i);
        assert forall|i: int| 0 <= i < 32 implies #[trigger] now(i) == both(i) by {
            assert(8 * (i / 8) + i % 8 == i);
        }
        lemma_rsum_eq(32, now, both);
        lemma_rsum_plus(32, was, here);
        lemma_rsum_split(32 * m, 32, f);
        assert(32 * m + 32 == 32 * n);
    }
}

/// The chains fold to the sum of their lanes.
proof fn lemma_across<R: Real, C: Carrier<R>>(
    val: spec_fn(R) -> real,
    xs: Seq<C>,
    ys: Seq<C>,
    n: nat,
)
    requires
        exact(val),
    ensures
        val(across(Seq::new(8, |l: int| folded::<R, C>(xs, ys, n, l)))) == lanes::<R, C>(
            val,
            xs,
            ys,
            n,
        ),
{
    let v = Seq::new(8, |l: int| folded::<R, C>(xs, ys, n, l));
    let g = |i: int| val(stride_chain::<R, C>(xs, ys, n, i / 8, i % 8));
    assert forall|l: int| 0 <= l < 8 implies val(#[trigger] v[l]) == g(l) + g(8 + l) + g(16 + l)
        + g(24 + l) by {
        assert(l / 8 == 0 && l % 8 == l);
        assert((8 + l) / 8 == 1 && (8 + l) % 8 == l);
        assert((16 + l) / 8 == 2 && (16 + l) % 8 == l);
        assert((24 + l) / 8 == 3 && (24 + l) % 8 == l);
    }
    assert(rsum(32, g) == g(0) + g(1) + g(2) + g(3) + g(4) + g(5) + g(6) + g(7) + g(8) + g(9) + g(
        10,
    ) + g(11) + g(12) + g(13) + g(14) + g(15) + g(16) + g(17) + g(18) + g(19) + g(20) + g(21) + g(
        22,
    ) + g(23) + g(24) + g(25) + g(26) + g(27) + g(28) + g(29) + g(30) + g(31)) by {
        reveal_with_fuel(rsum, 33);
    }
    assert(val(v[0]) == g(0) + g(8) + g(16) + g(24));
    assert(val(v[1]) == g(1) + g(9) + g(17) + g(25));
    assert(val(v[2]) == g(2) + g(10) + g(18) + g(26));
    assert(val(v[3]) == g(3) + g(11) + g(19) + g(27));
    assert(val(v[4]) == g(4) + g(12) + g(20) + g(28));
    assert(val(v[5]) == g(5) + g(13) + g(21) + g(29));
    assert(val(v[6]) == g(6) + g(14) + g(22) + g(30));
    assert(val(v[7]) == g(7) + g(15) + g(23) + g(31));
}

/// The tail adds the products that the strides left.
proof fn lemma_tail<R: Real, C: Carrier<R>>(
    val: spec_fn(R) -> real,
    xs: Seq<C>,
    ys: Seq<C>,
    sum: R,
    from: nat,
    to: nat,
)
    requires
        exact(val),
        from <= to,
        val(sum) == products::<R, C>(val, xs, ys, from),
    ensures
        val(tail_sum::<R, C>(xs, ys, sum, from as int, to as int)) == products::<R, C>(
            val,
            xs,
            ys,
            to,
        ),
    decreases to - from,
{
    if from < to {
        lemma_tail::<R, C>(val, xs, ys, sum, from, (to - 1) as nat);
    }
}

/// The strided product of two runs is the sum of the products of their values.
pub proof fn strides_are_plain<R: Real, C: Carrier<R>>(
    val: spec_fn(R) -> real,
    xs: Seq<C>,
    ys: Seq<C>,
    k: nat,
)
    requires
        exact(val),
    ensures
        val(carrier_dot::<R, C>(xs, ys, k)) == products::<R, C>(val, xs, ys, k),
{
    let n = k / 32;
    lemma_lanes::<R, C>(val, xs, ys, n);
    lemma_across::<R, C>(val, xs, ys, n);
    lemma_tail::<R, C>(
        val,
        xs,
        ys,
        across(Seq::new(8, |l: int| folded::<R, C>(xs, ys, n, l))),
        32 * n,
        k,
    );
}

} // verus!
