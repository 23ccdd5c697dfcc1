//! Tiles of four rows and eight columns: one rounding per block or one per part of a block, the
//! numbers added are the same, and they are the products of the values held.
use vstd::prelude::*;
use crate::arith::{Real, rhalf};
use crate::exact::numbers::{exact, lemma_rsum_eq, lemma_rsum_int, lemma_rsum_scale, rsum};
use crate::exact::superblock::lemma_byte_product;
use crate::sums::{isum, lemma_isum_bound};
use crate::tile4x8::{
    BlockQ8_0x4, Octet, act_code, part_chain, part_int, part_steps, parts,
    parts_hold_every_product, tile_chain, tile_int,
};

verus! {

/// The weights of column `j` are bytes.
pub open spec fn column_bytes<R: Real, B: Octet<R>>(b: B, j: int) -> bool {
    forall|e: int| 0 <= e < 32 ==> -128 <= #[trigger] b.weight_of(j, e) <= 127
}

/// The products of column `j` and row `m`, value by value.
pub open spec fn tile_values<R: Real, B: Octet<R>>(
    val: spec_fn(R) -> real,
    b: B,
    j: int,
    a: BlockQ8_0x4,
    m: int,
) -> real {
    rsum(
        32,
        |e: int|
            (val(b.scale_at(j)) * (b.weight_of(j, e) as real)) * (val(rhalf::<R>(a.d@[m])) * (
            act_code(a, m, e) as real)),
    )
}

/// A product of a weight and an activation.
proof fn lemma_pair<R: Real, B: Octet<R>>(b: B, j: int, a: BlockQ8_0x4, m: int, e: int)
    requires
        column_bytes::<R, B>(b, j),
        0 <= m < 4,
        0 <= e < 32,
    ensures
        -16384 <= b.weight_of(j, e) * act_code(a, m, e) <= 16384,
{
    assert(-128 <= act_code(a, m, e) <= 127);
    lemma_byte_product(b.weight_of(j, e), act_code(a, m, e));
}

/// The integers of a block, whole and in parts, are small.
proof fn lemma_fits<R: Real, B: Octet<R>>(b: B, j: int, a: BlockQ8_0x4, m: int)
    requires
        column_bytes::<R, B>(b, j),
        0 <= m < 4,
    ensures
        -0x8_0000 <= tile_int::<R, B>(b, j, a, m) <= 0x8_0000,
        forall|p: int, halves: bool|
            0 <= p < parts(halves) ==> -0x4_0000 <= #[trigger] part_int::<R, B>(
                b,
                j,
                a,
                m,
                p,
                halves,
            ) <= 0x4_0000,
{
    let f = |e: int| b.weight_of(j, e) * act_code(a, m, e);
    assert forall|e: int| 0 <= e < 32 implies -16384 <= #[trigger] f(e) <= 16384 by {
        lemma_pair::<R, B>(b, j, a, m, e);
    }
    lemma_isum_bound(32, f, 16384);
    assert forall|p: int, halves: bool| 0 <= p < parts(halves) implies -0x4_0000
        <= #[trigger] part_int::<R, B>(b, j, a, m, p, halves) <= 0x4_0000 by {
        let g = |i: int|
            b.weight_of(j, 8 * p + i) * act_code(a, m, 8 * p + i) + (if halves {
                b.weight_of(j, 16 + 8 * p + i) * act_code(a, m, 16 + 8 * p + i)
            } else {
                0
            });
        assert forall|i: int| 0 <= i < 8 implies -32768 <= #[trigger] g(i) <= 32768 by {
            lemma_pair::<R, B>(b, j, a, m, 8 * p + i);
            if halves {
                lemma_pair::<R, B>(b, j, a, m, 16 + 8 * p + i);
            }
        }
        lemma_isum_bound(8, g, 32768);
    }
}

/// One more integer under two factors.
proof fn lemma_part_added(d: real, e: real, s: int, t: int)
    ensures
        (s as real) * (d * e) + ((t as real) * d) * e == ((s + t) as real) * (d * e),
{
    let (a, b, f) = (s as real, t as real, d * e);
    assert((s + t) as real == a + b);
    assert((a + b) * f == a * f + b * f) by (nonlinear_arith);
    assert((b * d) * e == b * (d * e)) by (nonlinear_arith);
}

/// The first `p` parts of a block, as a number.
proof fn lemma_parts<R: Real, B: Octet<R>>(
    val: spec_fn(R) -> real,
    acc: R,
    b: B,
    j: int,
    a: BlockQ8_0x4,
    m: int,
    p: nat,
    halves: bool,
)
    requires
        exact(val),
        column_bytes::<R, B>(b, j),
        0 <= m < 4,
        p <= parts(halves),
    ensures
        val(part_steps::<R, B>(acc, b, j, a, m, p, halves)) == val(acc) + (isum(
            p,
            |q: int| part_int::<R, B>(b, j, a, m, q, halves),
        ) as real) * (val(b.scale_at(j)) * val(rhalf::<R>(a.d@[m]))),
    decreases p,
{
    let g = |q: int| part_int::<R, B>(b, j, a, m, q, halves);
    let (d, e) = (val(b.scale_at(j)), val(rhalf::<R>(a.d@[m])));
    if p > 0 {
        let q = (p - 1) as nat;
        lemma_parts::<R, B>(val, acc, b, j, a, m, q, halves);
        lemma_fits::<R, B>(b, j, a, m);
        assert(-0x4_0000 <= part_int::<R, B>(b, j, a, m, p - 1, halves) <= 0x4_0000);
        lemma_part_added(d, e, isum(q, g), g(p - 1));
    } else {
        let (z, f) = (0int as real, d * e);
        assert(z * f == z) by (nonlinear_arith)
            requires
                z == 0 as real,
        ;
    }
}

/// One rounding per part, or one per block: one number.
pub proof fn parts_are_whole<R: Real, B: Octet<R>>(
    val: spec_fn(R) -> real,
    bs: Seq<B>,
    acts: Seq<BlockQ8_0x4>,
    n: nat,
    m: int,
    j: int,
    halves: bool,
)
    requires
        exact(val),
        0 <= m < 4,
        forall|b: int| 0 <= b < n ==> column_bytes::<R, B>(#[trigger] bs[b], j),
    ensures
        val(part_chain::<R, B>(bs, acts, n, m, j, halves)) == val(
            tile_chain::<R, B>(bs, acts, n, m, j),
        ),
    decreases n,
{
    if n > 0 {
        let k = (n - 1) as nat;
        parts_are_whole::<R, B>(val, bs, acts, k, m, j, halves);
        let (b, a) = (bs[n - 1], acts[n - 1]);
        lemma_parts::<R, B>(
            val,
            part_chain::<R, B>(bs, acts, k, m, j, halves),
            b,
            j,
            a,
            m,
            parts(halves),
            halves,
        );
        lemma_fits::<R, B>(b, j, a, m);
        parts_hold_every_product::<R, B>(b, j, a, m);
        let g = |q: int| part_int::<R, B>(b, j, a, m, q, halves);
        if halves {
            assert(isum(2, g) == g(0) + g(1)) by {
                reveal_with_fuel(isum, 3);
            }
        } else {
            assert(isum(4, g) == g(0) + g(1) + g(2) + g(3)) by {
                reveal_with_fuel(isum, 5);
            }
        }
    }
}

/// A tile's cell is the dot product of the values its column and its row hold.
pub proof fn tiles_are_the_values<R: Real, B: Octet<R>>(
    val: spec_fn(R) -> real,
    bs: Seq<B>,
    acts: Seq<BlockQ8_0x4>,
    n: nat,
    m: int,
    j: int,
)
    requires
        exact(val),
        0 <= m < 4,
        forall|b: int| 0 <= b < n ==> column_bytes::<R, B>(#[trigger] bs[b], j),
    ensures
        val(tile_chain::<R, B>(bs, acts, n, m, j)) == rsum(
            n,
            |b: int| tile_values::<R, B>(val, bs[b], j, acts[b], m),
        ),
    decreases n,
{
    if n > 0 {
        tiles_are_the_values::<R, B>(val, bs, acts, (n - 1) as nat, m, j);
        let (b, a) = (bs[n - 1], acts[n - 1]);
        lemma_fits::<R, B>(b, j, a, m);
        let (dx, dy) = (val(b.scale_at(j)), val(rhalf::<R>(a.d@[m])));
        let d = dx * dy;
        let g = |e: int| b.weight_of(j, e) * act_code(a, m, e);
        let p = |e: int| g(e) as real;
        lemma_rsum_int(32, g);
        lemma_rsum_scale(32, d, p);
        let left = |e: int| d * p(e);
        let right = |e: int|
            (val(b.scale_at(j)) * (b.weight_of(j, e) as real)) * (val(rhalf::<R>(a.d@[m])) * (
            act_code(a, m, e) as real));
        assert forall|e: int| 0 <= e < 32 implies #[trigger] left(e) == right(e) by {
            lemma_value_product(dx, dy, b.weight_of(j, e), act_code(a, m, e));
        }
        lemma_rsum_eq(32, left, right);
        let t = tile_int::<R, B>(b, j, a, m) as real;
        assert(t * d == d * t) by (nonlinear_arith);
    }
}

/// Two codes under their scales.
proof fn lemma_value_product(dx: real, dy: real, a: int, b: int)
    ensures
        (dx * dy) * ((a * b) as real) == (dx * (a as real)) * (dy * (b as real)),
{
    let (ra, rb) = (a as real, b as real);
    assert((a * b) as real == ra * rb) by (nonlinear_arith)
        requires
            ra == a as real,
            rb == b as real,
    ;
    assert((dx * dy) * (ra * rb) == (dx * ra) * (dy * rb)) by (nonlinear_arith);
}

} // verus!
