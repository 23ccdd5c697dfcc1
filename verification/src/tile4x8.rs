//! Tiles of four activation rows by eight weight columns.
//!
//! Eight columns' weights and four rows' activations are each interleaved eight values at a time,
//! so one tile is thirty-two dot products that share every load. What a tile computes depends
//! only on the weight a column holds for each value, so the kernels are stated over any block
//! that can name them.
use vstd::prelude::*;
use crate::arith::{
    Half, Real, lawful, radd, rfma, rhalf, rint, rmul, rround, rto_half, rzero, fma, int_to,
    narrow, nearest_int, over, plus, times, widen, zero,
};
use crate::coded::cell;
use crate::format::q8_0::byte_scale;
use crate::grid::{lemma_cell_inside, store_tile};
use crate::lanes::product;
use crate::scale::{amax, clamp, clamped, reciprocal, reciprocal_of};
use crate::sums::{filled, isum, lemma_isum_eq, lemma_isum_plus, lemma_isum_split};
use crate::tiled::{span, span_of};

verus! {

/// One block of each of four activation rows, interleaved eight values at a time.
#[derive(Clone, Copy, Debug)]
pub struct BlockQ8_0x4 {
    pub d: [Half; 4],
    pub qs: [i8; 128],
}

/// Where value `e` of row `m` lies.
pub open spec fn act_place(m: int, e: int) -> int {
    (e / 8) * 32 + m * 8 + e % 8
}

/// The code of value `e` of row `m`.
pub open spec fn act_code(a: BlockQ8_0x4, m: int, e: int) -> int {
    a.qs@[act_place(m, e)] as int
}

/// One block of each of eight weight columns.
pub trait Octet<R: Real>: Copy {
    /// The weight column `j` has for value `e`.
    spec fn weight_of(self, j: int, e: int) -> int;

    /// The scale of column `j`.
    spec fn scale_at(self, j: int) -> R;

    /// The thirty-two weights of column `j`.
    fn weights(&self, j: usize) -> (r: [i8; 32])
        requires
            j < 8,
        ensures
            forall|e: int| 0 <= e < 32 ==> #[trigger] r@[e] == self.weight_of(j as int, e),
    ;

    fn scale(&self, j: usize) -> (r: R)
        requires
            lawful::<R>(),
            j < 8,
        ensures
            r == self.scale_at(j as int),
    ;
}

// -- what a tile computes --

/// The integer product of column `j` and row `m`.
pub open spec fn tile_int<R: Real, B: Octet<R>>(b: B, j: int, a: BlockQ8_0x4, m: int) -> int {
    isum(32, |e: int| b.weight_of(j, e) * act_code(a, m, e))
}

/// Column `j` against row `m` over the first `n` blocks, one fused step per block.
pub open spec fn tile_chain<R: Real, B: Octet<R>>(
    bs: Seq<B>,
    acts: Seq<BlockQ8_0x4>,
    n: nat,
    m: int,
    j: int,
) -> R
    decreases n,
{
    if n == 0 {
        rzero::<R>()
    } else {
        rfma(
            rint(tile_int::<R, B>(bs[n - 1], j, acts[n - 1], m) as i32),
            rmul(bs[n - 1].scale_at(j), rhalf(acts[n - 1].d@[m])),
            tile_chain(bs, acts, (n - 1) as nat, m, j),
        )
    }
}

/// Part `p` of a block's product: eight values, and where the block is read in `halves` the eight
/// values sixteen further on.
pub open spec fn part_int<R: Real, B: Octet<R>>(
    b: B,
    j: int,
    a: BlockQ8_0x4,
    m: int,
    p: int,
    halves: bool,
) -> int {
    isum(
        8,
        |i: int|
            b.weight_of(j, 8 * p + i) * act_code(a, m, 8 * p + i) + (if halves {
                b.weight_of(j, 16 + 8 * p + i) * act_code(a, m, 16 + 8 * p + i)
            } else {
                0
            }),
    )
}

/// How many parts a block has.
pub open spec fn parts(halves: bool) -> nat {
    if halves {
        2
    } else {
        4
    }
}

/// `acc` and the first `p` parts of a block.
pub open spec fn part_steps<R: Real, B: Octet<R>>(
    acc: R,
    b: B,
    j: int,
    a: BlockQ8_0x4,
    m: int,
    p: nat,
    halves: bool,
) -> R
    decreases p,
{
    if p == 0 {
        acc
    } else {
        radd(
            part_steps(acc, b, j, a, m, (p - 1) as nat, halves),
            rmul(
                rmul(
                    rint(part_int::<R, B>(b, j, a, m, p - 1, halves) as i32),
                    b.scale_at(j),
                ),
                rhalf(a.d@[m]),
            ),
        )
    }
}

/// Column `j` against row `m` over the first `n` blocks, one rounding per part.
pub open spec fn part_chain<R: Real, B: Octet<R>>(
    bs: Seq<B>,
    acts: Seq<BlockQ8_0x4>,
    n: nat,
    m: int,
    j: int,
    halves: bool,
) -> R
    decreases n,
{
    if n == 0 {
        rzero::<R>()
    } else {
        part_steps::<R, B>(
            part_chain(bs, acts, (n - 1) as nat, m, j, halves),
            bs[n - 1],
            j,
            acts[n - 1],
            m,
            parts(halves),
            halves,
        )
    }
}

/// Eight values' products from `at`.
spec fn eight<R: Real, B: Octet<R>>(b: B, j: int, a: BlockQ8_0x4, m: int, at: int) -> int {
    isum(8, |i: int| b.weight_of(j, at + i) * act_code(a, m, at + i))
}

proof fn lemma_four_eights<R: Real, B: Octet<R>>(b: B, j: int, a: BlockQ8_0x4, m: int)
    ensures
        tile_int::<R, B>(b, j, a, m) == eight::<R, B>(b, j, a, m, 0) + eight::<R, B>(b, j, a, m, 8)
            + eight::<R, B>(b, j, a, m, 16) + eight::<R, B>(b, j, a, m, 24),
{
    let f = |e: int| b.weight_of(j, e) * act_code(a, m, e);
    lemma_isum_split(8, 24, f);
    let g = |i: int| f(8 + i);
    lemma_isum_split(8, 16, g);
    let h = |i: int| g(8 + i);
    lemma_isum_split(8, 8, h);
    lemma_isum_eq(8, f, |i: int| b.weight_of(j, 0 + i) * act_code(a, m, 0 + i));
    lemma_isum_eq(8, g, |i: int| b.weight_of(j, 8 + i) * act_code(a, m, 8 + i));
    lemma_isum_eq(8, h, |i: int| b.weight_of(j, 16 + i) * act_code(a, m, 16 + i));
    lemma_isum_eq(8, |i: int| h(8 + i), |i: int| b.weight_of(j, 24 + i) * act_code(a, m, 24 + i));
}

/// A block's parts together are its whole product, whichever way it is read: the parts differ from
/// the fused step in rounding and in nothing else.
pub proof fn parts_hold_every_product<R: Real, B: Octet<R>>(b: B, j: int, a: BlockQ8_0x4, m: int)
    ensures
        part_int::<R, B>(b, j, a, m, 0, true) + part_int::<R, B>(b, j, a, m, 1, true)
            == tile_int::<R, B>(b, j, a, m),
        part_int::<R, B>(b, j, a, m, 0, false) + part_int::<R, B>(b, j, a, m, 1, false)
            + part_int::<R, B>(b, j, a, m, 2, false) + part_int::<R, B>(b, j, a, m, 3, false)
            == tile_int::<R, B>(b, j, a, m),
{
    lemma_four_eights::<R, B>(b, j, a, m);
    lemma_part::<R, B>(b, j, a, m, 0, true);
    lemma_part::<R, B>(b, j, a, m, 1, true);
    lemma_part::<R, B>(b, j, a, m, 0, false);
    lemma_part::<R, B>(b, j, a, m, 1, false);
    lemma_part::<R, B>(b, j, a, m, 2, false);
    lemma_part::<R, B>(b, j, a, m, 3, false);
}

proof fn lemma_part<R: Real, B: Octet<R>>(
    b: B,
    j: int,
    a: BlockQ8_0x4,
    m: int,
    p: int,
    halves: bool,
)
    ensures
        part_int::<R, B>(b, j, a, m, p, halves) == eight::<R, B>(b, j, a, m, 8 * p) + (if halves {
            eight::<R, B>(b, j, a, m, 16 + 8 * p)
        } else {
            0
        }),
{
    let f = |i: int| b.weight_of(j, 8 * p + i) * act_code(a, m, 8 * p + i);
    let g = |i: int| b.weight_of(j, 16 + 8 * p + i) * act_code(a, m, 16 + 8 * p + i);
    let whole = |i: int|
        b.weight_of(j, 8 * p + i) * act_code(a, m, 8 * p + i) + (if halves {
            b.weight_of(j, 16 + 8 * p + i) * act_code(a, m, 16 + 8 * p + i)
        } else {
            0
        });
    if halves {
        lemma_isum_plus(8, f, g);
        lemma_isum_eq(8, whole, |i: int| f(i) + g(i));
    } else {
        lemma_isum_eq(8, whole, f);
    }
}

// -- the kernels --

/// Eight columns' weights and scales, decoded once for every row they will meet.
pub fn decode_weights<R: Real, B: Octet<R>>(b: &B) -> (r: ([[i8; 32]; 8], [R; 8]))
    requires
        lawful::<R>(),
    ensures
        forall|j: int, e: int|
            0 <= j < 8 && 0 <= e < 32 ==> #[trigger] r.0@[j]@[e] == b.weight_of(j, e),
        forall|j: int| 0 <= j < 8 ==> #[trigger] r.1@[j] == b.scale_at(j),
{
    let mut w = [[0i8; 32]; 8];
    let mut s = [zero::<R>(); 8];
    for j in 0..8usize
        invariant
            lawful::<R>(),
            forall|k: int, e: int|
                0 <= k < j && 0 <= e < 32 ==> #[trigger] w@[k]@[e] == b.weight_of(k, e),
            forall|k: int| 0 <= k < j ==> #[trigger] s@[k] == b.scale_at(k),
    {
        w[j] = b.weights(j);
        s[j] = b.scale(j);
    }
    (w, s)
}

/// The integer product of one decoded column and one row.
fn product_of<R: Real, B: Octet<R>>(
    Ghost(b): Ghost<B>,
    Ghost(j): Ghost<int>,
    w: &[i8; 32],
    a: &BlockQ8_0x4,
    m: usize,
) -> (r: i32)
    requires
        m < 4,
        forall|e: int| 0 <= e < 32 ==> #[trigger] w@[e] == b.weight_of(j, e),
    ensures
        r == tile_int::<R, B>(b, j, *a, m as int),
{
    let ghost f = |e: int| b.weight_of(j, e) * act_code(*a, m as int, e);
    let mut sum: i32 = 0;
    for e in 0..32usize
        invariant
            m < 4,
            forall|i: int| 0 <= i < 32 ==> #[trigger] w@[i] == b.weight_of(j, i),
            f == (|e: int| b.weight_of(j, e) * act_code(*a, m as int, e)),
            sum == isum(e as nat, f),
            -16384 * e <= sum <= 16384 * e,
    {
        let p = product(w[e], act_at(a, m, e));
        assert(f(e as int) == p);
        sum = sum + p;
    }
    sum
}

/// Four rows of sums against one decoded block: sum `(m, j)` takes one fused step.
pub fn accum_4rows<R: Real, B: Octet<R>>(
    Ghost(b): Ghost<B>,
    w: &[[i8; 32]; 8],
    scales: &[R; 8],
    a: &BlockQ8_0x4,
    acc: &mut [[R; 8]; 4],
)
    requires
        lawful::<R>(),
        forall|j: int, e: int|
            0 <= j < 8 && 0 <= e < 32 ==> #[trigger] w@[j]@[e] == b.weight_of(j, e),
        forall|j: int| 0 <= j < 8 ==> #[trigger] scales@[j] == b.scale_at(j),
    ensures
        forall|m: int, j: int|
            0 <= m < 4 && 0 <= j < 8 ==> #[trigger] final(acc)@[m]@[j] == rfma(
                rint(tile_int::<R, B>(b, j, *a, m) as i32),
                rmul(b.scale_at(j), rhalf(a.d@[m])),
                old(acc)@[m]@[j],
            ),
{
    let ghost start = acc@;
    for m in 0..4usize
        invariant
            lawful::<R>(),
            forall|j: int, e: int|
                0 <= j < 8 && 0 <= e < 32 ==> #[trigger] w@[j]@[e] == b.weight_of(j, e),
            forall|j: int| 0 <= j < 8 ==> #[trigger] scales@[j] == b.scale_at(j),
            forall|k: int, j: int|
                0 <= k < 4 && 0 <= j < 8 ==> #[trigger] acc@[k]@[j] == (if k < m {
                    rfma(
                        rint(tile_int::<R, B>(b, j, *a, k) as i32),
                        rmul(b.scale_at(j), rhalf(a.d@[k])),
                        start[k]@[j],
                    )
                } else {
                    start[k]@[j]
                }),
    {
        let d = widen::<R>(a.d[m]);
        let mut row: [R; 8] = acc[m];
        let ghost before = row@;
        for j in 0..8usize
            invariant
                lawful::<R>(),
                m < 4,
                d == rhalf::<R>(a.d@[m as int]),
                forall|k: int, e: int|
                    0 <= k < 8 && 0 <= e < 32 ==> #[trigger] w@[k]@[e] == b.weight_of(k, e),
                forall|k: int| 0 <= k < 8 ==> #[trigger] scales@[k] == b.scale_at(k),
                forall|k: int|
                    0 <= k < 8 ==> #[trigger] row@[k] == (if k < j {
                        rfma(
                            rint(tile_int::<R, B>(b, k, *a, m as int) as i32),
                            rmul(b.scale_at(k), rhalf(a.d@[m as int])),
                            before[k],
                        )
                    } else {
                        before[k]
                    }),
        {
            let p = product_of::<R, B>(Ghost(b), Ghost(j as int), &w[j], a, m);
            row[j] = fma(int_to(p), times(scales[j], d), row[j]);
        }
        acc[m] = row;
    }
}

/// Four rows of zeros.
fn zero_rows<R: Real>() -> (r: [[R; 8]; 4])
    requires
        lawful::<R>(),
    ensures
        forall|m: int, j: int| 0 <= m < 4 && 0 <= j < 8 ==> #[trigger] r@[m]@[j] == rzero::<R>(),
{
    let row = crate::lanes::zero_lanes::<R>();
    [row, row, row, row]
}

/// One tile of four rows and eight columns over `nb` blocks, written at `out[m * 8 + j]`.
pub fn tile_gemm<R: Real, B: Octet<R>>(
    a: &[BlockQ8_0x4],
    b: &[B],
    nb: usize,
    out: &mut [R; 32],
)
    requires
        lawful::<R>(),
        nb <= a@.len(),
        nb <= b@.len(),
    ensures
        forall|i: int|
            0 <= i < 32 ==> #[trigger] final(out)@[i] == tile_chain::<R, B>(
                b@,
                a@,
                nb as nat,
                i / 8,
                i % 8,
            ),
{
    let mut acc = zero_rows::<R>();
    for l in 0..nb
        invariant
            lawful::<R>(),
            nb <= a@.len(),
            nb <= b@.len(),
            forall|m: int, j: int|
                0 <= m < 4 && 0 <= j < 8 ==> #[trigger] acc@[m]@[j] == tile_chain::<R, B>(
                    b@,
                    a@,
                    l as nat,
                    m,
                    j,
                ),
    {
        let (w, s) = decode_weights::<R, B>(&b[l]);
        accum_4rows::<R, B>(Ghost(b@[l as int]), &w, &s, &a[l], &mut acc);
    }
    for t in 0..32usize
        invariant
            forall|m: int, j: int|
                0 <= m < 4 && 0 <= j < 8 ==> #[trigger] acc@[m]@[j] == tile_chain::<R, B>(
                    b@,
                    a@,
                    nb as nat,
                    m,
                    j,
                ),
            forall|i: int|
                0 <= i < t ==> #[trigger] out@[i] == tile_chain::<R, B>(
                    b@,
                    a@,
                    nb as nat,
                    i / 8,
                    i % 8,
                ),
    {
        assert(acc@[t as int / 8]@[t as int % 8] == tile_chain::<R, B>(
            b@,
            a@,
            nb as nat,
            t as int / 8,
            t as int % 8,
        ));
        out[t] = acc[t / 8][t % 8];
    }
}

/// Four tiles over one reading of the weights: sixteen rows, written at `out[rp * 32 + m * 8 + j]`.
pub fn tile_gemm16<R: Real, B: Octet<R>>(
    a0: &[BlockQ8_0x4],
    a1: &[BlockQ8_0x4],
    a2: &[BlockQ8_0x4],
    a3: &[BlockQ8_0x4],
    b: &[B],
    nb: usize,
    out: &mut [R; 128],
)
    requires
        lawful::<R>(),
        nb <= a0@.len(),
        nb <= a1@.len(),
        nb <= a2@.len(),
        nb <= a3@.len(),
        nb <= b@.len(),
    ensures
        forall|i: int|
            0 <= i < 128 ==> #[trigger] final(out)@[i] == tile_chain::<R, B>(
                b@,
                seq![a0@, a1@, a2@, a3@][i / 32],
                nb as nat,
                (i % 32) / 8,
                i % 8,
            ),
{
    let ag: [&[BlockQ8_0x4]; 4] = [a0, a1, a2, a3];
    let mut accs: Vec<[[R; 8]; 4]> = filled(zero_rows::<R>(), 4);
    let ghost sets = seq![a0@, a1@, a2@, a3@];
    for l in 0..nb
        invariant
            lawful::<R>(),
            sets == seq![a0@, a1@, a2@, a3@],
            forall|r: int| 0 <= r < 4 ==> #[trigger] ag@[r]@ == sets[r],
            forall|r: int| 0 <= r < 4 ==> nb <= #[trigger] sets[r].len(),
            nb <= b@.len(),
            accs@.len() == 4,
            forall|r: int, m: int, j: int|
                0 <= r < 4 && 0 <= m < 4 && 0 <= j < 8 ==> #[trigger] accs@[r]@[m]@[j]
                    == tile_chain::<R, B>(b@, sets[r], l as nat, m, j),
    {
        let (w, s) = decode_weights::<R, B>(&b[l]);
        for rp in 0..4usize
            invariant
                lawful::<R>(),
                l < nb,
                sets == seq![a0@, a1@, a2@, a3@],
                forall|r: int| 0 <= r < 4 ==> #[trigger] ag@[r]@ == sets[r],
                forall|r: int| 0 <= r < 4 ==> nb <= #[trigger] sets[r].len(),
                nb <= b@.len(),
                accs@.len() == 4,
                forall|j: int, e: int|
                    0 <= j < 8 && 0 <= e < 32 ==> #[trigger] w@[j]@[e] == b@[l as int].weight_of(
                        j,
                        e,
                    ),
                forall|j: int| 0 <= j < 8 ==> #[trigger] s@[j] == b@[l as int].scale_at(j),
                forall|r: int, m: int, j: int|
                    0 <= r < 4 && 0 <= m < 4 && 0 <= j < 8 ==> #[trigger] accs@[r]@[m]@[j]
                        == tile_chain::<R, B>(
                        b@,
                        sets[r],
                        (if r < rp {
                            l + 1
                        } else {
                            l as int
                        }) as nat,
                        m,
                        j,
                    ),
        {
            assert(ag@[rp as int]@ == sets[rp as int]);
            let mut acc = accs[rp];
            accum_4rows::<R, B>(Ghost(b@[l as int]), &w, &s, &ag[rp][l], &mut acc);
            accs[rp] = acc;
        }
    }
    for t in 0..128usize
        invariant
            accs@.len() == 4,
            sets == seq![a0@, a1@, a2@, a3@],
            forall|r: int, m: int, j: int|
                0 <= r < 4 && 0 <= m < 4 && 0 <= j < 8 ==> #[trigger] accs@[r]@[m]@[j]
                    == tile_chain::<R, B>(b@, sets[r], nb as nat, m, j),
            forall|i: int|
                0 <= i < t ==> #[trigger] out@[i] == tile_chain::<R, B>(
                    b@,
                    sets[i / 32],
                    nb as nat,
                    (i % 32) / 8,
                    i % 8,
                ),
    {
        let (r, m, j): (usize, usize, usize) = (t / 32, (t % 32) / 8, t % 8);
        assert(accs@[r as int]@[m as int]@[j as int] == tile_chain::<R, B>(
            b@,
            sets[r as int],
            nb as nat,
            m as int,
            j as int,
        ));
        out[t] = accs[r][m][j];
    }
}

/// The code of value `e` of row `m`.
fn act_at(a: &BlockQ8_0x4, m: usize, e: usize) -> (c: i8)
    requires
        m < 4,
        e < 32,
    ensures
        c == act_code(*a, m as int, e as int),
{
    a.qs[(e / 8) * 32 + m * 8 + e % 8]
}

/// Part `p` of the product of one decoded column and one row.
fn part_of<R: Real, B: Octet<R>>(
    Ghost(b): Ghost<B>,
    Ghost(j): Ghost<int>,
    w: &[i8; 32],
    a: &BlockQ8_0x4,
    m: usize,
    p: usize,
    halves: bool,
) -> (r: i32)
    requires
        m < 4,
        p < parts(halves),
        forall|e: int| 0 <= e < 32 ==> #[trigger] w@[e] == b.weight_of(j, e),
    ensures
        r == part_int::<R, B>(b, j, *a, m as int, p as int, halves),
{
    let ghost f = |i: int|
        b.weight_of(j, 8 * p + i) * act_code(*a, m as int, 8 * p + i) + (if halves {
            b.weight_of(j, 16 + 8 * p + i) * act_code(*a, m as int, 16 + 8 * p + i)
        } else {
            0
        });
    let mut sum: i32 = 0;
    for i in 0..8usize
        invariant
            m < 4,
            p < parts(halves),
            forall|e: int| 0 <= e < 32 ==> #[trigger] w@[e] == b.weight_of(j, e),
            f == (|i: int|
                b.weight_of(j, 8 * p + i) * act_code(*a, m as int, 8 * p + i) + (if halves {
                    b.weight_of(j, 16 + 8 * p + i) * act_code(*a, m as int, 16 + 8 * p + i)
                } else {
                    0
                })),
            sum == isum(i as nat, f),
            -32768 * i <= sum <= 32768 * i,
    {
        let e: usize = 8 * p + i;
        let lo = product(w[e], act_at(a, m, e));
        let hi: i32 = if halves {
            product(w[16 + e], act_at(a, m, 16 + e))
        } else {
            0
        };
        assert(f(i as int) == lo + hi);
        sum = sum + (lo + hi);
    }
    sum
}

/// One tile of four rows and eight columns over `nb` blocks, one rounding per part.
pub fn tile_parts<R: Real, B: Octet<R>>(
    a: &[BlockQ8_0x4],
    b: &[B],
    nb: usize,
    halves: bool,
    out: &mut [R; 32],
)
    requires
        lawful::<R>(),
        nb <= a@.len(),
        nb <= b@.len(),
    ensures
        forall|i: int|
            0 <= i < 32 ==> #[trigger] final(out)@[i] == part_chain::<R, B>(
                b@,
                a@,
                nb as nat,
                i / 8,
                i % 8,
                halves,
            ),
{
    let count: usize = if halves { 2 } else { 4 };
    for t in 0..32usize
        invariant
            lawful::<R>(),
            nb <= a@.len(),
            nb <= b@.len(),
            count == parts(halves),
            forall|i: int|
                0 <= i < t ==> #[trigger] out@[i] == part_chain::<R, B>(
                    b@,
                    a@,
                    nb as nat,
                    i / 8,
                    i % 8,
                    halves,
                ),
    {
        let m: usize = t / 8;
        let j: usize = t % 8;
        let mut sum = zero::<R>();
        for l in 0..nb
            invariant
                lawful::<R>(),
                m < 4,
                j < 8,
                nb <= a@.len(),
                nb <= b@.len(),
                count == parts(halves),
                sum == part_chain::<R, B>(b@, a@, l as nat, m as int, j as int, halves),
        {
            let w = b[l].weights(j);
            let s = b[l].scale(j);
            let d = widen::<R>(a[l].d[m]);
            let ghost before = sum;
            for p in 0..count
                invariant
                    lawful::<R>(),
                    m < 4,
                    j < 8,
                    l < a@.len(),
                    l < b@.len(),
                    count == parts(halves),
                    s == b@[l as int].scale_at(j as int),
                    d == rhalf::<R>(a@[l as int].d@[m as int]),
                    forall|e: int|
                        0 <= e < 32 ==> #[trigger] w@[e] == b@[l as int].weight_of(j as int, e),
                    sum == part_steps::<R, B>(
                        before,
                        b@[l as int],
                        j as int,
                        a@[l as int],
                        m as int,
                        p as nat,
                        halves,
                    ),
            {
                let q = part_of::<R, B>(
                    Ghost(b@[l as int]),
                    Ghost(j as int),
                    &w,
                    &a[l],
                    m,
                    p,
                    halves,
                );
                sum = plus(sum, times(times(int_to(q), s), d));
            }
        }
        out[t] = sum;
    }
}

// -- the activations --

/// The values of block `l` of row `row` of a row-major `[_, k]` activation.
pub open spec fn act_run<R>(lhs: Seq<R>, k: int, row: int, l: int) -> Seq<R> {
    lhs.subrange(row * k + l * 32, row * k + l * 32 + 32)
}

/// The code of a value under the inverse scale `inv`.
pub open spec fn narrow_code<R: Real>(v: R, inv: R) -> int {
    clamped(rround(rmul(v, inv)) as int, -127, 127)
}

/// Row `m` of an interleaved block holds the values `x`.
pub open spec fn row_encodes<R: Real>(a: BlockQ8_0x4, m: int, x: Seq<R>) -> bool {
    &&& a.d@[m] == rto_half(byte_scale(x))
    &&& forall|e: int|
        0 <= e < 32 ==> #[trigger] act_code(a, m, e) == narrow_code(
            x[e],
            reciprocal_of(byte_scale(x)),
        )
}

/// Row `m` of an interleaved block is padding.
pub open spec fn row_is_zero(a: BlockQ8_0x4, m: int) -> bool {
    &&& a.d@[m].bits == 0
    &&& forall|e: int| 0 <= e < 32 ==> #[trigger] act_code(a, m, e) == 0
}

/// Row `t` of tile `g`.
pub open spec fn tile_row(g: int, t: int) -> int {
    g * 4 + t
}

/// Row `t` of block `(g, l)` is row `4 * g + t` of the activation, or padding past its last row.
pub open spec fn row_holds<R: Real>(
    a: BlockQ8_0x4,
    lhs: Seq<R>,
    m: int,
    k: int,
    g: int,
    l: int,
    t: int,
) -> bool {
    if tile_row(g, t) < m {
        row_encodes(a, t, act_run(lhs, k, tile_row(g, t), l))
    } else {
        row_is_zero(a, t)
    }
}

/// `out` is the activation `[m, k]`, quantised and interleaved four rows to a block.
pub open spec fn act_tiles<R: Real>(lhs: Seq<R>, out: Seq<BlockQ8_0x4>, m: int, k: int) -> bool {
    &&& out.len() == cell(k / 32, (m + 3) / 4, 0)
    &&& forall|g: int, l: int, t: int|
        0 <= g < (m + 3) / 4 && 0 <= l < k / 32 && 0 <= t < 4 ==> #[trigger] row_holds(
            out[cell(k / 32, g, l)],
            lhs,
            m,
            k,
            g,
            l,
            t,
        )
}

/// A block of padding.
fn zero_block() -> (a: BlockQ8_0x4)
    ensures
        forall|t: int| 0 <= t < 4 ==> #[trigger] row_is_zero(a, t),
{
    proof {
        vstd::array::axiom_spec_array_fill_for_copy_type::<i8, 128>(0i8);
    }
    let a = BlockQ8_0x4 { d: [Half::zero(); 4], qs: [0; 128] };
    assert forall|t: int| 0 <= t < 4 implies #[trigger] row_is_zero(a, t) by {
        assert(a.d@[t].bits == 0);
        assert forall|e: int| 0 <= e < 32 implies #[trigger] act_code(a, t, e) == 0 by {
            assert(a.qs@[act_place(t, e)] == 0i8);
        }
    }
    a
}

/// Different values of different rows lie in different places.
proof fn lemma_act_places(m: int, e: int, n: int, f: int)
    requires
        0 <= m < 4,
        0 <= n < 4,
        0 <= e < 32,
        0 <= f < 32,
    ensures
        0 <= act_place(m, e) < 128,
        act_place(m, e) == act_place(n, f) ==> m == n && e == f,
{
    let a = act_place(m, e);
    let b = act_place(n, f);
    assert(a / 32 == e / 8 && (a % 32) / 8 == m && a % 8 == e % 8);
    assert(b / 32 == f / 8 && (b % 32) / 8 == n && b % 8 == f % 8);
}

/// Quantise one run of values into row `m` of a block, and touch no other row.
fn encode_row<R: Real>(a: &mut BlockQ8_0x4, m: usize, x: &[R])
    requires
        lawful::<R>(),
        m < 4,
        x@.len() == 32,
    ensures
        row_encodes(*final(a), m as int, x@),
        forall|t: int| 0 <= t < 4 && t != m ==> #[trigger] final(a).d@[t] == old(a).d@[t],
        forall|t: int, e: int|
            0 <= t < 4 && t != m && 0 <= e < 32 ==> #[trigger] act_code(*final(a), t, e)
                == act_code(*old(a), t, e),
{
    let d = over(amax(x), int_to::<R>(127));
    let inv = reciprocal(d);
    let mut ds = a.d;
    ds[m] = narrow(d);
    let mut qs = a.qs;
    let ghost start = a.qs@;
    for e in 0..32usize
        invariant
            lawful::<R>(),
            m < 4,
            x@.len() == 32,
            inv == reciprocal_of(byte_scale(x@)),
            forall|f: int|
                0 <= f < e ==> qs@[#[trigger] act_place(m as int, f)] == narrow_code(x@[f], inv),
            forall|t: int, f: int|
                0 <= t < 4 && t != m && 0 <= f < 32 ==> qs@[#[trigger] act_place(t, f)]
                    == start[act_place(t, f)],
    {
        let c: i32 = clamp(nearest_int(times(x[e], inv)), -127, 127);
        let ghost before = qs@;
        proof {
            lemma_act_places(m as int, e as int, m as int, e as int);
        }
        qs[(e / 8) * 32 + m * 8 + e % 8] = c as i8;
        proof {
            assert forall|f: int| 0 <= f < e + 1 implies qs@[#[trigger] act_place(m as int, f)]
                == narrow_code(x@[f], inv) by {
                lemma_act_places(m as int, f, m as int, e as int);
            }
            assert forall|t: int, f: int| 0 <= t < 4 && t != m && 0 <= f < 32 implies qs@[
            #[trigger] act_place(t, f)] == start[act_place(t, f)] by {
                lemma_act_places(t, f, m as int, e as int);
                assert(qs@[act_place(t, f)] == before[act_place(t, f)]);
            }
        }
    }
    a.d = ds;
    a.qs = qs;
    assert forall|e: int| 0 <= e < 32 implies #[trigger] act_code(*a, m as int, e) == narrow_code(
        x@[e],
        inv,
    ) by {
        assert(qs@[act_place(m as int, e)] == narrow_code(x@[e], inv));
    }
    assert forall|t: int, e: int| 0 <= t < 4 && t != m && 0 <= e < 32 implies #[trigger] act_code(
        *a,
        t,
        e,
    ) == act_code(*old(a), t, e) by {
        assert(qs@[act_place(t, e)] == start[act_place(t, e)]);
    }
}

/// Quantise a row-major `[m, k]` activation, four rows to a block. Rows past `m` are left zero,
/// so padding contributes nothing.
pub fn quantize_act<R: Real>(lhs: &[R], m: usize, k: usize) -> (out: Vec<BlockQ8_0x4>)
    requires
        lawful::<R>(),
        k % 32 == 0,
        lhs@.len() == m * k,
        m + 3 <= usize::MAX,
    ensures
        act_tiles(lhs@, out@, m as int, k as int),
{
    let nb: usize = k / 32;
    let groups: usize = (m + 3) / 4;
    let total: usize = lhs.len();
    let mut out: Vec<BlockQ8_0x4> = Vec::new();
    assert(cell(nb as int, 0, 0) == 0) by (nonlinear_arith);
    for g in 0..groups
        invariant
            lawful::<R>(),
            k == 32 * nb,
            groups == (m + 3) / 4,
            m + 3 <= usize::MAX,
            total == lhs@.len(),
            total == m * k,
            out@.len() == cell(nb as int, g as int, 0),
            forall|h: int, l: int, t: int|
                0 <= h < g && 0 <= l < nb && 0 <= t < 4 ==> #[trigger] row_holds(
                    out@[cell(nb as int, h, l)],
                    lhs@,
                    m as int,
                    k as int,
                    h,
                    l,
                    t,
                ),
    {
        for l in 0..nb
            invariant
                lawful::<R>(),
                k == 32 * nb,
                g < groups,
                groups == (m + 3) / 4,
                m + 3 <= usize::MAX,
                total == lhs@.len(),
                total == m * k,
                out@.len() == cell(nb as int, g as int, l as int),
                forall|h: int, i: int, t: int|
                    0 <= h < g && 0 <= i < nb && 0 <= t < 4 ==> #[trigger] row_holds(
                        out@[cell(nb as int, h, i)],
                        lhs@,
                        m as int,
                        k as int,
                        h,
                        i,
                        t,
                    ),
                forall|i: int, t: int|
                    0 <= i < l && 0 <= t < 4 ==> #[trigger] row_holds(
                        out@[cell(nb as int, g as int, i)],
                        lhs@,
                        m as int,
                        k as int,
                        g as int,
                        i,
                        t,
                    ),
        {
            let block = act_block(lhs, m, k, g, l);
            let ghost before = out@;
            out.push(block);
            assert forall|h: int, i: int, t: int|
                0 <= h < g && 0 <= i < nb && 0 <= t < 4 implies #[trigger] row_holds(
                out@[cell(nb as int, h, i)],
                lhs@,
                m as int,
                k as int,
                h,
                i,
                t,
            ) by {
                assert(0 <= h * nb + i < g * nb) by (nonlinear_arith)
                    requires
                        0 <= h,
                        h + 1 <= g,
                        0 <= i < nb,
                ;
                assert(before[cell(nb as int, h, i)] == out@[cell(nb as int, h, i)]);
            }
            assert forall|i: int, t: int| 0 <= i < l + 1 && 0 <= t < 4 implies #[trigger] row_holds(
                out@[cell(nb as int, g as int, i)],
                lhs@,
                m as int,
                k as int,
                g as int,
                i,
                t,
            ) by {
                assert(0 <= g * nb) by (nonlinear_arith)
                    requires
                        0 <= g,
                        0 <= nb,
                ;
                if i < l {
                    assert(before[cell(nb as int, g as int, i)] == out@[cell(
                        nb as int,
                        g as int,
                        i,
                    )]);
                }
            }
        }
        assert(g * nb + nb == (g + 1) * nb) by (nonlinear_arith);
    }
    out
}

/// Block `(g, l)` of a quantised activation.
fn act_block<R: Real>(lhs: &[R], m: usize, k: usize, g: usize, l: usize) -> (a: BlockQ8_0x4)
    requires
        lawful::<R>(),
        k % 32 == 0,
        l < k / 32,
        g < (m + 3) / 4,
        m + 3 <= usize::MAX,
        lhs@.len() == m * k,
    ensures
        forall|t: int|
            0 <= t < 4 ==> #[trigger] row_holds(
                a,
                lhs@,
                m as int,
                k as int,
                g as int,
                l as int,
                t,
            ),
{
    let total: usize = lhs.len();
    let mut a = zero_block();
    for mm in 0..4usize
        invariant
            lawful::<R>(),
            k % 32 == 0,
            l < k / 32,
            g < (m + 3) / 4,
            m + 3 <= usize::MAX,
            total == lhs@.len(),
            total == m * k,
            forall|t: int|
                0 <= t < mm ==> #[trigger] row_holds(
                    a,
                    lhs@,
                    m as int,
                    k as int,
                    g as int,
                    l as int,
                    t,
                ),
            forall|t: int| mm <= t < 4 ==> #[trigger] row_is_zero(a, t),
    {
        let row: usize = g * 4 + mm;
        if row < m {
            assert(row * k + l * 32 + 32 <= m * k && 0 <= row * k) by (nonlinear_arith)
                requires
                    0 <= row,
                    row + 1 <= m,
                    l * 32 + 32 <= k,
                    0 <= l,
            ;
            let at: usize = row * k + l * 32;
            let x = &lhs[at..at + 32];
            assert(x@ =~= act_run(lhs@, k as int, row as int, l as int));
            let ghost before = a;
            encode_row(&mut a, mm, x);
            assert forall|t: int| 0 <= t < mm + 1 implies #[trigger] row_holds(
                a,
                lhs@,
                m as int,
                k as int,
                g as int,
                l as int,
                t,
            ) by {
                if t < mm {
                    assert(row_holds(
                        before,
                        lhs@,
                        m as int,
                        k as int,
                        g as int,
                        l as int,
                        t,
                    ));
                    assert(a.d@[t] == before.d@[t]);
                    assert forall|e: int| 0 <= e < 32 implies #[trigger] act_code(a, t, e)
                        == act_code(before, t, e) by {}
                    if tile_row(g as int, t) < m {
                        let run = act_run(lhs@, k as int, tile_row(g as int, t), l as int);
                        assert forall|e: int| 0 <= e < 32 implies #[trigger] act_code(a, t, e)
                            == narrow_code(run[e], reciprocal_of(byte_scale(run))) by {
                            assert(act_code(before, t, e) == narrow_code(
                                run[e],
                                reciprocal_of(byte_scale(run)),
                            ));
                        }
                    } else {
                        assert(row_is_zero(before, t));
                        assert forall|e: int| 0 <= e < 32 implies #[trigger] act_code(a, t, e)
                            == 0 by {
                            assert(act_code(before, t, e) == 0);
                        }
                    }
                }
            }
            assert forall|t: int| mm + 1 <= t < 4 implies #[trigger] row_is_zero(a, t) by {
                assert(row_is_zero(before, t));
                assert(a.d@[t] == before.d@[t]);
                assert forall|e: int| 0 <= e < 32 implies #[trigger] act_code(a, t, e) == 0 by {
                    assert(act_code(a, t, e) == act_code(before, t, e));
                    assert(act_code(before, t, e) == 0);
                }
            }
        } else {
            assert(row_is_zero(a, mm as int));
        }
    }
    a
}

// -- whole products --

/// Cell `(row, col)` of the product, one fused step per block.
pub open spec fn fused_cell<R: Real, B: Octet<R>>(
    b: Seq<B>,
    acts: Seq<BlockQ8_0x4>,
    nb: int,
    row: int,
    col: int,
) -> R {
    tile_chain::<R, B>(
        span(b, col / 8, nb),
        span(acts, row / 4, nb),
        nb as nat,
        row % 4,
        col % 8,
    )
}

/// Cell `(row, col)` of the product, one rounding per part.
pub open spec fn parted_cell<R: Real, B: Octet<R>>(
    b: Seq<B>,
    acts: Seq<BlockQ8_0x4>,
    nb: int,
    row: int,
    col: int,
    halves: bool,
) -> R {
    part_chain::<R, B>(
        span(b, col / 8, nb),
        span(acts, row / 4, nb),
        nb as nat,
        row % 4,
        col % 8,
        halves,
    )
}

/// How many rows of tile `mg` there are.
fn rows_of(m: usize, mg: usize) -> (r: usize)
    requires
        mg < (m + 3) / 4,
    ensures
        r <= 4,
        mg * 4 + r <= m,
        r < 4 ==> mg * 4 + r == m,
{
    let left: usize = m - mg * 4;
    if left < 4 {
        left
    } else {
        4
    }
}

/// A tile's thirty-two results put in place: every cell of rows `4 * mg ..` and columns
/// `8 * g ..` that the output has.
fn put_tile<R: Real>(
    Ghost(want): Ghost<spec_fn(int, int) -> R>,
    local: &[R],
    m: usize,
    n: usize,
    mg: usize,
    g: usize,
    dst: &mut [R],
)
    requires
        local@.len() == 32,
        mg < (m + 3) / 4,
        g < n / 8,
        old(dst)@.len() == m * n,
        forall|i: int|
            0 <= i < 32 ==> #[trigger] local@[i] == want(4 * mg + i / 8, 8 * g + i % 8),
    ensures
        final(dst)@.len() == m * n,
        forall|row: int, col: int|
            0 <= row < m && 0 <= col < n ==> final(dst)@[#[trigger] cell(n as int, row, col)] == (
            if row / 4 == mg && col / 8 == g {
                want(row, col)
            } else {
                old(dst)@[cell(n as int, row, col)]
            }),
{
    let rows: usize = rows_of(m, mg);
    assert((mg * 4 + rows) * n <= m * n) by (nonlinear_arith)
        requires
            mg * 4 + rows <= m,
            0 <= n,
    ;
    let ghost before = dst@;
    store_tile(local, mg * 4, rows, g * 8, n, dst);
    proof {
        assert forall|row: int, col: int| 0 <= row < m && 0 <= col < n implies dst@[#[trigger] cell(
            n as int,
            row,
            col,
        )] == (if row / 4 == mg && col / 8 == g {
            want(row, col)
        } else {
            before[cell(n as int, row, col)]
        }) by {
            lemma_cell_inside(m as int, n as int, row, col);
            if row / 4 == mg && col / 8 == g {
                let i = (row - mg * 4) * 8 + (col - g * 8);
                assert(i / 8 == row - mg * 4 && i % 8 == col - g * 8);
                assert(local@[i] == want(4 * mg + i / 8, 8 * g + i % 8));
            }
        }
    }
}

/// The product of interleaved weights and interleaved rows: sixteen rows to a reading of the
/// weights while there are that many, then four.
pub fn fused_matmul<R: Real, B: Octet<R>>(
    m: usize,
    n: usize,
    nb: usize,
    acts: &[BlockQ8_0x4],
    b: &[B],
    dst: &mut [R],
)
    requires
        lawful::<R>(),
        n % 8 == 0,
        m + 3 <= usize::MAX,
        acts@.len() == ((m + 3) / 4) * nb,
        b@.len() == (n / 8) * nb,
        old(dst)@.len() == m * n,
    ensures
        final(dst)@.len() == m * n,
        forall|row: int, col: int|
            0 <= row < m && 0 <= col < n ==> final(dst)@[#[trigger] cell(n as int, row, col)]
                == fused_cell::<R, B>(b@, acts@, nb as int, row, col),
{
    let groups: usize = n / 8;
    let tiles: usize = (m + 3) / 4;
    let ghost want = |row: int, col: int| fused_cell::<R, B>(b@, acts@, nb as int, row, col);
    for g in 0..groups
        invariant
            lawful::<R>(),
            n % 8 == 0,
            groups == n / 8,
            tiles == (m + 3) / 4,
            m + 3 <= usize::MAX,
            acts@.len() == tiles * nb,
            b@.len() == groups * nb,
            dst@.len() == m * n,
            want == (|row: int, col: int| fused_cell::<R, B>(b@, acts@, nb as int, row, col)),
            forall|row: int, col: int|
                0 <= row < m && 0 <= col < n && col / 8 < g ==> dst@[#[trigger] cell(
                    n as int,
                    row,
                    col,
                )] == want(row, col),
    {
        assert((g + 1) * nb <= groups * nb) by (nonlinear_arith)
            requires
                g + 1 <= groups,
                0 <= nb,
        ;
        let bgrp = span_of(b, g, nb);
        let mut mg: usize = 0;
        while mg + 4 <= tiles
            invariant
                lawful::<R>(),
                n % 8 == 0,
                groups == n / 8,
                g < groups,
                tiles == (m + 3) / 4,
                m + 3 <= usize::MAX,
                mg <= tiles,
                acts@.len() == tiles * nb,
                bgrp@ == span(b@, g as int, nb as int),
                bgrp@.len() == nb,
                dst@.len() == m * n,
                want == (|row: int, col: int| fused_cell::<R, B>(b@, acts@, nb as int, row, col)),
                forall|row: int, col: int|
                    0 <= row < m && 0 <= col < n && (col / 8 < g || (col / 8 == g && row / 4 < mg))
                        ==> dst@[#[trigger] cell(n as int, row, col)] == want(row, col),
            decreases tiles - mg,
        {
            assert((mg + 4) * nb <= tiles * nb && (mg + 3) * nb <= tiles * nb && (mg + 2) * nb
                <= tiles * nb && (mg + 1) * nb <= tiles * nb) by (nonlinear_arith)
                requires
                    mg + 4 <= tiles,
                    0 <= nb,
            ;
            let mut local: [R; 128] = [zero::<R>(); 128];
            let a0 = span_of(acts, mg, nb);
            let a1 = span_of(acts, mg + 1, nb);
            let a2 = span_of(acts, mg + 2, nb);
            let a3 = span_of(acts, mg + 3, nb);
            tile_gemm16::<R, B>(a0, a1, a2, a3, bgrp, nb, &mut local);
            let ghost sets = seq![a0@, a1@, a2@, a3@];
            let ghost start = mg as int;
            let whole: &[R] = local.as_slice();
            for rp in 0..4usize
                invariant
                    n % 8 == 0,
                    groups == n / 8,
                    g < groups,
                    tiles == (m + 3) / 4,
                    m + 3 <= usize::MAX,
                    mg + 4 <= tiles,
                    start == mg,
                    bgrp@ == span(b@, g as int, nb as int),
                    whole@.len() == 128,
                    sets.len() == 4,
                    forall|r: int|
                        0 <= r < 4 ==> #[trigger] sets[r] == span(acts@, start + r, nb as int),
                    forall|i: int|
                        0 <= i < 128 ==> #[trigger] whole@[i] == tile_chain::<R, B>(
                            bgrp@,
                            sets[i / 32],
                            nb as nat,
                            (i % 32) / 8,
                            i % 8,
                        ),
                    dst@.len() == m * n,
                    want == (|row: int, col: int|
                        fused_cell::<R, B>(b@, acts@, nb as int, row, col)),
                    forall|row: int, col: int|
                        0 <= row < m && 0 <= col < n && (col / 8 < g || (col / 8 == g && row / 4
                            < start + rp)) ==> dst@[#[trigger] cell(n as int, row, col)] == want(
                            row,
                            col,
                        ),
            {
                let part = &whole[rp * 32..rp * 32 + 32];
                assert forall|i: int| 0 <= i < 32 implies #[trigger] part@[i] == want(
                    4 * (mg + rp) + i / 8,
                    8 * g + i % 8,
                ) by {
                    let at = rp * 32 + i;
                    assert(part@[i] == whole@[at]);
                    assert(at / 32 == rp && (at % 32) / 8 == i / 8 && at % 8 == i % 8);
                    let (row, col) = (4 * (mg + rp) + i / 8, 8 * g + i % 8);
                    assert(row / 4 == mg + rp && row % 4 == i / 8);
                    assert(col / 8 == g && col % 8 == i % 8);
                    assert(sets[rp as int] == span(acts@, start + rp, nb as int));
                }
                put_tile(Ghost(want), part, m, n, mg + rp, g, dst);
            }
            mg = mg + 4;
        }
        while mg < tiles
            invariant
                lawful::<R>(),
                n % 8 == 0,
                groups == n / 8,
                g < groups,
                tiles == (m + 3) / 4,
                m + 3 <= usize::MAX,
                mg <= tiles,
                acts@.len() == tiles * nb,
                bgrp@ == span(b@, g as int, nb as int),
                bgrp@.len() == nb,
                dst@.len() == m * n,
                want == (|row: int, col: int| fused_cell::<R, B>(b@, acts@, nb as int, row, col)),
                forall|row: int, col: int|
                    0 <= row < m && 0 <= col < n && (col / 8 < g || (col / 8 == g && row / 4 < mg))
                        ==> dst@[#[trigger] cell(n as int, row, col)] == want(row, col),
            decreases tiles - mg,
        {
            assert((mg + 1) * nb <= tiles * nb) by (nonlinear_arith)
                requires
                    mg + 1 <= tiles,
                    0 <= nb,
            ;
            let mut local: [R; 32] = [zero::<R>(); 32];
            let agrp = span_of(acts, mg, nb);
            tile_gemm::<R, B>(agrp, bgrp, nb, &mut local);
            assert forall|i: int| 0 <= i < 32 implies #[trigger] local@[i] == want(
                4 * mg + i / 8,
                8 * g + i % 8,
            ) by {
                let (row, col) = (4 * mg + i / 8, 8 * g + i % 8);
                assert(row / 4 == mg && row % 4 == i / 8);
                assert(col / 8 == g && col % 8 == i % 8);
            }
            put_tile(Ghost(want), local.as_slice(), m, n, mg, g, dst);
            mg = mg + 1;
        }
    }
}

/// The product of interleaved weights and interleaved rows, one rounding per part.
pub fn parted_matmul<R: Real, B: Octet<R>>(
    m: usize,
    n: usize,
    nb: usize,
    acts: &[BlockQ8_0x4],
    b: &[B],
    halves: bool,
    dst: &mut [R],
)
    requires
        lawful::<R>(),
        n % 8 == 0,
        m + 3 <= usize::MAX,
        acts@.len() == ((m + 3) / 4) * nb,
        b@.len() == (n / 8) * nb,
        old(dst)@.len() == m * n,
    ensures
        final(dst)@.len() == m * n,
        forall|row: int, col: int|
            0 <= row < m && 0 <= col < n ==> final(dst)@[#[trigger] cell(n as int, row, col)]
                == parted_cell::<R, B>(b@, acts@, nb as int, row, col, halves),
{
    let groups: usize = n / 8;
    let tiles: usize = (m + 3) / 4;
    let ghost want = |row: int, col: int|
        parted_cell::<R, B>(b@, acts@, nb as int, row, col, halves);
    for mg in 0..tiles
        invariant
            lawful::<R>(),
            n % 8 == 0,
            groups == n / 8,
            tiles == (m + 3) / 4,
            m + 3 <= usize::MAX,
            acts@.len() == tiles * nb,
            b@.len() == groups * nb,
            dst@.len() == m * n,
            want == (|row: int, col: int|
                parted_cell::<R, B>(b@, acts@, nb as int, row, col, halves)),
            forall|row: int, col: int|
                0 <= row < m && 0 <= col < n && row / 4 < mg ==> dst@[#[trigger] cell(
                    n as int,
                    row,
                    col,
                )] == want(row, col),
    {
        assert((mg + 1) * nb <= tiles * nb) by (nonlinear_arith)
            requires
                mg + 1 <= tiles,
                0 <= nb,
        ;
        let agrp = span_of(acts, mg, nb);
        for g in 0..groups
            invariant
                lawful::<R>(),
                n % 8 == 0,
                groups == n / 8,
                mg < tiles,
                tiles == (m + 3) / 4,
                m + 3 <= usize::MAX,
                agrp@ == span(acts@, mg as int, nb as int),
                agrp@.len() == nb,
                b@.len() == groups * nb,
                dst@.len() == m * n,
                want == (|row: int, col: int|
                    parted_cell::<R, B>(b@, acts@, nb as int, row, col, halves)),
                forall|row: int, col: int|
                    0 <= row < m && 0 <= col < n && (row / 4 < mg || (row / 4 == mg && col / 8 < g))
                        ==> dst@[#[trigger] cell(n as int, row, col)] == want(row, col),
        {
            assert((g + 1) * nb <= groups * nb) by (nonlinear_arith)
                requires
                    g + 1 <= groups,
                    0 <= nb,
            ;
            let bgrp = span_of(b, g, nb);
            let mut local: [R; 32] = [zero::<R>(); 32];
            tile_parts::<R, B>(agrp, bgrp, nb, halves, &mut local);
            assert forall|i: int| 0 <= i < 32 implies #[trigger] local@[i] == want(
                4 * mg + i / 8,
                8 * g + i % 8,
            ) by {
                let (row, col) = (4 * mg + i / 8, 8 * g + i % 8);
                assert(row / 4 == mg && row % 4 == i / 8);
                assert(col / 8 == g && col % 8 == i % 8);
            }
            put_tile(Ghost(want), local.as_slice(), m, n, mg, g, dst);
        }
    }
}

} // verus!
