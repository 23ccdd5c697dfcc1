//! Q6_K weights interleaved eight columns to a block.
//!
//! A gather: column `j` keeps its packed planes whole, in its own contiguous span, so a column of
//! an interleaved block is the super-block it came from.
use vstd::prelude::*;
use crate::arith::{Half, Real, lawful, radd, rhalf, rint, rmul, rzero, int_to, plus, times, widen, zero};
use crate::coded::{blocks_of, cell, tile};
use crate::format::q6_k::{BlockQ6K, Centred, folded_lane, folded_lanes, zero_point_folds};
use crate::format::q8_k::{BlockQ8K, bsums_hold};
use crate::kgroup::{Gather, interleave_rows, interleaved, lemma_stride, scaled_products};
use crate::sums::isum;
use crate::superblock::scaled_dot;

verus! {

/// Eight interleaved q6_K super-blocks. Column `j` is `d[j]`, `scales[16 * j ..]`,
/// `ql[128 * j ..]` and `qh[64 * j ..]`.
#[derive(Clone, Copy, Debug)]
pub struct BlockQ6Kx8 {
    pub d: [Half; 8],
    pub scales: [i8; 128],
    pub ql: [u8; 1024],
    pub qh: [u8; 512],
}

/// Column `j` of `b` is `x`.
pub open spec fn column_is(b: BlockQ6Kx8, j: int, x: BlockQ6K) -> bool {
    &&& b.d@[j] == x.d
    &&& forall|t: int| 0 <= t < 16 ==> b.scales@[16 * j + t] == #[trigger] x.scales@[t]
    &&& forall|t: int| 0 <= t < 128 ==> b.ql@[128 * j + t] == #[trigger] x.ql@[t]
    &&& forall|t: int| 0 <= t < 64 ==> b.qh@[64 * j + t] == #[trigger] x.qh@[t]
}

/// Column `j` of `b`.
pub open spec fn column_of(b: BlockQ6Kx8, j: int) -> BlockQ6K {
    choose|x: BlockQ6K| column_is(b, j, x)
}

/// A column is one super-block and no other.
pub proof fn columns_are_unique(b: BlockQ6Kx8, j: int, x: BlockQ6K)
    requires
        column_is(b, j, x),
    ensures
        column_of(b, j) == x,
{
    let y = column_of(b, j);
    assert(column_is(b, j, y));
    assert forall|t: int| 0 <= t < 16 implies x.scales@[t] == y.scales@[t] by {
        assert(b.scales@[16 * j + t] == x.scales@[t]);
        assert(b.scales@[16 * j + t] == y.scales@[t]);
    }
    assert forall|t: int| 0 <= t < 128 implies x.ql@[t] == y.ql@[t] by {
        assert(b.ql@[128 * j + t] == x.ql@[t]);
        assert(b.ql@[128 * j + t] == y.ql@[t]);
    }
    assert forall|t: int| 0 <= t < 64 implies x.qh@[t] == y.qh@[t] by {
        assert(b.qh@[64 * j + t] == x.qh@[t]);
        assert(b.qh@[64 * j + t] == y.qh@[t]);
    }
    assert(x.scales =~= y.scales);
    assert(x.ql =~= y.ql);
    assert(x.qh =~= y.qh);
}

/// Read column `j` of `b`.
pub fn column_block(b: &BlockQ6Kx8, j: usize) -> (x: BlockQ6K)
    requires
        j < 8,
    ensures
        column_is(*b, j as int, x),
        x == column_of(*b, j as int),
{
    let mut scales = [0i8; 16];
    let mut ql = [0u8; 128];
    let mut qh = [0u8; 64];
    for t in 0..16usize
        invariant
            j < 8,
            forall|u: int| 0 <= u < t ==> b.scales@[16 * j + u] == #[trigger] scales@[u],
    {
        scales[t] = b.scales[16 * j + t];
    }
    for t in 0..128usize
        invariant
            j < 8,
            forall|u: int| 0 <= u < t ==> b.ql@[128 * j + u] == #[trigger] ql@[u],
    {
        ql[t] = b.ql[128 * j + t];
    }
    for t in 0..64usize
        invariant
            j < 8,
            forall|u: int| 0 <= u < t ==> b.qh@[64 * j + u] == #[trigger] qh@[u],
    {
        qh[t] = b.qh[64 * j + t];
    }
    let x = BlockQ6K { ql, qh, scales, d: b.d[j] };
    proof {
        columns_are_unique(*b, j as int, x);
    }
    x
}

/// Column `j` of each of a run of interleaved blocks.
pub open spec fn columns_of(b: Seq<BlockQ6Kx8>, j: int) -> Seq<BlockQ6K> {
    Seq::new(b.len(), |l: int| column_of(b[l], j))
}

/// Column `j` of every interleaved block.
fn columns(b: &[BlockQ6Kx8], j: usize) -> (r: Vec<BlockQ6K>)
    requires
        j < 8,
    ensures
        r@ == columns_of(b@, j as int),
{
    let mut r: Vec<BlockQ6K> = Vec::new();
    for l in 0..b.len()
        invariant
            j < 8,
            r@.len() == l,
            forall|i: int| 0 <= i < l ==> #[trigger] r@[i] == column_of(b@[i], j as int),
    {
        r.push(column_block(&b[l], j));
    }
    assert(r@ =~= columns_of(b@, j as int));
    r
}

/// Each row's super-block in its own span.
pub struct Spans {}

impl Gather for Spans {
    type Row = BlockQ6K;

    type Out = BlockQ6Kx8;

    open spec fn holds(out: BlockQ6Kx8, j: int, row: BlockQ6K) -> bool {
        column_is(out, j, row)
    }

    fn gather(rhs: &[BlockQ6K], base: usize, stride: usize) -> (out: BlockQ6Kx8) {
        let total: usize = rhs.len();
        let mut d = [Half::zero(); 8];
        let mut scales = [0i8; 128];
        let mut ql = [0u8; 1024];
        let mut qh = [0u8; 512];
        for j in 0..8usize
            invariant
                total == rhs@.len(),
                base + 7 * stride < total,
                forall|k: int| 0 <= k < j ==> #[trigger] d@[k] == rhs@[base + k * stride].d,
        {
            proof {
                lemma_stride(j as int, stride as int);
            }
            d[j] = rhs[base + j * stride].d;
        }
        for i in 0..128usize
            invariant
                total == rhs@.len(),
                base + 7 * stride < total,
                forall|u: int|
                    0 <= u < i ==> #[trigger] scales@[u] == rhs@[base + (u / 16) * stride].scales@[u
                        % 16],
        {
            proof {
                lemma_stride(i as int / 16, stride as int);
            }
            scales[i] = rhs[base + (i / 16) * stride].scales[i % 16];
        }
        for i in 0..1024usize
            invariant
                total == rhs@.len(),
                base + 7 * stride < total,
                forall|u: int|
                    0 <= u < i ==> #[trigger] ql@[u] == rhs@[base + (u / 128) * stride].ql@[u
                        % 128],
        {
            proof {
                lemma_stride(i as int / 128, stride as int);
            }
            ql[i] = rhs[base + (i / 128) * stride].ql[i % 128];
        }
        for i in 0..512usize
            invariant
                total == rhs@.len(),
                base + 7 * stride < total,
                forall|u: int|
                    0 <= u < i ==> #[trigger] qh@[u] == rhs@[base + (u / 64) * stride].qh@[u
                        % 64],
        {
            proof {
                lemma_stride(i as int / 64, stride as int);
            }
            qh[i] = rhs[base + (i / 64) * stride].qh[i % 64];
        }
        let out = BlockQ6Kx8 { d, scales, ql, qh };
        assert forall|j: int| 0 <= j < 8 implies #[trigger] Self::holds(
            out,
            j,
            rhs@[base + j * stride],
        ) by {
            let x = rhs@[base + j * stride];
            assert(out.d@[j] == x.d);
            assert forall|t: int| 0 <= t < 16 implies out.scales@[16 * j + t] == #[trigger] x.scales@[
            t] by {
                assert((16 * j + t) / 16 == j && (16 * j + t) % 16 == t);
            }
            assert forall|t: int| 0 <= t < 128 implies out.ql@[128 * j + t] == #[trigger] x.ql@[
            t] by {
                assert((128 * j + t) / 128 == j && (128 * j + t) % 128 == t);
            }
            assert forall|t: int| 0 <= t < 64 implies out.qh@[64 * j + t] == #[trigger] x.qh@[t] by {
                assert((64 * j + t) / 64 == j && (64 * j + t) % 64 == t);
            }
        }
        out
    }
}

/// Interleave `[n, nb]` row-major blocks into `[n/8][nb]`.
pub fn repack(rhs: &[BlockQ6K], n: usize, nb: usize) -> (out: Vec<BlockQ6Kx8>)
    requires
        n % 8 == 0,
        rhs@.len() == n * nb,
    ensures
        interleaved::<Spans>(rhs@, out@, n as int, nb as int),
{
    interleave_rows::<Spans>(rhs, n, nb)
}

/// Interleaving loses nothing: column `j` of group `g` is row `8 * g + j`, block by block.
pub proof fn interleaved_columns_are_rows(
    rhs: Seq<BlockQ6K>,
    out: Seq<BlockQ6Kx8>,
    n: int,
    nb: int,
    g: int,
    j: int,
)
    requires
        interleaved::<Spans>(rhs, out, n, nb),
        0 <= g < n / 8,
        0 <= j < 8,
        0 <= nb,
    ensures
        columns_of(blocks_of(out, g, nb), j) == blocks_of(rhs, tile(g, j), nb),
{
    assert forall|l: int| 0 <= l < nb implies column_of(#[trigger] out[cell(nb, g, l)], j)
        == rhs[cell(nb, tile(g, j), l)] by {
        assert(Spans::holds(out[cell(nb, g, l)], j, rhs[cell(nb, tile(g, j), l)]));
        columns_are_unique(out[cell(nb, g, l)], j, rhs[cell(nb, tile(g, j), l)]);
    }
    assert(columns_of(blocks_of(out, g, nb), j) =~= blocks_of(rhs, tile(g, j), nb));
}

/// The plain product of the first `n` blocks of a column, the zero point taken off each code.
pub open spec fn plain_column<R: Real>(xs: Seq<BlockQ6K>, ys: Seq<BlockQ8K<R>>, n: nat) -> R
    decreases n,
{
    if n == 0 {
        rzero::<R>()
    } else {
        let (x, y) = (xs[n - 1], ys[n - 1]);
        radd(
            plain_column(xs, ys, (n - 1) as nat),
            rmul(rmul(rhalf(x.d), y.d), rint(scaled_dot(Centred { b: x }, y.qs@) as i32)),
        )
    }
}

/// The integer of one block, the zero point taken off once per sub-block.
pub open spec fn folded_total<R: Real>(x: BlockQ6K, y: BlockQ8K<R>) -> int {
    isum(8, |l: int| folded_lane::<R>(x, y, l))
}

/// `start` and the first `n` blocks of a column.
pub open spec fn folded_column<R: Real>(
    start: R,
    xs: Seq<BlockQ6K>,
    ys: Seq<BlockQ8K<R>>,
    n: nat,
) -> R
    decreases n,
{
    if n == 0 {
        start
    } else {
        let (x, y) = (xs[n - 1], ys[n - 1]);
        radd(
            folded_column(start, xs, ys, (n - 1) as nat),
            rmul(rmul(rhalf(x.d), y.d), rint(folded_total::<R>(x, y) as i32)),
        )
    }
}

/// Over activations that hold their own sums, the tiled product started at zero is the plain one.
pub proof fn folded_column_is_plain<R: Real>(xs: Seq<BlockQ6K>, ys: Seq<BlockQ8K<R>>, n: nat)
    requires
        forall|l: int| 0 <= l < n ==> bsums_hold((#[trigger] ys[l]).qs@, ys[l].bsums@),
    ensures
        folded_column::<R>(rzero::<R>(), xs, ys, n) == plain_column::<R>(xs, ys, n),
    decreases n,
{
    if n > 0 {
        folded_column_is_plain::<R>(xs, ys, (n - 1) as nat);
        zero_point_folds::<R>(xs[n - 1], ys[n - 1]);
    }
}

/// One group of eight columns against one activation row, one term per block.
pub fn gemv_group_scalar<R: Real>(
    b: &[BlockQ6Kx8],
    a: &[BlockQ8K<R>],
    nb: usize,
    out: &mut [R],
)
    requires
        lawful::<R>(),
        nb <= b@.len(),
        nb <= a@.len(),
        8 <= old(out)@.len(),
    ensures
        final(out)@.len() == old(out)@.len(),
        forall|j: int|
            0 <= j < 8 ==> #[trigger] final(out)@[j] == plain_column::<R>(
                columns_of(b@, j),
                a@,
                nb as nat,
            ),
        forall|i: int| 8 <= i < final(out)@.len() ==> #[trigger] final(out)@[i] == old(out)@[i],
{
    let ghost start = out@;
    for j in 0..8usize
        invariant
            lawful::<R>(),
            nb <= b@.len(),
            nb <= a@.len(),
            8 <= out@.len(),
            out@.len() == start.len(),
            forall|k: int|
                0 <= k < j ==> #[trigger] out@[k] == plain_column::<R>(
                    columns_of(b@, k),
                    a@,
                    nb as nat,
                ),
            forall|i: int| 8 <= i < out@.len() ==> #[trigger] out@[i] == start[i],
    {
        let mut sum = zero::<R>();
        for l in 0..nb
            invariant
                lawful::<R>(),
                j < 8,
                nb <= b@.len(),
                nb <= a@.len(),
                sum == plain_column::<R>(columns_of(b@, j as int), a@, l as nat),
        {
            let x = column_block(&b[l], j);
            let y = &a[l];
            let c = Centred { b: x };
            let codes = scaled_products(&c, &y.qs);
            sum = plus(sum, times(times(widen(x.d), y.d), int_to(codes)));
        }
        out[j] = sum;
    }
}

/// The integer of one block, cut to thirty-two bits.
fn folded_sum<R: Real>(x: &BlockQ6K, y: &BlockQ8K<R>) -> (r: i32)
    ensures
        r == folded_total::<R>(*x, *y) as i32,
{
    let lanes = folded_lanes(x, y);
    let ghost f = |l: int| folded_lane::<R>(*x, *y, l);
    let mut sum: i64 = 0;
    for l in 0..8usize
        invariant
            forall|k: int| 0 <= k < 8 ==> #[trigger] lanes@[k] == folded_lane::<R>(*x, *y, k),
            f == (|l: int| folded_lane::<R>(*x, *y, l)),
            sum == isum(l as nat, f),
            -0x8000_0000 * l <= sum <= 0x8000_0000 * l,
    {
        assert(f(l as int) == lanes@[l as int]);
        sum = sum + lanes[l] as i64;
    }
    #[verifier::truncate]
    (sum as i32)
}

/// One group of eight columns against a tile of activation rows, added to what `out` holds: row
/// `r` meets `out[r * 8 .. r * 8 + 8]`. Each column is read once for the whole tile.
pub fn gemm_group_avx2<R: Real>(
    b: &[BlockQ6Kx8],
    acts: &[&[BlockQ8K<R>]],
    nb: usize,
    out: &mut [R],
)
    requires
        lawful::<R>(),
        nb <= b@.len(),
        forall|r: int| 0 <= r < acts@.len() ==> nb <= #[trigger] acts@[r]@.len(),
        acts@.len() * 8 <= old(out)@.len(),
    ensures
        final(out)@.len() == old(out)@.len(),
        forall|r: int, j: int|
            0 <= r < acts@.len() && 0 <= j < 8 ==> final(out)@[#[trigger] tile(r, j)]
                == folded_column::<R>(
                old(out)@[tile(r, j)],
                columns_of(b@, j),
                acts@[r]@,
                nb as nat,
            ),
        forall|i: int|
            acts@.len() * 8 <= i < final(out)@.len() ==> #[trigger] final(out)@[i] == old(out)@[i],
{
    let ghost start = out@;
    let mt: usize = acts.len();
    let room: usize = out.len();
    for j in 0..8usize
        invariant
            lawful::<R>(),
            mt == acts@.len(),
            nb <= b@.len(),
            forall|r: int| 0 <= r < mt ==> nb <= #[trigger] acts@[r]@.len(),
            room == out@.len(),
            mt * 8 <= room,
            out@.len() == start.len(),
            forall|r: int, k: int|
                0 <= r < mt && 0 <= k < 8 ==> out@[#[trigger] tile(r, k)] == folded_column::<R>(
                    start[tile(r, k)],
                    columns_of(b@, k),
                    acts@[r]@,
                    (if k < j {
                        nb as int
                    } else {
                        0
                    }) as nat,
                ),
            forall|i: int| mt * 8 <= i < out@.len() ==> #[trigger] out@[i] == start[i],
    {
        for l in 0..nb
            invariant
                lawful::<R>(),
                j < 8,
                mt == acts@.len(),
                nb <= b@.len(),
                forall|r: int| 0 <= r < mt ==> nb <= #[trigger] acts@[r]@.len(),
                room == out@.len(),
                mt * 8 <= room,
                out@.len() == start.len(),
                forall|r: int, k: int|
                    0 <= r < mt && 0 <= k < 8 ==> out@[#[trigger] tile(r, k)] == folded_column::<R>(
                        start[tile(r, k)],
                        columns_of(b@, k),
                        acts@[r]@,
                        (if k < j {
                            nb as int
                        } else if k == j {
                            l as int
                        } else {
                            0
                        }) as nat,
                    ),
                forall|i: int| mt * 8 <= i < out@.len() ==> #[trigger] out@[i] == start[i],
        {
            let x = column_block(&b[l], j);
            assert(x == columns_of(b@, j as int)[l as int]);
            let d = widen::<R>(x.d);
            for r in 0..mt
                invariant
                    lawful::<R>(),
                    j < 8,
                    l < nb,
                    mt == acts@.len(),
                    x == columns_of(b@, j as int)[l as int],
                    d == rhalf::<R>(x.d),
                    forall|q: int| 0 <= q < mt ==> nb <= #[trigger] acts@[q]@.len(),
                    room == out@.len(),
                    mt * 8 <= room,
                    out@.len() == start.len(),
                    forall|q: int, k: int|
                        0 <= q < mt && 0 <= k < 8 ==> out@[#[trigger] tile(q, k)]
                            == folded_column::<R>(
                            start[tile(q, k)],
                            columns_of(b@, k),
                            acts@[q]@,
                            (if k < j {
                                nb as int
                            } else if k == j {
                                if q < r {
                                    l + 1
                                } else {
                                    l as int
                                }
                            } else {
                                0
                            }) as nat,
                        ),
                    forall|i: int| mt * 8 <= i < out@.len() ==> #[trigger] out@[i] == start[i],
            {
                let y = &acts[r][l];
                let s = folded_sum(&x, y);
                assert(tile(r as int, j as int) == r * 8 + j);
                out[r * 8 + j] = plus(out[r * 8 + j], times(times(d, y.d), int_to(s)));
            }
        }
    }
}

} // verus!
