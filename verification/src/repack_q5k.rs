//! Q5_K weights interleaved eight columns to a block.
//!
//! A gather: column `j` keeps its packed planes whole, in its own contiguous span, so a column of
//! an interleaved block is the super-block it came from.
use vstd::prelude::*;
use crate::arith::{
    Half, Real, lawful, radd, rhalf, rint, rmul, rsub, rzero, int_to, minus, plus, times, widen,
    zero,
};
use crate::coded::{blocks_of, cell, tile};
use crate::format::q5_k::{BlockQ5K, first_blocks, q5k_dot};
use crate::format::q8_k::BlockQ8K;
use crate::kgroup::{Gather, interleave_rows, interleaved, lemma_stride, scaled_products};
use crate::koffset::Minned;
use crate::sums::isum;
use crate::superblock::{Codes256, scaled_dot, small_product};

verus! {

/// Eight interleaved q5_K super-blocks. Column `j` is `d[j]`, `dmin[j]`, `scales[12 * j ..]`,
/// `qs[128 * j ..]` and `qh[32 * j ..]`.
#[derive(Clone, Copy, Debug)]
pub struct BlockQ5Kx8 {
    pub d: [Half; 8],
    pub dmin: [Half; 8],
    pub scales: [u8; 96],
    pub qs: [u8; 1024],
    pub qh: [u8; 256],
}

/// Column `j` of `b` is `x`.
pub open spec fn column_is(b: BlockQ5Kx8, j: int, x: BlockQ5K) -> bool {
    &&& b.d@[j] == x.d
    &&& b.dmin@[j] == x.dmin
    &&& forall|t: int| 0 <= t < 12 ==> b.scales@[12 * j + t] == #[trigger] x.scales@[t]
    &&& forall|t: int| 0 <= t < 128 ==> b.qs@[128 * j + t] == #[trigger] x.qs@[t]
    &&& forall|t: int| 0 <= t < 32 ==> b.qh@[32 * j + t] == #[trigger] x.qh@[t]
}

/// Column `j` of `b`.
pub open spec fn column_of(b: BlockQ5Kx8, j: int) -> BlockQ5K {
    choose|x: BlockQ5K| column_is(b, j, x)
}

/// A column is one super-block and no other.
pub proof fn columns_are_unique(b: BlockQ5Kx8, j: int, x: BlockQ5K)
    requires
        column_is(b, j, x),
    ensures
        column_of(b, j) == x,
{
    let y = column_of(b, j);
    assert(column_is(b, j, y));
    assert forall|t: int| 0 <= t < 12 implies x.scales@[t] == y.scales@[t] by {
        assert(b.scales@[12 * j + t] == x.scales@[t]);
        assert(b.scales@[12 * j + t] == y.scales@[t]);
    }
    assert forall|t: int| 0 <= t < 128 implies x.qs@[t] == y.qs@[t] by {
        assert(b.qs@[128 * j + t] == x.qs@[t]);
        assert(b.qs@[128 * j + t] == y.qs@[t]);
    }
    assert forall|t: int| 0 <= t < 32 implies x.qh@[t] == y.qh@[t] by {
        assert(b.qh@[32 * j + t] == x.qh@[t]);
        assert(b.qh@[32 * j + t] == y.qh@[t]);
    }
    assert(x.scales =~= y.scales);
    assert(x.qs =~= y.qs);
    assert(x.qh =~= y.qh);
}

/// Read column `j` of `b`.
pub fn column_block(b: &BlockQ5Kx8, j: usize) -> (x: BlockQ5K)
    requires
        j < 8,
    ensures
        column_is(*b, j as int, x),
        x == column_of(*b, j as int),
{
    let mut scales = [0u8; 12];
    let mut qs = [0u8; 128];
    let mut qh = [0u8; 32];
    for t in 0..12usize
        invariant
            j < 8,
            forall|u: int| 0 <= u < t ==> b.scales@[12 * j + u] == #[trigger] scales@[u],
    {
        scales[t] = b.scales[12 * j + t];
    }
    for t in 0..128usize
        invariant
            j < 8,
            forall|u: int| 0 <= u < t ==> b.qs@[128 * j + u] == #[trigger] qs@[u],
    {
        qs[t] = b.qs[128 * j + t];
    }
    for t in 0..32usize
        invariant
            j < 8,
            forall|u: int| 0 <= u < t ==> b.qh@[32 * j + u] == #[trigger] qh@[u],
    {
        qh[t] = b.qh[32 * j + t];
    }
    let x = BlockQ5K { d: b.d[j], dmin: b.dmin[j], scales, qh, qs };
    proof {
        columns_are_unique(*b, j as int, x);
    }
    x
}

/// Column `j` of each of a run of interleaved blocks.
pub open spec fn columns_of(b: Seq<BlockQ5Kx8>, j: int) -> Seq<BlockQ5K> {
    Seq::new(b.len(), |l: int| column_of(b[l], j))
}

/// Column `j` of every interleaved block.
fn columns(b: &[BlockQ5Kx8], j: usize) -> (r: Vec<BlockQ5K>)
    requires
        j < 8,
    ensures
        r@ == columns_of(b@, j as int),
{
    let mut r: Vec<BlockQ5K> = Vec::new();
    for l in 0..b.len()
        invariant
            j < 8,
            r@.len() == l,
            forall|i: int| 0 <= i < l ==> #[trigger] r@[i] == column_of(b@[i], j as int),
    {
        r.push(column_block(&b[l], j));
    }
    assert(r@ =~= columns_of(b@, j as int));
    r
}

/// Each row's super-block in its own span.
pub struct Spans {}

impl Gather for Spans {
    type Row = BlockQ5K;

    type Out = BlockQ5Kx8;

    open spec fn holds(out: BlockQ5Kx8, j: int, row: BlockQ5K) -> bool {
        column_is(out, j, row)
    }

    fn gather(rhs: &[BlockQ5K], base: usize, stride: usize) -> (out: BlockQ5Kx8) {
        let total: usize = rhs.len();
        let mut d = [Half::zero(); 8];
        let mut dmin = [Half::zero(); 8];
        let mut scales = [0u8; 96];
        let mut qs = [0u8; 1024];
        let mut qh = [0u8; 256];
        for j in 0..8usize
            invariant
                total == rhs@.len(),
                base + 7 * stride < total,
                forall|k: int| 0 <= k < j ==> #[trigger] d@[k] == rhs@[base + k * stride].d,
                forall|k: int| 0 <= k < j ==> #[trigger] dmin@[k] == rhs@[base + k * stride].dmin,
        {
            proof {
                lemma_stride(j as int, stride as int);
            }
            d[j] = rhs[base + j * stride].d;
            dmin[j] = rhs[base + j * stride].dmin;
        }
        for i in 0..96usize
            invariant
                total == rhs@.len(),
                base + 7 * stride < total,
                forall|u: int|
                    0 <= u < i ==> #[trigger] scales@[u] == rhs@[base + (u / 12) * stride].scales@[u
                        % 12],
        {
            proof {
                lemma_stride(i as int / 12, stride as int);
            }
            scales[i] = rhs[base + (i / 12) * stride].scales[i % 12];
        }
        for i in 0..1024usize
            invariant
                total == rhs@.len(),
                base + 7 * stride < total,
                forall|u: int|
                    0 <= u < i ==> #[trigger] qs@[u] == rhs@[base + (u / 128) * stride].qs@[u
                        % 128],
        {
            proof {
                lemma_stride(i as int / 128, stride as int);
            }
            qs[i] = rhs[base + (i / 128) * stride].qs[i % 128];
        }
        for i in 0..256usize
            invariant
                total == rhs@.len(),
                base + 7 * stride < total,
                forall|u: int|
                    0 <= u < i ==> #[trigger] qh@[u] == rhs@[base + (u / 32) * stride].qh@[u
                        % 32],
        {
            proof {
                lemma_stride(i as int / 32, stride as int);
            }
            qh[i] = rhs[base + (i / 32) * stride].qh[i % 32];
        }
        let out = BlockQ5Kx8 { d, dmin, scales, qs, qh };
        assert forall|j: int| 0 <= j < 8 implies #[trigger] Self::holds(
            out,
            j,
            rhs@[base + j * stride],
        ) by {
            let x = rhs@[base + j * stride];
            assert(out.d@[j] == x.d);
            assert(out.dmin@[j] == x.dmin);
            assert forall|t: int| 0 <= t < 12 implies out.scales@[12 * j + t] == #[trigger] x.scales@[
            t] by {
                assert((12 * j + t) / 12 == j && (12 * j + t) % 12 == t);
            }
            assert forall|t: int| 0 <= t < 128 implies out.qs@[128 * j + t] == #[trigger] x.qs@[
            t] by {
                assert((128 * j + t) / 128 == j && (128 * j + t) % 128 == t);
            }
            assert forall|t: int| 0 <= t < 32 implies out.qh@[32 * j + t] == #[trigger] x.qh@[t] by {
                assert((32 * j + t) / 32 == j && (32 * j + t) % 32 == t);
            }
        }
        out
    }
}

/// Interleave `[n, nb]` row-major blocks into `[n/8][nb]`.
pub fn repack(rhs: &[BlockQ5K], n: usize, nb: usize) -> (out: Vec<BlockQ5Kx8>)
    requires
        n % 8 == 0,
        rhs@.len() == n * nb,
    ensures
        interleaved::<Spans>(rhs@, out@, n as int, nb as int),
{
    interleave_rows::<Spans>(rhs, n, nb)
}

/// Interleaving loses nothing: column `j` of group `g` is row `8 * g + j`, block by block.
pub proof fn interleaved_columns_are_rows(
    rhs: Seq<BlockQ5K>,
    out: Seq<BlockQ5Kx8>,
    n: int,
    nb: int,
    g: int,
    j: int,
)
    requires
        interleaved::<Spans>(rhs, out, n, nb),
        0 <= g < n / 8,
        0 <= j < 8,
        0 <= nb,
    ensures
        columns_of(blocks_of(out, g, nb), j) == blocks_of(rhs, tile(g, j), nb),
{
    assert forall|l: int| 0 <= l < nb implies column_of(#[trigger] out[cell(nb, g, l)], j)
        == rhs[cell(nb, tile(g, j), l)] by {
        assert(Spans::holds(out[cell(nb, g, l)], j, rhs[cell(nb, tile(g, j), l)]));
        columns_are_unique(out[cell(nb, g, l)], j, rhs[cell(nb, tile(g, j), l)]);
    }
    assert(columns_of(blocks_of(out, g, nb), j) =~= blocks_of(rhs, tile(g, j), nb));
}

/// The minimum term of a block, as one exact integer over its sixteen sums.
pub open spec fn mins_by_sixteen<R: Real>(x: BlockQ5K, y: BlockQ8K<R>) -> int {
    isum(16, |s: int| <BlockQ5K as Minned<R>>::sub_min_of(x, s) * y.bsums@[s])
}

/// The plain product of the first `n` blocks of a column.
pub open spec fn plain_column<R: Real>(xs: Seq<BlockQ5K>, ys: Seq<BlockQ8K<R>>, n: nat) -> R
    decreases n,
{
    if n == 0 {
        rzero::<R>()
    } else {
        let (x, y) = (xs[n - 1], ys[n - 1]);
        radd(
            plain_column(xs, ys, (n - 1) as nat),
            rsub(
                rmul(rmul(rhalf(x.d), y.d), rint(scaled_dot(x, y.qs@) as i32)),
                rmul(rmul(rhalf(x.dmin), y.d), rint(mins_by_sixteen::<R>(x, y) as i32)),
            ),
        )
    }
}

/// The minimum term of a block.
fn min_products<R: Real>(x: &BlockQ5K, y: &BlockQ8K<R>) -> (r: i32)
    ensures
        r == mins_by_sixteen::<R>(*x, *y),
{
    let mins = <BlockQ5K as Minned<R>>::sub_mins(x);
    let ghost f = |s: int| <BlockQ5K as Minned<R>>::sub_min_of(*x, s) * y.bsums@[s];
    let mut sum: i32 = 0;
    for s in 0..16usize
        invariant
            forall|k: int|
                0 <= k < 16 ==> #[trigger] mins@[k] == <BlockQ5K as Minned<R>>::sub_min_of(*x, k),
            f == (|s: int| <BlockQ5K as Minned<R>>::sub_min_of(*x, s) * y.bsums@[s]),
            sum == isum(s as nat, f),
            -0x0040_0000 * s <= sum <= 0x0040_0000 * s,
    {
        let p: i32 = small_product(mins[s], y.bsums[s]);
        assert(f(s as int) == p);
        sum = sum + p;
    }
    sum
}

/// One group of eight columns against one activation row, one term per block.
pub fn gemv_group_scalar<R: Real>(
    b: &[BlockQ5Kx8],
    a: &[BlockQ8K<R>],
    nb: usize,
    out: &mut [R],
)
    requires
        lawful::<R>(),
        nb <= b@.len(),
        nb <= a@.len(),
        8 <= old(out)@.len(),
    ensures
        final(out)@.len() == old(out)@.len(),
        forall|j: int|
            0 <= j < 8 ==> #[trigger] final(out)@[j] == plain_column::<R>(
                columns_of(b@, j),
                a@,
                nb as nat,
            ),
        forall|i: int| 8 <= i < final(out)@.len() ==> #[trigger] final(out)@[i] == old(out)@[i],
{
    let ghost start = out@;
    for j in 0..8usize
        invariant
            lawful::<R>(),
            nb <= b@.len(),
            nb <= a@.len(),
            8 <= out@.len(),
            out@.len() == start.len(),
            forall|k: int|
                0 <= k < j ==> #[trigger] out@[k] == plain_column::<R>(
                    columns_of(b@, k),
                    a@,
                    nb as nat,
                ),
            forall|i: int| 8 <= i < out@.len() ==> #[trigger] out@[i] == start[i],
    {
        let mut sum = zero::<R>();
        for l in 0..nb
            invariant
                lawful::<R>(),
                j < 8,
                nb <= b@.len(),
                nb <= a@.len(),
                sum == plain_column::<R>(columns_of(b@, j as int), a@, l as nat),
        {
            let x = column_block(&b[l], j);
            let y = &a[l];
            let codes = scaled_products(&x, &y.qs);
            let mins = min_products(&x, y);
            let kept = times(times(widen(x.d), y.d), int_to(codes));
            let dropped = times(times(widen(x.dmin), y.d), int_to(mins));
            sum = plus(sum, minus(kept, dropped));
        }
        out[j] = sum;
    }
}

/// One group of eight columns against a tile of activation rows, added to what `out` holds: row
/// `r` meets `out[r * 8 .. r * 8 + 8]`. Each sum is the one the column's row has on its own.
pub fn gemm_group_avx2<R: Real>(
    b: &[BlockQ5Kx8],
    acts: &[&[BlockQ8K<R>]],
    nb: usize,
    out: &mut [R],
)
    requires
        lawful::<R>(),
        acts@.len() <= 8,
        nb <= b@.len(),
        forall|r: int| 0 <= r < acts@.len() ==> nb <= #[trigger] acts@[r]@.len(),
        acts@.len() * 8 <= old(out)@.len(),
    ensures
        final(out)@.len() == old(out)@.len(),
        forall|r: int, j: int|
            0 <= r < acts@.len() && 0 <= j < 8 ==> final(out)@[#[trigger] tile(r, j)] == radd(
                old(out)@[tile(r, j)],
                q5k_dot::<R>(columns_of(b@, j), acts@[r]@, nb as nat),
            ),
        forall|i: int|
            acts@.len() * 8 <= i < final(out)@.len() ==> #[trigger] final(out)@[i] == old(out)@[i],
{
    let ghost start = out@;
    let mt: usize = acts.len();
    for j in 0..8usize
        invariant
            lawful::<R>(),
            mt == acts@.len(),
            nb <= b@.len(),
            forall|r: int| 0 <= r < mt ==> nb <= #[trigger] acts@[r]@.len(),
            mt <= 8,
            mt * 8 <= out@.len(),
            out@.len() == start.len(),
            forall|r: int, k: int|
                0 <= r < mt && 0 <= k < 8 ==> out@[#[trigger] tile(r, k)] == (if k < j {
                    radd(
                        start[tile(r, k)],
                        q5k_dot::<R>(columns_of(b@, k), acts@[r]@, nb as nat),
                    )
                } else {
                    start[tile(r, k)]
                }),
            forall|i: int| mt * 8 <= i < out@.len() ==> #[trigger] out@[i] == start[i],
    {
        let xs = columns(b, j);
        for r in 0..mt
            invariant
                lawful::<R>(),
                j < 8,
                mt == acts@.len(),
                nb <= xs@.len(),
                xs@ == columns_of(b@, j as int),
                forall|q: int| 0 <= q < mt ==> nb <= #[trigger] acts@[q]@.len(),
                mt <= 8,
                mt * 8 <= out@.len(),
                out@.len() == start.len(),
                forall|q: int, k: int|
                    0 <= q < mt && 0 <= k < 8 ==> out@[#[trigger] tile(q, k)] == (if k < j || (k == j
                        && q < r) {
                        radd(
                            start[tile(q, k)],
                            q5k_dot::<R>(columns_of(b@, k), acts@[q]@, nb as nat),
                        )
                    } else {
                        start[tile(q, k)]
                    }),
                forall|i: int| mt * 8 <= i < out@.len() ==> #[trigger] out@[i] == start[i],
        {
            let v = first_blocks(&xs, acts[r], nb);
            assert(tile(r as int, j as int) == r * 8 + j);
            out[r * 8 + j] = plus(out[r * 8 + j], v);
        }
    }
}

} // verus!
