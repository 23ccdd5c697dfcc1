//! The tiled matrix product: weight groups of eight columns against tiles of eight rows.
//!
//! Every interleaved or grouped layout is driven the same way. A group's columns meet the rows
//! eight at a time, so a decoded weight feeds a whole tile before the next is read; only the
//! kernel and the layout differ, and what each cell of the output holds is the kernel's own
//! column product, whichever tile it was computed in.
use vstd::prelude::*;
use crate::arith::{Real, lawful, rzero, zero};
use crate::blocks::{Quantized, lemma_paired, run};
use crate::coded::{cell, tile};
use crate::grid::{lemma_cell_inside, store_tile};
use crate::sums::filled;

verus! {

/// Span `r` of `w` items.
pub open spec fn span<T>(s: Seq<T>, r: int, w: int) -> Seq<T> {
    s.subrange(r * w, r * w + w)
}

/// The `w` items of span `r`.
pub fn span_of<T>(s: &[T], r: usize, w: usize) -> (t: &[T])
    requires
        (r + 1) * w <= s@.len(),
    ensures
        t@ == span(s@, r as int, w as int),
        t@.len() == w,
{
    let size: usize = s.len();
    assert(r * w + w == (r + 1) * w && 0 <= r * w) by (nonlinear_arith)
        requires
            0 <= r,
            0 <= w,
    ;
    let at: usize = r * w;
    let t = &s[at..at + w];
    assert(t@ =~= span(s@, r as int, w as int));
    t
}

/// `blocks` is `x` quantised, a block to each width of values.
pub open spec fn quantised<R: Real, B: Quantized<R>>(x: Seq<R>, blocks: Seq<B>) -> bool {
    &&& x.len() == blocks.len() * B::width()
    &&& forall|b: int|
        0 <= b < blocks.len() ==> B::encodes(
            run(x, b, B::width() as int),
            #[trigger] blocks[b],
        )
}

/// Quantise a run of values.
pub fn quantize_all<R: Real, B: Quantized<R>>(x: &[R]) -> (out: Vec<B>)
    requires
        lawful::<R>(),
        x@.len() as int % B::width() as int == 0,
    ensures
        quantised::<R, B>(x@, out@),
{
    let w: usize = B::block_len();
    let n: usize = x.len() / w;
    assert(x@.len() == n * w) by {
        vstd::arithmetic::div_mod::lemma_fundamental_div_mod(x@.len() as int, w as int);
        assert(w * n == n * w) by (nonlinear_arith);
    }
    let mut out: Vec<B> = filled(B::zeros(), n);
    proof {
        lemma_paired(n as int, x@.len() as int, w as int);
    }
    B::quantize(x, &mut out);
    out
}

/// A kernel over groups of eight columns.
pub trait TileKernel<R: Real> {
    type Block;

    type Act: Copy;

    /// What is worked out once for a group, before its tiles.
    type Ready;

    /// Blocks of a group whose columns are `nb` blocks long.
    spec fn per_group(nb: int) -> int;

    /// `ready` is what this group's tiles need.
    spec fn is_ready(ready: Self::Ready, b: Seq<Self::Block>, nb: nat) -> bool;

    /// The product of column `j` of a group and one row.
    spec fn column_dot(b: Seq<Self::Block>, j: int, a: Seq<Self::Act>, nb: nat) -> R;

    fn group_len(nb: usize) -> (r: usize)
        requires
            nb * 8 <= usize::MAX,
        ensures
            r == Self::per_group(nb as int),
    ;

    /// Prepare a group that `m` rows will meet.
    fn ready(b: &[Self::Block], nb: usize, m: usize) -> (r: Self::Ready)
        requires
            lawful::<R>(),
            b@.len() == Self::per_group(nb as int),
        ensures
            Self::is_ready(r, b@, nb as nat),
    ;

    /// One tile: up to eight rows, into a buffer of zeros.
    fn tile(
        ready: &Self::Ready,
        b: &[Self::Block],
        acts: &[&[Self::Act]],
        nb: usize,
        out: &mut [R],
    )
        requires
            lawful::<R>(),
            Self::is_ready(*ready, b@, nb as nat),
            b@.len() == Self::per_group(nb as int),
            acts@.len() <= 8,
            forall|r: int| 0 <= r < acts@.len() ==> nb == #[trigger] acts@[r]@.len(),
            old(out)@.len() == 64,
            forall|i: int| 0 <= i < 64 ==> #[trigger] old(out)@[i] == rzero::<R>(),
        ensures
            final(out)@.len() == 64,
            forall|r: int, j: int|
                0 <= r < acts@.len() && 0 <= j < 8 ==> final(out)@[#[trigger] tile(r, j)]
                    == Self::column_dot(b@, j, acts@[r]@, nb as nat),
    ;
}

/// Cell `(row, col)` of the product of interleaved weights and quantised rows.
pub open spec fn tiled_cell<R: Real, K: TileKernel<R>>(
    b: Seq<K::Block>,
    acts: Seq<K::Act>,
    nb: int,
    row: int,
    col: int,
) -> R {
    K::column_dot(
        span(b, col / 8, K::per_group(nb)),
        col % 8,
        span(acts, row, nb),
        nb as nat,
    )
}

/// `dst` is the product of interleaved weights and quantised rows.
pub open spec fn tiled_product<R: Real, K: TileKernel<R>>(
    b: Seq<K::Block>,
    acts: Seq<K::Act>,
    dst: Seq<R>,
    m: int,
    n: int,
    nb: int,
) -> bool {
    &&& dst.len() == m * n
    &&& forall|row: int, col: int|
        0 <= row < m && 0 <= col < n ==> dst[#[trigger] cell(n, row, col)] == tiled_cell::<R, K>(
            b,
            acts,
            nb,
            row,
            col,
        )
}

/// One tile: rows `r .. r + mt` of one group.
fn run_tile<R: Real, K: TileKernel<R>>(
    ready: &K::Ready,
    b: &[K::Block],
    acts: &[K::Act],
    nb: usize,
    r: usize,
    mt: usize,
) -> (local: Vec<R>)
    requires
        lawful::<R>(),
        K::is_ready(*ready, b@, nb as nat),
        b@.len() == K::per_group(nb as int),
        mt <= 8,
        (r + mt) * nb <= acts@.len(),
        r + mt <= usize::MAX,
    ensures
        local@.len() == 64,
        forall|t: int, j: int|
            0 <= t < mt && 0 <= j < 8 ==> local@[#[trigger] tile(t, j)] == K::column_dot(
                b@,
                j,
                span(acts@, r + t, nb as int),
                nb as nat,
            ),
{
    let mut refs: Vec<&[K::Act]> = Vec::new();
    for t in 0..mt
        invariant
            mt <= 8,
            (r + mt) * nb <= acts@.len(),
            r + mt <= usize::MAX,
            refs@.len() == t,
            forall|i: int|
                0 <= i < t ==> #[trigger] refs@[i]@ == span(acts@, r + i, nb as int)
                    && refs@[i]@.len() == nb,
    {
        assert((r + t + 1) * nb <= (r + mt) * nb) by (nonlinear_arith)
            requires
                t + 1 <= mt,
                0 <= nb,
        ;
        refs.push(span_of(acts, r + t, nb));
    }
    let mut local: Vec<R> = filled(zero::<R>(), 64);
    assert forall|q: int| 0 <= q < refs@.len() implies nb == #[trigger] refs@[q]@.len() by {
        assert(refs@[q]@ == span(acts@, r + q, nb as int));
    }
    K::tile(ready, b, &refs, nb, &mut local);
    assert forall|t: int, j: int| 0 <= t < mt && 0 <= j < 8 implies local@[#[trigger] tile(t, j)]
        == K::column_dot(b@, j, span(acts@, r + t, nb as int), nb as nat) by {
        assert(refs@[t]@ == span(acts@, r + t, nb as int));
    }
    local
}

/// The product of interleaved weights and quantised rows: one group of eight columns at a time,
/// eight rows to a tile.
pub fn tiled_matmul<R: Real, K: TileKernel<R>>(
    m: usize,
    n: usize,
    nb: usize,
    acts: &[K::Act],
    b: &[K::Block],
    dst: &mut [R],
)
    requires
        lawful::<R>(),
        n % 8 == 0,
        nb * 8 <= usize::MAX,
        acts@.len() == m * nb,
        b@.len() == (n / 8) * K::per_group(nb as int),
        old(dst)@.len() == m * n,
        0 <= K::per_group(nb as int),
    ensures
        tiled_product::<R, K>(b@, acts@, final(dst)@, m as int, n as int, nb as int),
{
    let groups: usize = n / 8;
    let per: usize = K::group_len(nb);
    let room: usize = dst.len();
    for g in 0..groups
        invariant
            lawful::<R>(),
            n % 8 == 0,
            groups == n / 8,
            per == K::per_group(nb as int),
            acts@.len() == m * nb,
            b@.len() == groups * per,
            room == m * n,
            dst@.len() == room,
            forall|row: int, col: int|
                0 <= row < m && 0 <= col < 8 * g ==> dst@[#[trigger] cell(n as int, row, col)]
                    == tiled_cell::<R, K>(b@, acts@, nb as int, row, col),
    {
        assert((g + 1) * per <= groups * per) by (nonlinear_arith)
            requires
                g + 1 <= groups,
                0 <= per,
        ;
        let bgrp = span_of(b, g, per);
        let ready = K::ready(bgrp, nb, m);
        let mut r: usize = 0;
        while r < m
            invariant
                lawful::<R>(),
                n % 8 == 0,
                groups == n / 8,
                g < groups,
                per == K::per_group(nb as int),
                    acts@.len() == m * nb,
                bgrp@ == span(b@, g as int, per as int),
                bgrp@.len() == per,
                K::is_ready(ready, bgrp@, nb as nat),
                room == m * n,
                dst@.len() == room,
                r <= m,
                forall|row: int, col: int|
                    0 <= row < m && (0 <= col < 8 * g || (8 * g <= col < 8 * g + 8 && row < r))
                        ==> dst@[#[trigger] cell(n as int, row, col)] == tiled_cell::<R, K>(
                        b@,
                        acts@,
                        nb as int,
                        row,
                        col,
                    ),
            decreases m - r,
        {
            let left: usize = m - r;
            let mt: usize = if left < 8 {
                left
            } else {
                8
            };
            assert((r + mt) * nb <= m * nb && (r + mt) * n <= m * n) by (nonlinear_arith)
                requires
                    r + mt <= m,
                    0 <= nb,
                    0 <= n,
            ;
            let local = run_tile::<R, K>(&ready, bgrp, acts, nb, r, mt);
            let ghost before = dst@;
            store_tile(&local, r, mt, g * 8, n, dst);
            proof {
                assert forall|row: int, col: int|
                    0 <= row < m && (0 <= col < 8 * g || (8 * g <= col < 8 * g + 8 && row < r + mt))
                        implies dst@[#[trigger] cell(n as int, row, col)] == tiled_cell::<R, K>(
                    b@,
                    acts@,
                    nb as int,
                    row,
                    col,
                ) by {
                    lemma_cell_inside(m as int, n as int, row, col);
                    if r <= row < r + mt && 8 * g <= col {
                        assert(local@[tile(row - r, col - 8 * g)] == K::column_dot(
                            bgrp@,
                            col - 8 * g,
                            span(acts@, row, nb as int),
                            nb as nat,
                        ));
                        assert(col / 8 == g && col % 8 == col - 8 * g);
                    } else {
                        assert(dst@[cell(n as int, row, col)] == before[cell(n as int, row, col)]);
                    }
                }
            }
            r = r + mt;
        }
    }
}

} // verus!
