//! The kernels of the formats whose block is thirty-two codes under one scale.
//!
//! What separates these formats is only how a code is unpacked and what the scale is; the
//! products, the eight lanes they gather in and the fold at the end are one piece of code. A
//! product is `code * activation` summed four to a lane, and one fused step per block adds it
//! under the product of the two scales.
use vstd::prelude::*;
use crate::arith::{Real, lawful, radd, rfma, rint, rmul, rzero, int_to, plus, times, zero};
use crate::lanes::{
    fma_lanes, lane_products, lanes_sum, lanes_total, quad, zero_lanes,
};
use crate::sums::{dot_i8, filled, isum, lemma_isum_eq};

verus! {

/// A block of thirty-two signed codes.
pub trait Codes32: Copy {
    /// What value `e` is a multiple of the scale by.
    spec fn code_of(self, e: int) -> int;

    /// The thirty-two codes, in value order.
    fn codes(&self) -> (r: [i8; 32])
        ensures
            forall|e: int| 0 <= e < 32 ==> #[trigger] r@[e] == self.code_of(e),
    ;
}

/// A block of thirty-two codes with the factor they are all multiplied by.
pub trait Scaled<R: Real>: Codes32 {
    spec fn scale_of(self) -> R;

    fn scale(&self) -> (r: R)
        requires
            lawful::<R>(),
        ensures
            r == self.scale_of(),
    ;
}

/// The shorter of two lengths: a product runs over the blocks both sides have.
pub open spec fn shared(a: nat, b: nat) -> nat {
    if a <= b {
        a
    } else {
        b
    }
}

/// The four products lane `l` gathers from one pair of blocks.
pub open spec fn lane4<X: Codes32, Y: Codes32>(x: X, y: Y, l: int) -> int {
    isum(4, |t: int| x.code_of(4 * l + t) * y.code_of(4 * l + t))
}

/// All thirty-two products of one pair of blocks.
pub open spec fn block_dot<X: Codes32, Y: Codes32>(x: X, y: Y) -> int {
    isum(32, |e: int| x.code_of(e) * y.code_of(e))
}

/// Lane `l` after the first `n` blocks.
pub open spec fn chain<R: Real, X: Scaled<R>, Y: Scaled<R>>(
    xs: Seq<X>,
    ys: Seq<Y>,
    n: nat,
    l: int,
) -> R
    decreases n,
{
    if n == 0 {
        rzero::<R>()
    } else {
        rfma(
            rmul(xs[n - 1].scale_of(), ys[n - 1].scale_of()),
            rint(lane4(xs[n - 1], ys[n - 1], l) as i32),
            chain(xs, ys, (n - 1) as nat, l),
        )
    }
}

/// The dot product of the first `n` blocks: eight chains, folded.
pub open spec fn lane_dot<R: Real, X: Scaled<R>, Y: Scaled<R>>(
    xs: Seq<X>,
    ys: Seq<Y>,
    n: nat,
) -> R {
    lanes_total(Seq::new(8, |l: int| chain::<R, X, Y>(xs, ys, n, l)))
}

/// The same product summed block by block: `((0 + t(0)) + t(1)) + ...`, each term the integer
/// sum times one scale and then the other.
pub open spec fn plain_dot<R: Real, X: Scaled<R>, Y: Scaled<R>>(
    xs: Seq<X>,
    ys: Seq<Y>,
    n: nat,
) -> R
    decreases n,
{
    if n == 0 {
        rzero::<R>()
    } else {
        radd(
            plain_dot::<R, X, Y>(xs, ys, (n - 1) as nat),
            rmul(
                rmul(
                    rint(block_dot(xs[n - 1], ys[n - 1]) as i32),
                    xs[n - 1].scale_of(),
                ),
                ys[n - 1].scale_of(),
            ),
        )
    }
}

/// The lanes of a decoded pair are the lanes of the blocks.
proof fn lemma_quad<X: Codes32, Y: Codes32>(x: X, y: Y, cx: Seq<i8>, cy: Seq<i8>, l: int)
    requires
        forall|e: int| 0 <= e < 32 ==> #[trigger] cx[e] == x.code_of(e),
        forall|e: int| 0 <= e < 32 ==> #[trigger] cy[e] == y.code_of(e),
        0 <= l < 8,
    ensures
        quad(cx, cy, l) == lane4(x, y, l),
{
    lemma_isum_eq(
        4,
        |t: int| cx[4 * l + t] * cy[4 * l + t],
        |t: int| x.code_of(4 * l + t) * y.code_of(4 * l + t),
    );
}

/// One block added into the eight lanes.
fn add_block<R: Real, X: Scaled<R>, Y: Scaled<R>>(
    Ghost(xs): Ghost<Seq<X>>,
    Ghost(ys): Ghost<Seq<Y>>,
    Ghost(n): Ghost<nat>,
    codes: &[i8; 32],
    dx: R,
    y: &Y,
    acc: &mut [R; 8],
)
    requires
        lawful::<R>(),
        n < xs.len(),
        n < ys.len(),
        *y == ys[n as int],
        dx == xs[n as int].scale_of(),
        forall|e: int| 0 <= e < 32 ==> #[trigger] codes@[e] == xs[n as int].code_of(e),
        forall|l: int| 0 <= l < 8 ==> #[trigger] old(acc)@[l] == chain::<R, X, Y>(xs, ys, n, l),
    ensures
        forall|l: int|
            0 <= l < 8 ==> #[trigger] final(acc)@[l] == chain::<R, X, Y>(xs, ys, n + 1, l),
{
    let cy = y.codes();
    let ints = lane_products(codes, &cy);
    fma_lanes(times(dx, y.scale()), &ints, acc);
    proof {
        assert forall|l: int| 0 <= l < 8 implies #[trigger] acc@[l] == chain::<R, X, Y>(
            xs,
            ys,
            n + 1,
            l,
        ) by {
            lemma_quad(xs[n as int], ys[n as int], codes@, cy@, l);
            assert(ints@[l] == quad(codes@, cy@, l));
        }
    }
}

/// Dot product of two runs of blocks in eight lanes.
pub fn vec_dot<R: Real, X: Scaled<R>, Y: Scaled<R>>(xs: &[X], ys: &[Y]) -> (r: R)
    requires
        lawful::<R>(),
    ensures
        r == lane_dot::<R, X, Y>(xs@, ys@, shared(xs@.len(), ys@.len())),
{
    let n: usize = if xs.len() <= ys.len() { xs.len() } else { ys.len() };
    let mut acc = zero_lanes::<R>();
    for b in 0..n
        invariant
            lawful::<R>(),
            n == shared(xs@.len(), ys@.len()),
            forall|l: int|
                0 <= l < 8 ==> #[trigger] acc@[l] == chain::<R, X, Y>(xs@, ys@, b as nat, l),
    {
        let codes = xs[b].codes();
        let dx = xs[b].scale();
        add_block::<R, X, Y>(Ghost(xs@), Ghost(ys@), Ghost(b as nat), &codes, dx, &ys[b], &mut acc);
    }
    assert(acc@ =~= Seq::new(8, |l: int| chain::<R, X, Y>(xs@, ys@, n as nat, l)));
    lanes_sum(&acc)
}

/// The integer product of one pair of blocks.
pub fn block_product<X: Codes32, Y: Codes32>(x: &X, y: &Y) -> (r: i32)
    ensures
        r == block_dot(*x, *y),
{
    let cx = x.codes();
    let cy = y.codes();
    let r = dot_i8(&cx, &cy, 32);
    proof {
        lemma_isum_eq(
            32,
            |i: int| cx@[i] * cy@[i],
            |e: int| x.code_of(e) * y.code_of(e),
        );
    }
    r
}

/// The plain product: one term per block.
pub fn dot_blocks<R: Real, X: Scaled<R>, Y: Scaled<R>>(xs: &[X], ys: &[Y]) -> (r: R)
    requires
        lawful::<R>(),
    ensures
        r == plain_dot::<R, X, Y>(xs@, ys@, shared(xs@.len(), ys@.len())),
{
    let n: usize = if xs.len() <= ys.len() { xs.len() } else { ys.len() };
    let mut acc = zero::<R>();
    for b in 0..n
        invariant
            lawful::<R>(),
            n == shared(xs@.len(), ys@.len()),
            acc == plain_dot::<R, X, Y>(xs@, ys@, b as nat),
    {
        let dot = block_product(&xs[b], &ys[b]);
        acc = plus(acc, times(times(int_to(dot), xs[b].scale()), ys[b].scale()));
    }
    acc
}

/// What value `e` of a block reconstructs to: its code times the scale.
pub open spec fn scaled_value<R: Real, B: Scaled<R>>(b: B, e: int) -> R {
    rmul(rint(b.code_of(e) as i32), b.scale_of())
}

/// Write the thirty-two values of a block at `at`.
pub fn write_scaled<R: Real, B: Scaled<R>>(b: &B, ys: &mut [R], at: usize)
    requires
        lawful::<R>(),
        at + 32 <= old(ys)@.len(),
    ensures
        final(ys)@.len() == old(ys)@.len(),
        forall|i: int|
            0 <= i < final(ys)@.len() ==> #[trigger] final(ys)@[i] == (if at <= i < at + 32 {
                scaled_value(*b, i - at)
            } else {
                old(ys)@[i]
            }),
{
    let ghost start = ys@;
    let total: usize = ys.len();
    let d = b.scale();
    let codes = b.codes();
    for e in 0..32usize
        invariant
            lawful::<R>(),
            d == b.scale_of(),
            forall|i: int| 0 <= i < 32 ==> #[trigger] codes@[i] == b.code_of(i),
            total == ys@.len(),
            start.len() == total,
            at + 32 <= total,
            forall|i: int|
                0 <= i < total ==> #[trigger] ys@[i] == (if at <= i < at + e {
                    scaled_value(*b, i - at)
                } else {
                    start[i]
                }),
    {
        ys[at + e] = times(int_to(codes[e] as i32), d);
    }
}

// -- eight columns at a time --

/// Where block `l` of row `j` of group `g` lies once rows are grouped by eight.
pub open spec fn slot(nb: int, g: int, l: int, j: int) -> int {
    (g * nb + l) * 8 + j
}

/// Where block `l` of row `r` lies in a row-major matrix.
pub open spec fn cell(nb: int, r: int, l: int) -> int {
    r * nb + l
}

/// The `nb` blocks of row or group `r`.
pub open spec fn blocks_of<T>(b: Seq<T>, r: int, nb: int) -> Seq<T> {
    Seq::new(nb as nat, |l: int| b[cell(nb, r, l)])
}

/// The rows of a row-major `[n, nb]` matrix grouped by eight, block-major within a group.
pub open spec fn grouped<T>(rhs: Seq<T>, out: Seq<T>, n: int, nb: int) -> bool {
    &&& out.len() == n * nb
    &&& forall|g: int, l: int, j: int|
        0 <= g < n / 8 && 0 <= l < nb && 0 <= j < 8 ==> out[#[trigger] slot(nb, g, l, j)]
            == rhs[cell(nb, g * 8 + j, l)]
}

/// Column `j` of one group: its blocks in order.
pub open spec fn column<T>(b: Seq<T>, nb: int, j: int) -> Seq<T> {
    Seq::new(nb as nat, |l: int| b[slot(nb, 0, l, j)])
}

/// Transpose `[n, nb]` row-major blocks into `[n/8][nb][8]`: group, block, row.
pub fn group_rows<T: Copy>(rhs: &[T], n: usize, nb: usize) -> (out: Vec<T>)
    requires
        n % 8 == 0,
        rhs@.len() == n * nb,
    ensures
        grouped(rhs@, out@, n as int, nb as int),
{
    let total: usize = rhs.len();
    let groups: usize = n / 8;
    let mut out: Vec<T> = Vec::with_capacity(total);
    assert(slot(nb as int, 0, 0, 0) == 0) by (nonlinear_arith);
    for g in 0..groups
        invariant
            groups == n / 8,
            n % 8 == 0,
            rhs@.len() == total,
            total == n * nb,
            out@.len() == slot(nb as int, g as int, 0, 0),
            forall|gg: int, ll: int, jj: int|
                0 <= gg < g && 0 <= ll < nb && 0 <= jj < 8 ==> out@[#[trigger] slot(
                    nb as int,
                    gg,
                    ll,
                    jj,
                )] == rhs@[cell(nb as int, gg * 8 + jj, ll)],
    {
        for l in 0..nb
            invariant
                groups == n / 8,
                n % 8 == 0,
                0 <= g < groups,
                rhs@.len() == total,
                total == n * nb,
                out@.len() == slot(nb as int, g as int, l as int, 0),
                forall|gg: int, ll: int, jj: int|
                    0 <= gg <= g && 0 <= ll < nb && (gg == g ==> ll < l) && 0 <= jj < 8
                        ==> out@[#[trigger] slot(nb as int, gg, ll, jj)] == rhs@[cell(
                        nb as int,
                        gg * 8 + jj,
                        ll,
                    )],
        {
            for j in 0..8usize
                invariant
                    groups == n / 8,
                    n % 8 == 0,
                    0 <= g < groups,
                    0 <= l < nb,
                    rhs@.len() == total,
                    total == n * nb,
                    out@.len() == slot(nb as int, g as int, l as int, j as int),
                    forall|gg: int, ll: int, jj: int|
                        0 <= gg <= g && 0 <= ll < nb && (gg == g ==> ll <= l) && 0 <= jj < 8 && (gg
                            == g && ll == l ==> jj < j) ==> out@[#[trigger] slot(
                            nb as int,
                            gg,
                            ll,
                            jj,
                        )] == rhs@[cell(nb as int, gg * 8 + jj, ll)],
            {
                assert(0 <= (g * 8 + j) * nb + l < n * nb) by (nonlinear_arith)
                    requires
                        0 <= g,
                        0 <= j < 8,
                        g < n / 8,
                        0 <= l < nb,
                        n % 8 == 0,
                        0 <= n,
                ;
                assert(0 <= (g * 8 + j) * nb <= (g * 8 + j) * nb + l) by (nonlinear_arith)
                    requires
                        0 <= g,
                        0 <= j,
                        0 <= nb,
                        0 <= l,
                ;
                out.push(rhs[(g * 8 + j) * nb + l]);
                proof {
                    assert forall|gg: int, ll: int, jj: int|
                        0 <= gg <= g && 0 <= ll < nb && (gg == g ==> ll <= l) && 0 <= jj < 8 && (gg
                            == g && ll == l ==> jj < j + 1) implies out@[#[trigger] slot(
                        nb as int,
                        gg,
                        ll,
                        jj,
                    )] == rhs@[cell(nb as int, gg * 8 + jj, ll)] by {
                        if gg == g && ll == l && jj == j {
                        } else {
                            lemma_slot_before(
                                nb as int,
                                gg,
                                ll,
                                jj,
                                g as int,
                                l as int,
                                j as int,
                            );
                        }
                    }
                }
            }
            assert(slot(nb as int, g as int, l as int, 8) == slot(
                nb as int,
                g as int,
                l as int + 1,
                0,
            ));
        }
        assert(slot(nb as int, g as int, nb as int, 0) == slot(nb as int, g as int + 1, 0, 0))
            by (nonlinear_arith);
    }
    assert(slot(nb as int, groups as int, 0, 0) == n * nb) by (nonlinear_arith)
        requires
            groups == n / 8,
            n % 8 == 0,
    ;
    out
}

/// Slots are ordered by group, then block, then row.
proof fn lemma_slot_before(nb: int, g: int, l: int, j: int, gg: int, ll: int, jj: int)
    requires
        0 <= l < nb,
        0 <= ll < nb,
        0 <= j < 8,
        0 <= jj < 8,
        0 <= g <= gg,
        g < gg || l < ll || (l == ll && j < jj),
    ensures
        0 <= slot(nb, g, l, j) < slot(nb, gg, ll, jj),
{
    if g < gg {
        assert(g * nb + nb <= gg * nb) by (nonlinear_arith)
            requires
                g + 1 <= gg,
                0 <= nb,
        ;
    }
    assert(0 <= g * nb) by (nonlinear_arith)
        requires
            0 <= g,
            0 <= nb,
    ;
}

/// Grouping moves blocks and changes none: column `j` of group `g` is row `g * 8 + j`.
pub proof fn grouped_columns_are_rows<T>(
    rhs: Seq<T>,
    out: Seq<T>,
    n: int,
    nb: int,
    g: int,
    j: int,
)
    requires
        n % 8 == 0,
        0 <= nb,
        rhs.len() == n * nb,
        grouped(rhs, out, n, nb),
        0 <= g < n / 8,
        0 <= j < 8,
    ensures
        column(out.subrange(g * nb * 8, (g + 1) * nb * 8), nb, j) == rhs.subrange(
            (g * 8 + j) * nb,
            (g * 8 + j) * nb + nb,
        ),
{
    let group = out.subrange(g * nb * 8, (g + 1) * nb * 8);
    assert(0 <= g * nb * 8 && (g + 1) * nb * 8 <= n * nb && g * nb * 8 + nb * 8 == (g + 1) * nb * 8)
        by (nonlinear_arith)
        requires
            0 <= g,
            g + 1 <= n / 8,
            n % 8 == 0,
            0 <= nb,
    ;
    assert(0 <= (g * 8 + j) * nb && (g * 8 + j) * nb + nb <= n * nb) by (nonlinear_arith)
        requires
            0 <= g,
            g + 1 <= n / 8,
            n % 8 == 0,
            0 <= nb,
            0 <= j < 8,
    ;
    assert forall|l: int| 0 <= l < nb implies #[trigger] column(group, nb, j)[l] == rhs[cell(
        nb,
        g * 8 + j,
        l,
    )] by {
        assert(slot(nb, 0, l, j) + g * nb * 8 == slot(nb, g, l, j)) by (nonlinear_arith);
        assert(0 <= slot(nb, 0, l, j) < nb * 8) by (nonlinear_arith)
            requires
                0 <= l < nb,
                0 <= j < 8,
        ;
        assert(out[slot(nb, g, l, j)] == rhs[cell(nb, g * 8 + j, l)]);
    }
    assert(column(group, nb, j) =~= rhs.subrange((g * 8 + j) * nb, (g * 8 + j) * nb + nb));
}

/// The tiled product of column `j` of group `g` is the product row `g * 8 + j` has on its own.
pub proof fn grouped_dot_is_row_dot<R: Real, X: Scaled<R>, Y: Scaled<R>>(
    rhs: Seq<X>,
    out: Seq<X>,
    a: Seq<Y>,
    n: int,
    nb: int,
    g: int,
    j: int,
)
    requires
        n % 8 == 0,
        0 <= nb,
        rhs.len() == n * nb,
        grouped(rhs, out, n, nb),
        0 <= g < n / 8,
        0 <= j < 8,
    ensures
        lane_dot::<R, X, Y>(
            column(out.subrange(g * nb * 8, (g + 1) * nb * 8), nb, j),
            a,
            nb as nat,
        ) == lane_dot::<R, X, Y>(
            rhs.subrange((g * 8 + j) * nb, (g * 8 + j) * nb + nb),
            a,
            nb as nat,
        ),
        plain_dot::<R, X, Y>(
            column(out.subrange(g * nb * 8, (g + 1) * nb * 8), nb, j),
            a,
            nb as nat,
        ) == plain_dot::<R, X, Y>(
            rhs.subrange((g * 8 + j) * nb, (g * 8 + j) * nb + nb),
            a,
            nb as nat,
        ),
{
    grouped_columns_are_rows(rhs, out, n, nb, g, j);
}

/// One group against one activation row, plainly: eight sums, one term per block.
pub fn group_gemv_scalar<R: Real, X: Scaled<R>, Y: Scaled<R>>(
    b: &[X],
    a: &[Y],
    nb: usize,
    out: &mut [R],
)
    requires
        lawful::<R>(),
        nb * 8 <= b@.len(),
        nb <= a@.len(),
        8 <= old(out)@.len(),
    ensures
        final(out)@.len() == old(out)@.len(),
        forall|j: int|
            0 <= j < 8 ==> #[trigger] final(out)@[j] == plain_dot::<R, X, Y>(
                column(b@, nb as int, j),
                a@,
                nb as nat,
            ),
        forall|i: int| 8 <= i < final(out)@.len() ==> #[trigger] final(out)@[i] == old(out)@[i],
{
    let ghost start = out@;
    let size: usize = b.len();
    for j in 0..8usize
        invariant
            lawful::<R>(),
            size == b@.len(),
            nb * 8 <= size,
            nb <= a@.len(),
            8 <= out@.len(),
            out@.len() == start.len(),
            forall|k: int|
                0 <= k < j ==> #[trigger] out@[k] == plain_dot::<R, X, Y>(
                    column(b@, nb as int, k),
                    a@,
                    nb as nat,
                ),
            forall|i: int| 8 <= i < out@.len() ==> #[trigger] out@[i] == start[i],
    {
        let ghost col = column(b@, nb as int, j as int);
        let mut acc = zero::<R>();
        for l in 0..nb
            invariant
                lawful::<R>(),
                size == b@.len(),
                nb * 8 <= size,
                nb <= a@.len(),
                0 <= j < 8,
                col == column(b@, nb as int, j as int),
                acc == plain_dot::<R, X, Y>(col, a@, l as nat),
        {
            let blk = b[l * 8 + j];
            assert(blk == col[l as int]);
            let dot = block_product(&blk, &a[l]);
            acc = plus(acc, times(times(int_to(dot), blk.scale()), a[l].scale()));
        }
        out[j] = acc;
    }
}

/// One group against one activation row, in lanes.
pub fn group_gemv<R: Real, X: Scaled<R>, Y: Scaled<R>>(
    b: &[X],
    a: &[Y],
    nb: usize,
    out: &mut [R],
)
    requires
        lawful::<R>(),
        nb * 8 <= b@.len(),
        nb <= a@.len(),
        8 <= old(out)@.len(),
    ensures
        final(out)@.len() == old(out)@.len(),
        forall|j: int|
            0 <= j < 8 ==> #[trigger] final(out)@[j] == lane_dot::<R, X, Y>(
                column(b@, nb as int, j),
                a@,
                nb as nat,
            ),
        forall|i: int| 8 <= i < final(out)@.len() ==> #[trigger] final(out)@[i] == old(out)@[i],
{
    let acts: [&[Y]; 1] = [a];
    group_gemm::<R, X, Y>(b, &acts, nb, out);
    assert(acts@[0] == a);
    assert forall|j: int| 0 <= j < 8 implies #[trigger] out@[j] == lane_dot::<R, X, Y>(
        column(b@, nb as int, j),
        a@,
        nb as nat,
    ) by {
        assert(out@[tile(0, j)] == lane_dot::<R, X, Y>(column(b@, nb as int, j), acts@[0]@, nb as nat));
    }
}

/// Where row `r`, column `j` of a tile of eight columns is written.
pub open spec fn tile(r: int, j: int) -> int {
    r * 8 + j
}

/// One group against a tile of activation rows: each column's blocks are decoded once and meet
/// every row of the tile before the next column is touched.
pub fn group_gemm<R: Real, X: Scaled<R>, Y: Scaled<R>>(
    b: &[X],
    acts: &[&[Y]],
    nb: usize,
    out: &mut [R],
)
    requires
        lawful::<R>(),
        nb * 8 <= b@.len(),
        forall|r: int| 0 <= r < acts@.len() ==> nb <= #[trigger] acts@[r]@.len(),
        acts@.len() * 8 <= old(out)@.len(),
    ensures
        final(out)@.len() == old(out)@.len(),
        forall|r: int, j: int|
            0 <= r < acts@.len() && 0 <= j < 8 ==> final(out)@[#[trigger] tile(r, j)] == lane_dot::<
                R,
                X,
                Y,
            >(column(b@, nb as int, j), acts@[r]@, nb as nat),
        forall|i: int|
            acts@.len() * 8 <= i < final(out)@.len() ==> #[trigger] final(out)@[i] == old(out)@[i],
{
    let ghost start = out@;
    let mt: usize = acts.len();
    let size: usize = b.len();
    let room: usize = out.len();
    for j in 0..8usize
        invariant
            lawful::<R>(),
            mt == acts@.len(),
            size == b@.len(),
            nb * 8 <= size,
            forall|r: int| 0 <= r < mt ==> nb <= #[trigger] acts@[r]@.len(),
            room == out@.len(),
            mt * 8 <= room,
            out@.len() == start.len(),
            forall|r: int, k: int|
                0 <= r < mt && 0 <= k < j ==> out@[#[trigger] tile(r, k)] == lane_dot::<R, X, Y>(
                    column(b@, nb as int, k),
                    acts@[r]@,
                    nb as nat,
                ),
            forall|i: int| mt * 8 <= i < out@.len() ==> #[trigger] out@[i] == start[i],
    {
        let ghost col = column(b@, nb as int, j as int);
        let mut accs: Vec<[R; 8]> = filled(zero_lanes::<R>(), mt);
        for l in 0..nb
            invariant
                lawful::<R>(),
                mt == acts@.len(),
                accs@.len() == mt,
                size == b@.len(),
                nb * 8 <= size,
                forall|r: int| 0 <= r < mt ==> nb <= #[trigger] acts@[r]@.len(),
                0 <= j < 8,
                col == column(b@, nb as int, j as int),
                forall|r: int, k: int|
                    0 <= r < mt && 0 <= k < 8 ==> #[trigger] accs@[r]@[k] == chain::<R, X, Y>(
                        col,
                        acts@[r]@,
                        l as nat,
                        k,
                    ),
        {
            let blk = b[l * 8 + j];
            assert(blk == col[l as int]);
            let codes = blk.codes();
            let dx = blk.scale();
            for r in 0..mt
                invariant
                    lawful::<R>(),
                    mt == acts@.len(),
                    accs@.len() == mt,
                    0 <= l < nb,
                    forall|q: int| 0 <= q < mt ==> nb <= #[trigger] acts@[q]@.len(),
                    col.len() == nb,
                    dx == col[l as int].scale_of(),
                    forall|e: int| 0 <= e < 32 ==> #[trigger] codes@[e] == col[l as int].code_of(e),
                    forall|q: int, k: int|
                        0 <= q < mt && 0 <= k < 8 ==> #[trigger] accs@[q]@[k] == chain::<R, X, Y>(
                            col,
                            acts@[q]@,
                            (if q < r {
                                l + 1
                            } else {
                                l as int
                            }) as nat,
                            k,
                        ),
            {
                let mut acc = accs[r];
                add_block::<R, X, Y>(
                    Ghost(col),
                    Ghost(acts@[r as int]@),
                    Ghost(l as nat),
                    &codes,
                    dx,
                    &acts[r][l],
                    &mut acc,
                );
                accs[r] = acc;
            }
        }
        for r in 0..mt
            invariant
                lawful::<R>(),
                mt == acts@.len(),
                accs@.len() == mt,
                0 <= j < 8,
                col == column(b@, nb as int, j as int),
                room == out@.len(),
                mt * 8 <= room,
                out@.len() == start.len(),
                forall|q: int, k: int|
                    0 <= q < mt && 0 <= k < 8 ==> #[trigger] accs@[q]@[k] == chain::<R, X, Y>(
                        col,
                        acts@[q]@,
                        nb as nat,
                        k,
                    ),
                forall|q: int, k: int|
                    0 <= q < mt && (0 <= k < j || (k == j && q < r)) ==> out@[#[trigger] tile(q, k)]
                        == lane_dot::<R, X, Y>(column(b@, nb as int, k), acts@[q]@, nb as nat),
                forall|i: int| mt * 8 <= i < out@.len() ==> #[trigger] out@[i] == start[i],
        {
            let acc = accs[r];
            assert(acc@ =~= Seq::new(
                8,
                |k: int| chain::<R, X, Y>(col, acts@[r as int]@, nb as nat, k),
            )) by {
                assert forall|k: int| 0 <= k < 8 implies #[trigger] acc@[k] == chain::<R, X, Y>(
                    col,
                    acts@[r as int]@,
                    nb as nat,
                    k,
                ) by {
                    assert(accs@[r as int]@[k] == acc@[k]);
                }
            }
            let v = lanes_sum(&acc);
            assert(tile(r as int, j as int) == r * 8 + j);
            out[r * 8 + j] = v;
        }
    }
}

} // verus!
