//! Where results go: row-major outputs, tiles of them, and the chunks they are handed out in.
use vstd::prelude::*;
use crate::coded::cell;

verus! {

/// A cell of an `[m, n]` output lies inside it.
pub proof fn lemma_cell_inside(m: int, n: int, r: int, c: int)
    requires
        0 <= r < m,
        0 <= c < n,
    ensures
        0 <= cell(n, r, c) < m * n,
{
    assert(0 <= r * n + c < m * n) by (nonlinear_arith)
        requires
            0 <= r,
            r + 1 <= m,
            0 <= c < n,
    ;
}

/// A cell has one row and one column.
pub proof fn lemma_cell_unique(n: int, r: int, c: int, s: int, d: int)
    requires
        0 <= c < n,
        0 <= d < n,
        cell(n, r, c) == cell(n, s, d),
    ensures
        r == s,
        c == d,
{
    vstd::arithmetic::div_mod::lemma_fundamental_div_mod_converse(r * n + c, n, r, c);
    vstd::arithmetic::div_mod::lemma_fundamental_div_mod_converse(s * n + d, n, s, d);
}

/// Copy the rows of a tile, eight columns wide, to `[r0 .. r0 + rows, c0 .. c0 + 8]`.
pub fn store_tile<T: Copy>(
    local: &[T],
    r0: usize,
    rows: usize,
    c0: usize,
    n: usize,
    dst: &mut [T],
)
    requires
        rows * 8 <= local@.len(),
        c0 + 8 <= n,
        (r0 + rows) * n <= old(dst)@.len(),
    ensures
        final(dst)@.len() == old(dst)@.len(),
        forall|r: int, c: int|
            0 <= r && 0 <= c < n && cell(n as int, r, c) < final(dst)@.len() ==> final(dst)@[#[trigger] cell(n as int, r, c)] == (if r0 <= r < r0 + rows && c0 <= c < c0 + 8 {
                local@[(r - r0) * 8 + (c - c0)]
            } else {
                old(dst)@[cell(n as int, r, c)]
            }),
{
    let ghost start = dst@;
    let room: usize = dst.len();
    let size: usize = local.len();
    for t in 0..rows
        invariant
            size == local@.len(),
            rows * 8 <= size,
            c0 + 8 <= n,
            (r0 + rows) * n <= room,
            room == dst@.len(),
            room == start.len(),
            forall|r: int, c: int|
                0 <= r && 0 <= c < n && cell(n as int, r, c) < room ==> dst@[#[trigger] cell(
                    n as int,
                    r,
                    c,
                )] == (if r0 <= r < r0 + t && c0 <= c < c0 + 8 {
                    local@[(r - r0) * 8 + (c - c0)]
                } else {
                    start[cell(n as int, r, c)]
                }),
    {
        assert((r0 + t) * n + n <= (r0 + rows) * n && 0 <= (r0 + t) * n && r0 + rows <= (r0 + rows)
            * n) by (nonlinear_arith)
            requires
                t + 1 <= rows,
                0 <= r0,
                0 <= t,
                1 <= n,
        ;
        let base: usize = (r0 + t) * n + c0;
        for j in 0..8usize
            invariant
                size == local@.len(),
                t < rows,
                rows * 8 <= size,
                c0 + 8 <= n,
                base == (r0 + t) * n + c0,
                base + 8 <= room,
                room == dst@.len(),
                room == start.len(),
                forall|r: int, c: int|
                    0 <= r && 0 <= c < n && cell(n as int, r, c) < room ==> dst@[#[trigger] cell(
                        n as int,
                        r,
                        c,
                    )] == (if (r0 <= r < r0 + t && c0 <= c < c0 + 8) || (r == r0 + t && c0 <= c < c0
                        + j) {
                        local@[(r - r0) * 8 + (c - c0)]
                    } else {
                        start[cell(n as int, r, c)]
                    }),
        {
            let ghost before = dst@;
            dst[base + j] = local[t * 8 + j];
            assert forall|r: int, c: int|
                0 <= r && 0 <= c < n && cell(n as int, r, c) < room implies dst@[#[trigger] cell(
                n as int,
                r,
                c,
            )] == (if (r0 <= r < r0 + t && c0 <= c < c0 + 8) || (r == r0 + t && c0 <= c < c0 + j
                + 1) {
                local@[(r - r0) * 8 + (c - c0)]
            } else {
                start[cell(n as int, r, c)]
            }) by {
                assert(0 <= r * n) by (nonlinear_arith)
                    requires
                        0 <= r,
                        0 <= n,
                ;
                if cell(n as int, r, c) == base + j {
                    lemma_cell_unique(n as int, r, c, r0 + t, c0 + j);
                } else {
                    assert(dst@[cell(n as int, r, c)] == before[cell(n as int, r, c)]);
                    assert(!(r == r0 + t && c == c0 + j));
                }
            }
        }
    }
}

// -- chunks --

/// `ceil(a / b)`.
pub open spec fn ceil_div(a: int, b: int) -> int {
    if a % b == 0 {
        a / b
    } else {
        a / b + 1
    }
}

/// `ceil(a / b)`.
pub fn div_ceil(a: usize, b: usize) -> (r: usize)
    requires
        0 < b,
    ensures
        r == ceil_div(a as int, b as int),
        a <= r * b,
        r <= a,
        0 < a ==> (r - 1) * b < a,
{
    let q: usize = a / b;
    proof {
        vstd::arithmetic::div_mod::lemma_fundamental_div_mod(a as int, b as int);
        assert(b * q == q * b) by (nonlinear_arith);
        assert((q + 1) * b == q * b + b) by (nonlinear_arith);
        assert(q <= q * b) by (nonlinear_arith)
            requires
                1 <= b,
                0 <= q,
        ;
        assert((q - 1) * b == q * b - b) by (nonlinear_arith);
    }
    if a % b == 0 {
        q
    } else {
        q + 1
    }
}

/// The columns chunk `c` covers.
pub open spec fn chunk_covers(chunk: int, n: int, c: int, i: int) -> bool {
    c * chunk <= i && i < c * chunk + chunk && i < n
}

/// The first column of chunk `c` and the column after its last.
pub fn chunk_bounds(chunk: usize, n: usize, c: usize) -> (r: (usize, usize))
    requires
        0 < chunk,
        c < ceil_div(n as int, chunk as int),
    ensures
        r.0 == c * chunk,
        r.0 <= r.1 <= n,
        r.1 == (if c * chunk + chunk <= n {
            c * chunk + chunk
        } else {
            n as int
        }),
        forall|i: int| r.0 <= i < r.1 <==> #[trigger] chunk_covers(chunk as int, n as int, c as int, i),
{
    let chunks: usize = div_ceil(n, chunk);
    assert(c * chunk <= (chunks - 1) * chunk) by (nonlinear_arith)
        requires
            c <= chunks - 1,
            0 < chunk,
    ;
    let lo: usize = c * chunk;
    let hi: usize = if chunk <= n - lo {
        lo + chunk
    } else {
        n
    };
    (lo, hi)
}

/// Every index lies in one chunk and in no other, so chunks run in any order, by any worker,
/// write each result once.
pub proof fn chunks_partition(chunk: int, n: int, i: int)
    requires
        0 < chunk,
        0 <= i < n,
    ensures
        0 <= i / chunk < ceil_div(n, chunk),
        forall|c: int| #[trigger] chunk_covers(chunk, n, c, i) <==> c == i / chunk,
{
    vstd::arithmetic::div_mod::lemma_fundamental_div_mod(i, chunk);
    vstd::arithmetic::div_mod::lemma_mod_bound(i, chunk);
    vstd::arithmetic::div_mod::lemma_fundamental_div_mod(n, chunk);
    vstd::arithmetic::div_mod::lemma_mod_bound(n, chunk);
    vstd::arithmetic::div_mod::lemma_div_pos_is_pos(i, chunk);
    let q = i / chunk;
    assert(chunk * q == q * chunk) by (nonlinear_arith);
    assert forall|c: int| #[trigger] chunk_covers(chunk, n, c, i) <==> c == q by {
        if c < q {
            assert(c * chunk + chunk <= q * chunk) by (nonlinear_arith)
                requires
                    c + 1 <= q,
                    0 < chunk,
            ;
        } else if c > q {
            assert(q * chunk + chunk <= c * chunk) by (nonlinear_arith)
                requires
                    q + 1 <= c,
                    0 < chunk,
            ;
        }
    }
    let k = n / chunk;
    assert(chunk * k == k * chunk) by (nonlinear_arith);
    if q > k {
        assert(k * chunk + chunk <= q * chunk) by (nonlinear_arith)
            requires
                k + 1 <= q,
                0 < chunk,
        ;
    }
    if n % chunk == 0 && q == k {
        assert(false);
    }
}

/// The start of share `t` of `nth` even shares of `k` blocks.
pub open spec fn share_start(k: int, nth: int, t: int) -> int {
    (t * k) / nth
}

/// Even shares follow one another: the first starts at nothing, the last ends at `k`, and each
/// starts where the one before it ends.
pub proof fn shares_are_ordered(k: int, nth: int, t: int)
    requires
        0 < nth,
        0 <= k,
        0 <= t < nth,
    ensures
        share_start(k, nth, 0) == 0,
        share_start(k, nth, nth) == k,
        0 <= share_start(k, nth, t) <= share_start(k, nth, t + 1) <= k,
{
    assert(0 * k == 0) by (nonlinear_arith);
    vstd::arithmetic::div_mod::lemma_div_basics(nth);
    assert(share_start(k, nth, nth) == k) by {
        vstd::arithmetic::div_mod::lemma_div_multiples_vanish(k, nth);
    }
    assert(0 <= t * k <= (t + 1) * k && (t + 1) * k <= nth * k) by (nonlinear_arith)
        requires
            0 <= t,
            t + 1 <= nth,
            0 <= k,
    ;
    vstd::arithmetic::div_mod::lemma_div_pos_is_pos(t * k, nth);
    vstd::arithmetic::div_mod::lemma_div_is_ordered(t * k, (t + 1) * k, nth);
    vstd::arithmetic::div_mod::lemma_div_is_ordered((t + 1) * k, nth * k, nth);
}

/// The blocks share `t` covers.
pub fn share_bounds(k: usize, nth: usize, t: usize) -> (r: (usize, usize))
    requires
        0 < nth,
        t < nth,
        nth * k <= usize::MAX,
    ensures
        r.0 == share_start(k as int, nth as int, t as int),
        r.1 == share_start(k as int, nth as int, t + 1),
        r.0 <= r.1 <= k,
{
    proof {
        shares_are_ordered(k as int, nth as int, t as int);
    }
    assert(0 <= t * k <= (t + 1) * k && (t + 1) * k <= nth * k) by (nonlinear_arith)
        requires
            0 <= t,
            t + 1 <= nth,
            0 <= k,
    ;
    ((t * k) / nth, ((t + 1) * k) / nth)
}

/// `x` held between `lo` and `hi`.
pub open spec fn held(x: int, lo: int, hi: int) -> int {
    if x < lo {
        lo
    } else if x > hi {
        hi
    } else {
        x
    }
}

/// The column count of a chunk of an `n`-column output: several chunks to a thread, between `lo`
/// and 256 columns, and no more than there are.
pub open spec fn chunk_columns(n: int, threads: int, lo: int) -> int {
    let want = held(n / (threads * 8), lo, 256);
    let most = if n == 0 {
        1
    } else {
        n
    };
    if want < most {
        want
    } else {
        most
    }
}

/// The column count of a chunk of an `n`-column output.
pub fn chunk_width(n: usize, threads: usize, lo: usize) -> (r: usize)
    requires
        0 < threads,
        threads * 8 <= usize::MAX,
        0 < lo <= 256,
    ensures
        r == chunk_columns(n as int, threads as int, lo as int),
        0 < r,
{
    let per: usize = n / (threads * 8);
    let want: usize = if per < lo {
        lo
    } else if per > 256 {
        256
    } else {
        per
    };
    let most: usize = if n == 0 {
        1
    } else {
        n
    };
    if want < most {
        want
    } else {
        most
    }
}

/// The chunk grid of an `[m, n]` output over a pool of `threads`: columns to a chunk, and chunks
/// in all.
pub fn gemv_grid(m: usize, n: usize, threads: usize) -> (r: (usize, usize))
    requires
        0 < threads,
        threads * 8 <= usize::MAX,
        ceil_div(n as int, chunk_columns(n as int, threads as int, 16)) * m <= usize::MAX,
    ensures
        r.0 == chunk_columns(n as int, threads as int, 16),
        0 < r.0,
        r.1 == ceil_div(n as int, r.0 as int) * m,
{
    let chunk_cols: usize = chunk_width(n, threads, 16);
    let per_row: usize = div_ceil(n, chunk_cols);
    (chunk_cols, per_row * m)
}

/// The row of an `n`-column output that share `chunk` lies in, its columns cut `cols` to a share.
pub open spec fn share_row(n: int, cols: int, chunk: int) -> int {
    chunk / ceil_div(n, cols)
}

/// Which run of columns of its row share `chunk` is.
pub open spec fn share_column(n: int, cols: int, chunk: int) -> int {
    chunk % ceil_div(n, cols)
}

/// The row, the first column and the column after the last of one share of an `[m, n]` output.
pub fn cell_share(m: usize, n: usize, cols: usize, chunk: usize) -> (r: (usize, usize, usize))
    requires
        0 < cols,
        chunk < ceil_div(n as int, cols as int) * m,
    ensures
        r.0 == share_row(n as int, cols as int, chunk as int),
        r.0 < m,
        r.1 == share_column(n as int, cols as int, chunk as int) * cols,
        r.1 <= r.2 <= n,
        forall|i: int|
            r.1 <= i < r.2 <==> #[trigger] chunk_covers(
                cols as int,
                n as int,
                share_column(n as int, cols as int, chunk as int),
                i,
            ),
{
    let per_row: usize = div_ceil(n, cols);
    let ghost (p, c) = (per_row as int, chunk as int);
    assert(0 < p) by (nonlinear_arith)
        requires
            0 <= p,
            0 <= c < p * m,
    ;
    proof {
        vstd::arithmetic::div_mod::lemma_fundamental_div_mod(c, p);
        vstd::arithmetic::div_mod::lemma_mod_bound(c, p);
        let q = c / p;
        assert(q < m) by (nonlinear_arith)
            requires
                p * q <= c < p * m,
                0 < p,
        ;
    }
    let (from, to) = chunk_bounds(cols, n, chunk % per_row);
    (chunk / per_row, from, to)
}

/// Every cell lies in one share of the output and in no other.
pub proof fn shares_partition(m: int, n: int, cols: int, row: int, col: int)
    requires
        0 < cols,
        0 <= row < m,
        0 <= col < n,
    ensures
        0 <= row * ceil_div(n, cols) + col / cols < ceil_div(n, cols) * m,
        forall|chunk: int|
            0 <= chunk < ceil_div(n, cols) * m ==> (share_row(n, cols, chunk) == row
                && #[trigger] chunk_covers(cols, n, share_column(n, cols, chunk), col) <==> chunk
                == row * ceil_div(n, cols) + col / cols),
{
    chunks_partition(cols, n, col);
    let (p, q) = (ceil_div(n, cols), col / cols);
    let home = row * p + q;
    assert(0 <= row * p && row * p + p <= p * m) by (nonlinear_arith)
        requires
            0 <= row < m,
            0 <= p,
    ;
    assert(p * row == row * p) by (nonlinear_arith);
    vstd::arithmetic::div_mod::lemma_fundamental_div_mod_converse(home, p, row, q);
    assert forall|chunk: int| 0 <= chunk < p * m implies (share_row(n, cols, chunk) == row
        && #[trigger] chunk_covers(cols, n, share_column(n, cols, chunk), col) <==> chunk
        == home) by {
        vstd::arithmetic::div_mod::lemma_fundamental_div_mod(chunk, p);
    }
}

} // verus!
