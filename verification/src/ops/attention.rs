//! Attention: the prefill kernels, rotary embedding, and the key and value repeat a
//! grouped-query model needs.
use vstd::prelude::*;
use crate::arith::{
    Half, Real, exp, inf, lawful, max, minus, narrow, neg, over, plus, radd, rdiv, rexp, rhalf,
    rinf, rmax, rmul, rneg, rsub, rto_half, rzero, times, widen, zero, sums_commute,
};
use crate::coded::cell;
use crate::error::Error;
use crate::exact::attention::{Reading, finite_halves};
use crate::exact::context::{
    attends, banded_row_attends, causal, causal_halves, half_attends, half_row_attends, numbers,
    place, visible,
};
use crate::float::{Kind, keep, kept_at};
use crate::grid::{ceil_div, div_ceil, lemma_cell_inside};
use crate::ops::rows::{lemma_no_rows, lemma_row_appended, rowwise};
use crate::ops::softmax::{exp_sum, exp_sum_of, top, top_of};
use crate::sums::fsum;
use crate::tensor::{Tensor, copy_run, count, elems, lemma_elems_of_short};
use crate::tiled::{span, span_of};

verus! {

// -- bands --

/// How many keys one band covers, before any limit: as many as 64 MiB of scores allow.
pub open spec fn affordable(rows: int) -> int {
    67108864int / ((if rows < 1 {
        1
    } else {
        rows
    }) * 4)
}

/// Between 256 and 8192 keys, and never more than the context.
pub open spec fn band_width(rows: int, kv_len: int) -> int {
    let b = affordable(rows);
    let held = if b < 256 {
        256
    } else if b > 8192 {
        8192
    } else {
        b
    };
    let most = if kv_len < 1 {
        1
    } else {
        kv_len
    };
    if held < most {
        held
    } else {
        most
    }
}

/// How many keys one band of a banded attention covers.
///
/// The scores of a band are `rows x band` at full width. The band is chosen to keep them near a
/// fixed size, wide enough to be worth a matmul, and never wider than the context itself.
pub fn score_band(rows: usize, kv_len: usize) -> (r: usize)
    ensures
        r == band_width(rows as int, kv_len as int),
        r >= 1,
{
    let counted: usize = if rows < 1 {
        1
    } else {
        rows
    };
    let b: usize = match counted.checked_mul(4) {
        Some(per_key) => 67108864 / per_key,
        None => 0,
    };
    proof {
        if counted * 4 > usize::MAX {
            vstd::arithmetic::div_mod::lemma_basic_div(67108864, counted * 4);
        }
    }
    let held: usize = if b < 256 {
        256
    } else if b > 8192 {
        8192
    } else {
        b
    };
    let most: usize = if kv_len < 1 {
        1
    } else {
        kv_len
    };
    if held < most {
        held
    } else {
        most
    }
}

/// What is added to the score of key `c` for the query at `last`: nothing where it may look,
/// minus infinity where it may not.
pub open spec fn mask_of<R: Real>(last: int, c: int) -> R {
    if c > last {
        rneg(rinf::<R>())
    } else {
        rzero::<R>()
    }
}

/// The mask of key `c` for query position `p`.
fn mask_value<R: Real>(past: usize, p: usize, c: usize) -> (r: R)
    requires
        lawful::<R>(),
    ensures
        r == mask_of::<R>(past + p, c as int),
{
    if c > past.saturating_add(p) {
        neg(inf::<R>())
    } else {
        zero::<R>()
    }
}

/// The rows of a band's mask.
pub open spec fn mask_rows<R: Real>(past: int, c0: int, band: int) -> spec_fn(int) -> Seq<R> {
    |p: int| Seq::new(band as nat, |j: int| mask_of::<R>(past + p, c0 + j))
}

/// The additive causal mask for one band of keys: `[seq, band]`.
pub fn causal_band_mask<R: Real>(seq: usize, past: usize, c0: usize, band: usize) -> (t: Tensor<R>)
    requires
        lawful::<R>(),
        seq * band <= usize::MAX,
        c0 + band <= usize::MAX,
    ensures
        t.wf(),
        t.dims@ == seq![seq, band],
        rowwise(
            t.data@,
            seq as int,
            band as int,
            mask_rows(past as int, c0 as int, band as int),
        ),
{
    let ghost f = mask_rows::<R>(past as int, c0 as int, band as int);
    let mut data: Vec<R> = Vec::with_capacity(seq * band);
    proof {
        lemma_no_rows(band as int, f);
    }
    for p in 0..seq
        invariant
            lawful::<R>(),
            c0 + band <= usize::MAX,
            f == mask_rows::<R>(past as int, c0 as int, band as int),
            rowwise(data@, p as int, band as int, f),
    {
        let mut row: Vec<R> = Vec::with_capacity(band);
        for j in 0..band
            invariant
                lawful::<R>(),
                c0 + band <= usize::MAX,
                f == mask_rows::<R>(past as int, c0 as int, band as int),
                row@.len() == j,
                forall|i: int| 0 <= i < j ==> #[trigger] row@[i] == f(p as int)[i],
        {
            row.push(mask_value(past, p, c0 + j));
        }
        assert(row@ =~= f(p as int));
        proof {
            lemma_row_appended(data@, row@, p as int, band as int, f);
        }
        data.append(&mut row);
    }
    let dims: Vec<usize> = vec![seq, band];
    proof {
        lemma_elems_of_short(dims@);
    }
    assert(dims@ =~= seq![seq, band]);
    Tensor { dims, data }
}

/// The rows of the whole causal mask.
pub open spec fn causal_rows<R: Real>(seq: int, masked: R) -> spec_fn(int) -> Seq<R> {
    |i: int|
        Seq::new(
            seq as nat,
            |j: int|
                if j > i {
                    masked
                } else {
                    rzero::<R>()
                },
        )
}

/// The additive causal mask, `[seq, seq]`: zero on and below the diagonal, `masked` above it.
pub fn causal_mask<R: Real>(seq: usize, masked: R) -> (t: Tensor<R>)
    requires
        lawful::<R>(),
        seq * seq <= usize::MAX,
    ensures
        t.wf(),
        t.dims@ == seq![seq, seq],
        rowwise(t.data@, seq as int, seq as int, causal_rows(seq as int, masked)),
{
    let ghost f = causal_rows(seq as int, masked);
    let mut data: Vec<R> = Vec::with_capacity(seq * seq);
    proof {
        lemma_no_rows(seq as int, f);
    }
    for i in 0..seq
        invariant
            lawful::<R>(),
            f == causal_rows(seq as int, masked),
            rowwise(data@, i as int, seq as int, f),
    {
        let mut row: Vec<R> = Vec::with_capacity(seq);
        for j in 0..seq
            invariant
                lawful::<R>(),
                f == causal_rows(seq as int, masked),
                row@.len() == j,
                forall|k: int| 0 <= k < j ==> #[trigger] row@[k] == f(i as int)[k],
        {
            if j > i {
                row.push(masked);
            } else {
                row.push(zero::<R>());
            }
        }
        assert(row@ =~= f(i as int));
        proof {
            lemma_row_appended(data@, row@, i as int, seq as int, f);
        }
        data.append(&mut row);
    }
    let dims: Vec<usize> = vec![seq, seq];
    proof {
        lemma_elems_of_short(dims@);
    }
    assert(dims@ =~= seq![seq, seq]);
    Tensor { dims, data }
}

// -- banded attention --

/// The queries, keys and values of a prefill chunk, heads sharing a key head folded together.
pub struct Chunk<'a, R> {
    pub q: &'a [R],
    pub k: &'a [R],
    pub v: &'a [R],
    /// Key heads.
    pub heads: usize,
    /// Query rows of one key head.
    pub rows: usize,
    /// Keys of one head.
    pub kv: usize,
    pub hd: usize,
    pub seq: usize,
    pub past: usize,
    /// Keys of one band.
    pub band: usize,
    /// The width a score is stored at before it is masked.
    pub kept: Kind,
}

/// What a row has accumulated: its largest score, its weights' sum, its weighted values.
pub struct Running<R> {
    pub top: R,
    pub sum: R,
    pub acc: Seq<R>,
}

/// A band's weights over the largest score so far.
pub open spec fn weights<R: Real>(row: Seq<R>, t: R) -> Seq<R> {
    Seq::new(row.len(), |j: int| rexp(rsub(row[j], t)))
}

/// Value `i` of the rows from `r0` on, mixed by `w`.
pub open spec fn mixed<R: Real>(w: Seq<R>, v: Seq<R>, hd: int, r0: int, i: int) -> R {
    fsum(w.len(), |j: int| rmul(w[j], v[cell(hd, r0 + j, i)]))
}

/// What was accumulated, with one more band of scores and its values from row `r0` on.
///
/// The maximum moves first; what was accumulated under the old one is rescaled to the new.
pub open spec fn folded<R: Real>(
    was: Option<Running<R>>,
    row: Seq<R>,
    v: Seq<R>,
    hd: int,
    r0: int,
) -> Running<R> {
    let before = match was {
        Some(x) => x.top,
        None => rneg(rinf::<R>()),
    };
    let t = rmax(top(row, row.len()), before);
    let w = weights(row, t);
    let sum = fsum(w.len(), |j: int| w[j]);
    let again = rexp(rsub(before, t));
    match was {
        Some(x) => Running {
            top: t,
            sum: radd(rmul(x.sum, again), sum),
            acc: Seq::new(
                hd as nat,
                |i: int| radd(rmul(x.acc[i], again), mixed(w, v, hd, r0, i)),
            ),
        },
        None => Running {
            top: t,
            sum,
            acc: Seq::new(hd as nat, |i: int| mixed(w, v, hd, r0, i)),
        },
    }
}

impl<'a, R: Real> Chunk<'a, R> {
    /// The parts go together.
    pub open spec fn wf(self) -> bool {
        &&& self.q@.len() == (self.heads * self.rows) * self.hd
        &&& self.k@.len() == (self.heads * self.kv) * self.hd
        &&& self.v@.len() == (self.heads * self.kv) * self.hd
        &&& 0 < self.hd
        &&& 0 < self.seq
        &&& 0 < self.band
        &&& self.rows as int % self.seq as int == 0
    }

    /// The key head of a query row.
    pub open spec fn head(self, qr: int) -> int {
        qr / self.rows as int
    }

    /// The position of a query row in the chunk.
    pub open spec fn pos(self, qr: int) -> int {
        qr % self.seq as int
    }

    /// The score of key `c` for a query row.
    pub open spec fn score(self, qr: int, c: int) -> R {
        kept_at(self.kept, self.product(qr, c))
    }

    /// The product of a query row and key `c`.
    pub open spec fn product(self, qr: int, c: int) -> R {
        fsum(
            self.hd as nat,
            |i: int|
                rmul(
                    self.q@[cell(self.hd as int, qr, i)],
                    self.k@[cell(self.hd as int, self.head(qr) * self.kv + c, i)],
                ),
        )
    }

    /// The scores of a band, masked where the band crosses the diagonal.
    pub open spec fn band_row(self, qr: int, c0: int, width: int) -> Seq<R> {
        Seq::new(
            width as nat,
            |j: int|
                if c0 + width <= self.past + 1 {
                    self.score(qr, c0 + j)
                } else {
                    radd(
                        self.score(qr, c0 + j),
                        mask_of::<R>(self.past + self.pos(qr), c0 + j),
                    )
                },
        )
    }

    /// Keys in band `n`.
    pub open spec fn width(self, n: int) -> int {
        if self.kv - n * self.band < self.band {
            self.kv - n * self.band
        } else {
            self.band as int
        }
    }

    /// How far any row of the chunk may look.
    pub open spec fn reach(self) -> int {
        if self.past + self.seq < self.kv {
            self.past + self.seq
        } else {
            self.kv as int
        }
    }

    /// How many bands hold a key that some row may see.
    pub open spec fn bands(self) -> int {
        ceil_div(self.reach(), self.band as int)
    }

    /// What a row has accumulated after `n` bands.
    pub open spec fn running(self, qr: int, n: nat) -> Option<Running<R>>
        decreases n,
    {
        if n == 0 {
            None
        } else {
            let c0 = (n - 1) * self.band;
            Some(
                folded(
                    self.running(qr, (n - 1) as nat),
                    self.band_row(qr, c0, self.width(n - 1)),
                    self.v@,
                    self.hd as int,
                    self.head(qr) * self.kv + c0,
                ),
            )
        }
    }

    /// What a row comes to: its weighted values over its weights' sum.
    pub open spec fn answer(self, qr: int) -> Seq<R> {
        let end = self.running(qr, self.bands() as nat)->0;
        Seq::new(self.hd as nat, |i: int| rdiv(end.acc[i], end.sum))
    }

    pub open spec fn answers(self) -> spec_fn(int) -> Seq<R> {
        |qr: int| self.answer(qr)
    }
}

/// A band that every row sees in full needs no mask: the mask would add nothing but zeros.
pub proof fn full_bands_need_no_mask<R: Real>(past: int, p: int, c0: int, width: int, c: int)
    requires
        0 <= p,
        c0 <= c < c0 + width,
        c0 + width <= past + 1,
    ensures
        mask_of::<R>(past + p, c) == rzero::<R>(),
{
}

/// The bands that are left out hold no key any row of the chunk may see.
pub proof fn skipped_keys_are_unseen<R: Real>(chunk: Chunk<R>, qr: int, c: int)
    requires
        chunk.wf(),
        0 <= qr,
        chunk.bands() * chunk.band <= c < chunk.kv,
    ensures
        mask_of::<R>(chunk.past + chunk.pos(qr), c) == rneg(rinf::<R>()),
{
    let (l, b) = (chunk.reach(), chunk.band as int);
    vstd::arithmetic::div_mod::lemma_fundamental_div_mod(l, b);
    vstd::arithmetic::div_mod::lemma_mod_bound(l, b);
    vstd::arithmetic::div_mod::lemma_mod_bound(qr, chunk.seq as int);
    let q = l / b;
    assert(b * q == q * b && (q + 1) * b == q * b + b) by (nonlinear_arith);
}

/// The dot product of two rows of `hd`.
fn dot_at<R: Real>(a: &[R], ra: usize, b: &[R], rb: usize, hd: usize) -> (s: R)
    requires
        lawful::<R>(),
        (ra + 1) * hd <= a@.len(),
        (rb + 1) * hd <= b@.len(),
    ensures
        s == fsum(
            hd as nat,
            |i: int| rmul(a@[cell(hd as int, ra as int, i)], b@[cell(hd as int, rb as int, i)]),
        ),
{
    let x = span_of(a, ra, hd);
    let y = span_of(b, rb, hd);
    let ghost f = |i: int|
        rmul(a@[cell(hd as int, ra as int, i)], b@[cell(hd as int, rb as int, i)]);
    let mut s = zero::<R>();
    proof {
        lemma_row_inside(a@.len() as int, ra as int, hd as int);
        lemma_row_inside(b@.len() as int, rb as int, hd as int);
    }
    for i in 0..hd
        invariant
            lawful::<R>(),
            x@ == span(a@, ra as int, hd as int),
            y@ == span(b@, rb as int, hd as int),
            x@.len() == hd,
            y@.len() == hd,
            0 <= ra * hd,
            0 <= rb * hd,
            ra * hd + hd <= a@.len(),
            rb * hd + hd <= b@.len(),
            f == |i: int|
                rmul(a@[cell(hd as int, ra as int, i)], b@[cell(hd as int, rb as int, i)]),
            s == fsum(i as nat, f),
    {
        s = plus(s, times(x[i], y[i]));
    }
    s
}

/// A row's bounds.
proof fn lemma_row_inside(len: int, r: int, w: int)
    requires
        0 <= r,
        0 <= w,
        (r + 1) * w <= len,
    ensures
        0 <= r * w,
        r * w + w <= len,
{
    assert(r * w + w == (r + 1) * w && 0 <= r * w) by (nonlinear_arith)
        requires
            0 <= r,
            0 <= w,
    ;
}

/// A head's row lies inside its tensor.
proof fn lemma_head_row(heads: int, per: int, hd: int, h: int, c: int)
    requires
        0 <= h < heads,
        0 <= c < per,
        0 <= hd,
    ensures
        0 <= h * per + c < heads * per,
        (h * per + c + 1) * hd <= (heads * per) * hd,
{
    lemma_cell_inside(heads, per, h, c);
    let r = h * per + c;
    let n = heads * per;
    assert((r + 1) * hd <= n * hd) by (nonlinear_arith)
        requires
            r + 1 <= n,
            0 <= hd,
    ;
}

/// A query row belongs to a head.
pub(crate) proof fn lemma_row_head(heads: int, rows: int, qr: int)
    requires
        0 <= qr < heads * rows,
        0 <= heads,
        0 <= rows,
    ensures
        0 < rows,
        0 <= qr / rows < heads,
{
    assert(0 < rows) by (nonlinear_arith)
        requires
            0 <= rows,
            0 < heads * rows,
    ;
    vstd::arithmetic::div_mod::lemma_fundamental_div_mod(qr, rows);
    vstd::arithmetic::div_mod::lemma_mod_bound(qr, rows);
    let h = qr / rows;
    assert(0 <= h < heads) by (nonlinear_arith)
        requires
            0 < rows,
            0 <= qr < heads * rows,
            0 <= qr - rows * h < rows,
    ;
}

impl<'a, R: Real> Chunk<'a, R> {
    /// A band's scores for a row.
    fn scores(&self, qr: usize, c0: usize, width: usize) -> (row: Vec<R>)
        requires
            lawful::<R>(),
            self.wf(),
            qr < self.heads * self.rows,
            c0 + width <= self.kv,
        ensures
            row@ == self.band_row(qr as int, c0 as int, width as int),
    {
        let size: usize = self.k.len();
        let total: usize = self.q.len();
        proof {
            lemma_row_head(self.heads as int, self.rows as int, qr as int);
            assert((qr + 1) * self.hd <= (self.heads * self.rows) * self.hd) by (nonlinear_arith)
                requires
                    qr + 1 <= self.heads * self.rows,
                    0 <= self.hd,
            ;
        }
        let head: usize = qr / self.rows;
        let p: usize = qr % self.seq;
        let full = c0 + width <= self.past.saturating_add(1);
        let ghost want = self.band_row(qr as int, c0 as int, width as int);
        let mut row: Vec<R> = Vec::with_capacity(width);
        for j in 0..width
            invariant
                lawful::<R>(),
                self.wf(),
                (qr + 1) * self.hd <= self.q@.len(),
                head == self.head(qr as int),
                head < self.heads,
                p == self.pos(qr as int),
                c0 + width <= self.kv,
                size == self.k@.len(),
                full == (c0 + width <= self.past + 1),
                want == self.band_row(qr as int, c0 as int, width as int),
                row@.len() == j,
                forall|i: int| 0 <= i < j ==> #[trigger] row@[i] == want[i],
        {
            proof {
                lemma_head_row(
                    self.heads as int,
                    self.kv as int,
                    self.hd as int,
                    head as int,
                    c0 + j,
                );
                let r = head * self.kv + (c0 + j);
                assert(r + 1 <= (r + 1) * self.hd) by (nonlinear_arith)
                    requires
                        0 <= r,
                        1 <= self.hd,
                ;
                assert(0 <= head * self.kv) by (nonlinear_arith)
                    requires
                        0 <= head,
                        0 <= self.kv,
                ;
            }
            let s = keep(
                self.kept,
                dot_at(self.q, qr, self.k, head * self.kv + (c0 + j), self.hd),
            );
            assert(s == self.score(qr as int, c0 + j));
            if full {
                row.push(s);
            } else {
                row.push(plus(s, mask_value(self.past, p, c0 + j)));
            }
        }
        assert(row@ =~= want);
        row
    }

    /// One value of a mixed band.
    fn mix(&self, w: &[R], r0: usize, i: usize) -> (s: R)
        requires
            lawful::<R>(),
            self.wf(),
            r0 + w@.len() <= self.heads * self.kv,
            i < self.hd,
        ensures
            s == mixed(w@, self.v@, self.hd as int, r0 as int, i as int),
    {
        let size: usize = self.v.len();
        let ghost f = |j: int| rmul(w@[j], self.v@[cell(self.hd as int, r0 + j, i as int)]);
        let mut s = zero::<R>();
        for j in 0..w.len()
            invariant
                lawful::<R>(),
                self.wf(),
                r0 + w@.len() <= self.heads * self.kv,
                i < self.hd,
                size == self.v@.len(),
                f == |j: int| rmul(w@[j], self.v@[cell(self.hd as int, r0 + j, i as int)]),
                s == fsum(j as nat, f),
        {
            proof {
                lemma_cell_inside(self.heads * self.kv, self.hd as int, r0 + j, i as int);
                let r = r0 + j;
                assert(r <= r * self.hd) by (nonlinear_arith)
                    requires
                        0 <= r,
                        1 <= self.hd,
                ;
            }
            s = plus(s, times(w[j], self.v[(r0 + j) * self.hd + i]));
        }
        s
    }

    /// What a row comes to.
    fn answer_row(&self, qr: usize) -> (out: Vec<R>)
        requires
            lawful::<R>(),
            self.wf(),
            qr < self.heads * self.rows,
            self.reach() > 0,
        ensures
            out@ == self.answer(qr as int),
    {
        proof {
            lemma_row_head(self.heads as int, self.rows as int, qr as int);
        }
        let size: usize = self.v.len();
        let head: usize = qr / self.rows;
        let far: usize = self.past.saturating_add(self.seq);
        let reach: usize = if far < self.kv {
            far
        } else {
            self.kv
        };
        let bands: usize = div_ceil(reach, self.band);
        let mut run_top = neg(inf::<R>());
        let mut run_sum = zero::<R>();
        let mut acc: Vec<R> = Vec::new();
        assert(bands > 0) by {
            vstd::arithmetic::div_mod::lemma_fundamental_div_mod(reach as int, self.band as int);
            vstd::arithmetic::div_mod::lemma_div_pos_is_pos(reach as int, self.band as int);
            if reach as int / self.band as int == 0 {
                assert(self.band * 0 == 0) by (nonlinear_arith);
            }
        }
        for n in 0..bands
            invariant
                lawful::<R>(),
                self.wf(),
                qr < self.heads * self.rows,
                size == self.v@.len(),
                head == self.head(qr as int),
                head < self.heads,
                reach == self.reach(),
                bands == self.bands(),
                n == 0 ==> run_top == rneg(rinf::<R>()) && self.running(qr as int, 0) is None,
                n > 0 ==> (self.running(qr as int, n as nat) matches Some(run) && run.top
                    == run_top && run.sum == run_sum && run.acc == acc@ && acc@.len() == self.hd),
        {
            let ghost was = self.running(qr as int, n as nat);
            proof {
                let (l, b) = (reach as int, self.band as int);
                vstd::arithmetic::div_mod::lemma_fundamental_div_mod(l, b);
                vstd::arithmetic::div_mod::lemma_mod_bound(l, b);
                let q = l / b;
                assert(b * q == q * b) by (nonlinear_arith);
                assert(0 <= n * b && n * b < l) by (nonlinear_arith)
                    requires
                        0 <= n,
                        0 < b,
                        n < (if l % b == 0 {
                            q
                        } else {
                            q + 1
                        }),
                        l == q * b + l % b,
                        0 <= l % b,
                ;
            }
            let c0: usize = n * self.band;
            let width: usize = if self.kv - c0 < self.band {
                self.kv - c0
            } else {
                self.band
            };
            assert(width == self.width(n as int));
            let row = self.scores(qr, c0, width);
            let before = run_top;
            let t = max(top_of(&row), before);
            let mut w: Vec<R> = Vec::with_capacity(width);
            let mut sum = zero::<R>();
            let ghost want = weights(row@, t);
            for j in 0..width
                invariant
                    lawful::<R>(),
                    row@.len() == width,
                    want == weights(row@, t),
                    w@.len() == j,
                    forall|i: int| 0 <= i < j ==> #[trigger] w@[i] == want[i],
                    sum == fsum(j as nat, |i: int| want[i]),
            {
                let e = exp(minus(row[j], t));
                w.push(e);
                sum = plus(sum, e);
            }
            assert(w@ =~= want);
            let again = exp(minus(before, t));
            proof {
                lemma_head_row(
                    self.heads as int,
                    self.kv as int,
                    self.hd as int,
                    head as int,
                    c0 + width - 1,
                );
                let m = self.heads * self.kv;
                assert(m <= m * self.hd) by (nonlinear_arith)
                    requires
                        0 <= m,
                        1 <= self.hd,
                ;
                assert(0 <= head * self.kv) by (nonlinear_arith)
                    requires
                        0 <= head,
                        0 <= self.kv,
                ;
            }
            let r0: usize = head * self.kv + c0;
            let ghost now = folded(was, row@, self.v@, self.hd as int, r0 as int);
            let mut next: Vec<R> = Vec::with_capacity(self.hd);
            for i in 0..self.hd
                invariant
                    lawful::<R>(),
                    self.wf(),
                    r0 + w@.len() <= self.heads * self.kv,
                    n > 0 ==> (was matches Some(run) && run.acc == acc@ && acc@.len() == self.hd),
                    n == 0 ==> was is None,
                    forall|k: int|
                        0 <= k < self.hd ==> #[trigger] now.acc[k] == if n == 0 {
                            mixed(w@, self.v@, self.hd as int, r0 as int, k)
                        } else {
                            radd(
                                rmul(acc@[k], again),
                                mixed(w@, self.v@, self.hd as int, r0 as int, k),
                            )
                        },
                    next@.len() == i,
                    forall|k: int| 0 <= k < i ==> #[trigger] next@[k] == now.acc[k],
            {
                let m = self.mix(&w, r0, i);
                if n == 0 {
                    next.push(m);
                } else {
                    next.push(plus(times(acc[i], again), m));
                }
            }
            assert(next@ =~= now.acc);
            run_sum = if n == 0 {
                sum
            } else {
                plus(times(run_sum, again), sum)
            };
            acc = next;
            run_top = t;
            assert(self.running(qr as int, (n + 1) as nat) == Some(now));
        }
        let ghost want = self.answer(qr as int);
        let mut out: Vec<R> = Vec::with_capacity(self.hd);
        for i in 0..self.hd
            invariant
                lawful::<R>(),
                acc@.len() == self.hd,
                want == Seq::new(self.hd as nat, |i: int| rdiv(acc@[i], run_sum)),
                out@.len() == i,
                forall|k: int| 0 <= k < i ==> #[trigger] out@[k] == want[k],
        {
            out.push(over(acc[i], run_sum));
        }
        assert(out@ =~= want);
        out
    }
}

/// What a banded attention is asked of goes together.
pub open spec fn chunk_fits(
    q: Seq<usize>,
    k: Seq<usize>,
    v: Seq<usize>,
    seq: int,
    past: int,
) -> bool {
    &&& q[0] == 1
    &&& k == seq![1usize, q[1], k[2], q[3]]
    &&& v == k
    &&& 0 < seq
    &&& q[2] as int % seq == 0
    &&& 0 < k[2]
}

/// The chunk three runs of values of these shapes hold, its scores stored at the width `kept`.
pub open spec fn chunk_over<R: Real>(
    kept: Kind,
    qd: Seq<usize>,
    kd: Seq<usize>,
    q: Seq<R>,
    k: Seq<R>,
    v: Seq<R>,
    seq: usize,
    past: usize,
    c: Chunk<R>,
) -> bool {
    &&& c.q@ == q
    &&& c.k@ == k
    &&& c.v@ == v
    &&& c.heads == qd[1]
    &&& c.rows == qd[2]
    &&& c.kv == kd[2]
    &&& c.hd == qd[3]
    &&& c.seq == seq
    &&& c.past == past
    &&& c.band == band_width(qd[1] * qd[2], kd[2] as int)
    &&& c.kept == kept
}

/// The chunk three tensors hold.
pub open spec fn chunk_of<'a, R: Real>(
    q: &'a Tensor<R>,
    k: &'a Tensor<R>,
    v: &'a Tensor<R>,
    seq: usize,
    past: usize,
    c: Chunk<'a, R>,
) -> bool {
    chunk_over(Kind::Single, q.dims@, k.dims@, q.data@, k.data@, v.data@, seq, past, c)
}

/// What is wrong with shapes that do not go together.
pub open spec fn banded_fault(q: Seq<usize>, k: Seq<usize>) -> Error {
    if q.len() != 4 {
        Error::Rank { want: 4, have: q.len() as usize }
    } else if k.len() <= 2 {
        Error::Axis { dim: 2, rank: k.len() as usize }
    } else {
        Error::Shape
    }
}

/// Causal attention over a prefill chunk, one band of keys at a time.
///
/// `softmax(QK^T + mask)V` written so that nothing in it grows with the context. Each row carries
/// its running maximum and sum from band to band, and what it accumulated is rescaled whenever
/// the maximum moves.
///
/// `q` is `[1, kv_heads, groups * seq, head_dim]` and `k` and `v` are `[1, kv_heads, kv,
/// head_dim]`, the layout in which query heads sharing a key head sit in one matrix. The scale
/// belongs on `q` before the call. The result is `[1, kv_heads, groups * seq, head_dim]`.
pub fn banded_causal_attention<R: Real>(
    q: &Tensor<R>,
    k: &Tensor<R>,
    v: &Tensor<R>,
    seq: usize,
    past: usize,
) -> (r: Result<Tensor<R>, Error>)
    requires
        lawful::<R>(),
        q.wf(),
        k.wf(),
        v.wf(),
    ensures
        r is Ok <==> q.dims@.len() == 4 && k.dims@.len() > 2 && chunk_fits(
            q.dims@,
            k.dims@,
            v.dims@,
            seq as int,
            past as int,
        ),
        r matches Err(e) ==> e == banded_fault(q.dims@, k.dims@),
        r matches Ok(t) ==> t.wf() && t.dims@ == q.dims@ && forall|c: Chunk<R>| #[trigger]
            chunk_of(q, k, v, seq, past, c) && c.hd > 0 ==> rowwise(
                t.data@,
                c.heads * c.rows,
                c.hd as int,
                c.answers(),
            ),
        r matches Ok(t) ==> forall|m: Reading<R>| #[trigger]
            m.faithful() && m.all_finite(q.data@) && m.all_finite(k.data@) && m.all_finite(v.data@)
                ==> causal(
                m,
                q.data@,
                k.data@,
                v.data@,
                q.dims@[1] as int,
                q.dims@[2] as int,
                k.dims@[2] as int,
                q.dims@[3] as int,
                seq as int,
                past as int,
                t.data@,
            ),
{
    banded(Kind::Single, q, k, v, seq, past)
}

/// Banded attention over wide values, each score stored at the width `kept`.
pub(crate) fn banded<R: Real>(
    kept: Kind,
    q: &Tensor<R>,
    k: &Tensor<R>,
    v: &Tensor<R>,
    seq: usize,
    past: usize,
) -> (r: Result<Tensor<R>, Error>)
    requires
        lawful::<R>(),
        q.wf(),
        k.wf(),
        v.wf(),
    ensures
        r is Ok <==> q.dims@.len() == 4 && k.dims@.len() > 2 && chunk_fits(
            q.dims@,
            k.dims@,
            v.dims@,
            seq as int,
            past as int,
        ),
        r matches Err(e) ==> e == banded_fault(q.dims@, k.dims@),
        r matches Ok(t) ==> t.wf() && t.dims@ == q.dims@ && forall|c: Chunk<R>| #[trigger]
            chunk_over(kept, q.dims@, k.dims@, q.data@, k.data@, v.data@, seq, past, c) && c.hd > 0
                ==> rowwise(t.data@, c.heads * c.rows, c.hd as int, c.answers()),
        r matches Ok(t) ==> q.dims@[3] > 0 ==> exists|c: Chunk<R>| #[trigger]
            chunk_over(kept, q.dims@, k.dims@, q.data@, k.data@, v.data@, seq, past, c),
        r matches Ok(t) ==> forall|m: Reading<R>| #[trigger]
            m.faithful() && kept == Kind::Single && m.all_finite(q.data@) && m.all_finite(k.data@) && m.all_finite(v.data@)
                ==> causal(
                m,
                q.data@,
                k.data@,
                v.data@,
                q.dims@[1] as int,
                q.dims@[2] as int,
                k.dims@[2] as int,
                q.dims@[3] as int,
                seq as int,
                past as int,
                t.data@,
            ),
{
    let (rank, krank, vrank): (usize, usize, usize) = (q.dims.len(), k.dims.len(), v.dims.len());
    if rank != 4 {
        return Err(Error::Rank { want: 4, have: rank });
    }
    if krank <= 2 {
        return Err(Error::Axis { dim: 2, rank: krank });
    }
    let (one, heads, rows, hd): (usize, usize, usize, usize) = (
        q.dims[0],
        q.dims[1],
        q.dims[2],
        q.dims[3],
    );
    let kv: usize = k.dims[2];
    if one != 1 || krank != 4 || vrank != 4 || k.dims[0] != 1 || k.dims[1] != heads || k.dims[3]
        != hd || v.dims[0] != 1 || v.dims[1] != heads || v.dims[2] != kv || v.dims[3] != hd || seq
        == 0 || rows % seq != 0 || kv == 0 {
        return Err(Error::Shape);
    }
    assert(k.dims@ =~= seq![1usize, heads, kv, hd]);
    assert(v.dims@ =~= k.dims@);
    proof {
        lemma_elems_of_short(q.dims@);
        lemma_elems_of_short(k.dims@);
    }
    if hd == 0 {
        assert((1 * heads * rows) * 0 == 0) by (nonlinear_arith);
        return Ok(Tensor { dims: copy_run(&q.dims), data: Vec::new() });
    }
    let total: usize = q.data.len();
    proof {
        let m = heads * rows;
        assert(m <= m * hd) by (nonlinear_arith)
            requires
                0 <= m,
                1 <= hd,
        ;
        assert(0 <= heads * rows) by (nonlinear_arith)
            requires
                0 <= heads,
                0 <= rows,
        ;
    }
    let all: usize = heads * rows;
    let chunk = Chunk {
        q: &q.data,
        k: &k.data,
        v: &v.data,
        heads,
        rows,
        kv,
        hd,
        seq,
        past,
        band: score_band(all, kv),
        kept,
    };
    assert(chunk_over(kept, q.dims@, k.dims@, q.data@, k.data@, v.data@, seq, past, chunk));
    let ghost f = chunk.answers();
    let mut data: Vec<R> = Vec::with_capacity(total);
    proof {
        lemma_no_rows(hd as int, f);
    }
    for qr in 0..all
        invariant
            lawful::<R>(),
            chunk.wf(),
            chunk.reach() > 0,
            chunk.hd == hd,
            all == chunk.heads * chunk.rows,
            f == chunk.answers(),
            rowwise(data@, qr as int, hd as int, f),
    {
        let mut row = chunk.answer_row(qr);
        proof {
            lemma_row_appended(data@, row@, qr as int, hd as int, f);
        }
        data.append(&mut row);
    }
    assert forall|c: Chunk<R>| #[trigger]
        chunk_over(kept, q.dims@, k.dims@, q.data@, k.data@, v.data@, seq, past, c) implies rowwise(
        data@,
        c.heads * c.rows,
        c.hd as int,
        c.answers(),
    ) by {
        assert forall|x: int| 0 <= x < all implies #[trigger] (c.answers())(x) == f(x) by {
            lemma_same_chunk(chunk, c, x);
        }
        assert forall|x: int, j: int| 0 <= x < all && 0 <= j < hd implies data@[
            #[trigger] cell(hd as int, x, j)
        ] == (c.answers())(x)[j] by {
            assert((c.answers())(x) == f(x));
        }
    }
    proof {
        assert forall|m: Reading<R>| #[trigger]
            m.faithful() && kept == Kind::Single && m.all_finite(q.data@) && m.all_finite(k.data@)
                && m.all_finite(v.data@) implies causal(
            m,
            q.data@,
            k.data@,
            v.data@,
            heads as int,
            rows as int,
            kv as int,
            hd as int,
            seq as int,
            past as int,
            data@,
        ) by {
            assert forall|g: int, r: int, i: int|
                0 <= g < heads && 0 <= r < rows && 0 <= i < hd implies (m.finite)(
                data@[#[trigger] place(rows as int, hd as int, g, r, i)],
            ) && attends(
                m.exp,
                numbers(m, q.data@),
                numbers(m, k.data@),
                numbers(m, v.data@),
                1 as real,
                rows as int,
                kv as int,
                hd as int,
                visible(past as int, r % seq as int, kv as int),
                g,
                r,
                i,
                (m.val)(data@[place(rows as int, hd as int, g, r, i)]),
            ) by {
                banded_row_attends(m, chunk, g, r, i);
                lemma_cell_inside(heads as int, rows as int, g, r);
                assert(data@[cell(hd as int, g * rows + r, i)] == f(g * rows + r)[i]);
            }
        }
    }
    Ok(Tensor { dims: copy_run(&q.dims), data })
}

/// What a chunk comes to depends on what it holds alone.
proof fn lemma_same_chunk<R: Real>(a: Chunk<R>, b: Chunk<R>, qr: int)
    requires
        a.q@ == b.q@,
        a.k@ == b.k@,
        a.v@ == b.v@,
        a.heads == b.heads,
        a.rows == b.rows,
        a.kv == b.kv,
        a.hd == b.hd,
        a.seq == b.seq,
        a.past == b.past,
        a.band == b.band,
        a.kept == b.kept,
    ensures
        a.answer(qr) == b.answer(qr),
{
    lemma_same_running(a, b, qr, a.bands() as nat);
}

proof fn lemma_same_running<R: Real>(a: Chunk<R>, b: Chunk<R>, qr: int, n: nat)
    requires
        a.q@ == b.q@,
        a.k@ == b.k@,
        a.v@ == b.v@,
        a.rows == b.rows,
        a.kv == b.kv,
        a.hd == b.hd,
        a.seq == b.seq,
        a.past == b.past,
        a.band == b.band,
        a.kept == b.kept,
    ensures
        a.running(qr, n) == b.running(qr, n),
    decreases n,
{
    if n > 0 {
        lemma_same_running(a, b, qr, (n - 1) as nat);
        let c0 = (n - 1) * a.band;
        let w = a.width(n - 1);
        assert forall|c: int| #[trigger] a.score(qr, c) == b.score(qr, c) by {
            crate::sums::lemma_fsum_eq(
                a.hd as nat,
                |i: int|
                    rmul(
                        a.q@[cell(a.hd as int, qr, i)],
                        a.k@[cell(a.hd as int, a.head(qr) * a.kv + c, i)],
                    ),
                |i: int|
                    rmul(
                        b.q@[cell(b.hd as int, qr, i)],
                        b.k@[cell(b.hd as int, b.head(qr) * b.kv + c, i)],
                    ),
            );
        }
        assert(a.band_row(qr, c0, w) =~= b.band_row(qr, c0, w));
    }
}

// -- the half-precision prefill --

/// The widest head the half-precision prefill serves.
pub const MAX_HEAD_DIM: usize = 256;

/// Half-precision queries, keys and values, heads sharing a key head folded together.
pub struct HalfChunk<'a> {
    pub q: &'a [Half],
    pub k: &'a [Half],
    pub v: &'a [Half],
    pub heads: usize,
    pub rows: usize,
    pub kv: usize,
    pub hd: usize,
    pub seq: usize,
    pub past: usize,
}

impl<'a> HalfChunk<'a> {
    pub open spec fn wf(self) -> bool {
        &&& self.q@.len() == (self.heads * self.rows) * self.hd
        &&& self.k@.len() == (self.heads * self.kv) * self.hd
        &&& self.v@.len() == (self.heads * self.kv) * self.hd
        &&& 0 < self.hd
        &&& 0 < self.seq
        &&& self.past + self.seq == self.kv
    }

    pub open spec fn head(self, qr: int) -> int {
        qr / self.rows as int
    }

    /// The last key a query row may see.
    pub open spec fn last(self, qr: int) -> int {
        self.past + (qr % self.rows as int) % self.seq as int
    }

    /// The scaled scores of a row, of the keys it may see.
    pub open spec fn scores<R: Real>(self, qr: int, s: R) -> Seq<R> {
        Seq::new(
            (self.last(qr) + 1) as nat,
            |c: int|
                rmul(
                    fsum(
                        self.hd as nat,
                        |i: int|
                            rmul(
                                rhalf(self.q@[cell(self.hd as int, qr, i)]),
                                rhalf(
                                    self.k@[cell(self.hd as int, self.head(qr) * self.kv + c, i)],
                                ),
                            ),
                    ),
                    s,
                ),
        )
    }

    /// The values a row may see, mixed by the exponentials of its scores.
    pub open spec fn mixed<R: Real>(self, qr: int, w: Seq<R>, i: int) -> R {
        fsum(
            w.len(),
            |c: int|
                rmul(
                    w[c],
                    rhalf(self.v@[cell(self.hd as int, self.head(qr) * self.kv + c, i)]),
                ),
        )
    }

    /// What a row comes to, rounded to half precision once.
    pub open spec fn answer<R: Real>(self, qr: int, s: R) -> Seq<Half> {
        let row = self.scores(qr, s);
        let m = top(row, row.len());
        Seq::new(
            self.hd as nat,
            |i: int|
                rto_half::<R>(rdiv(self.mixed(qr, weights(row, m), i), exp_sum(row, m))),
        )
    }

    pub open spec fn answers<R: Real>(self, s: R) -> spec_fn(int) -> Seq<Half> {
        |qr: int| self.answer(qr, s)
    }

    /// A key's score for a row.
    fn score_of<R: Real>(&self, qr: usize, kr: usize, s: R) -> (x: R)
        requires
            lawful::<R>(),
            (qr + 1) * self.hd <= self.q@.len(),
            (kr + 1) * self.hd <= self.k@.len(),
        ensures
            x == rmul(
                fsum(
                    self.hd as nat,
                    |i: int|
                        rmul(
                            rhalf(self.q@[cell(self.hd as int, qr as int, i)]),
                            rhalf(self.k@[cell(self.hd as int, kr as int, i)]),
                        ),
                ),
                s,
            ),
    {
        let a = span_of(self.q, qr, self.hd);
        let b = span_of(self.k, kr, self.hd);
        proof {
            lemma_row_inside(self.q@.len() as int, qr as int, self.hd as int);
            lemma_row_inside(self.k@.len() as int, kr as int, self.hd as int);
        }
        let ghost f = |i: int|
            rmul(
                rhalf::<R>(self.q@[cell(self.hd as int, qr as int, i)]),
                rhalf::<R>(self.k@[cell(self.hd as int, kr as int, i)]),
            );
        let mut t = zero::<R>();
        for i in 0..self.hd
            invariant
                lawful::<R>(),
                a@ == span(self.q@, qr as int, self.hd as int),
                b@ == span(self.k@, kr as int, self.hd as int),
                a@.len() == self.hd,
                b@.len() == self.hd,
                0 <= qr * self.hd,
                0 <= kr * self.hd,
                qr * self.hd + self.hd <= self.q@.len(),
                kr * self.hd + self.hd <= self.k@.len(),
                f == |i: int|
                    rmul(
                        rhalf::<R>(self.q@[cell(self.hd as int, qr as int, i)]),
                        rhalf::<R>(self.k@[cell(self.hd as int, kr as int, i)]),
                    ),
                t == fsum(i as nat, f),
        {
            t = plus(t, times(widen(a[i]), widen(b[i])));
        }
        times(t, s)
    }

    /// What a row comes to.
    fn answer_row<R: Real>(&self, qr: usize, s: R) -> (out: Vec<Half>)
        requires
            lawful::<R>(),
            self.wf(),
            qr < self.heads * self.rows,
        ensures
            out@ == self.answer(qr as int, s),
    {
        proof {
            lemma_row_head(self.heads as int, self.rows as int, qr as int);
            assert((qr + 1) * self.hd <= (self.heads * self.rows) * self.hd) by (nonlinear_arith)
                requires
                    qr + 1 <= self.heads * self.rows,
                    0 <= self.hd,
            ;
            vstd::arithmetic::div_mod::lemma_mod_bound(
                qr as int % self.rows as int,
                self.seq as int,
            );
        }
        let (size, vsize): (usize, usize) = (self.k.len(), self.v.len());
        let head: usize = qr / self.rows;
        let last: usize = self.past + (qr % self.rows) % self.seq;
        let ghost want = self.scores(qr as int, s);
        let mut row: Vec<R> = Vec::with_capacity(last + 1);
        for c in 0..last + 1
            invariant
                lawful::<R>(),
                self.wf(),
                (qr + 1) * self.hd <= self.q@.len(),
                head == self.head(qr as int),
                head < self.heads,
                last == self.last(qr as int),
                last < self.kv,
                size == self.k@.len(),
                want == self.scores(qr as int, s),
                row@.len() == c,
                forall|i: int| 0 <= i < c ==> #[trigger] row@[i] == want[i],
        {
            proof {
                lemma_head_row(
                    self.heads as int,
                    self.kv as int,
                    self.hd as int,
                    head as int,
                    c as int,
                );
                let r = head * self.kv + c;
                assert(r + 1 <= (r + 1) * self.hd) by (nonlinear_arith)
                    requires
                        0 <= r,
                        1 <= self.hd,
                ;
                assert(0 <= head * self.kv) by (nonlinear_arith)
                    requires
                        0 <= head,
                        0 <= self.kv,
                ;
            }
            row.push(self.score_of(qr, head * self.kv + c, s));
        }
        assert(row@ =~= want);
        let m = top_of(&row);
        let sum = exp_sum_of(&row, m);
        let ghost shares = weights(row@, m);
        let mut w: Vec<R> = Vec::with_capacity(row.len());
        for j in 0..row.len()
            invariant
                lawful::<R>(),
                shares == weights(row@, m),
                w@.len() == j,
                forall|i: int| 0 <= i < j ==> #[trigger] w@[i] == shares[i],
        {
            w.push(exp(minus(row[j], m)));
        }
        assert(w@ =~= shares);
        let ghost whole = self.answer(qr as int, s);
        let mut out: Vec<Half> = Vec::with_capacity(self.hd);
        for i in 0..self.hd
            invariant
                lawful::<R>(),
                self.wf(),
                head == self.head(qr as int),
                head < self.heads,
                vsize == self.v@.len(),
                w@.len() <= self.kv,
                forall|k: int|
                    0 <= k < self.hd ==> #[trigger] whole[k] == rto_half::<R>(
                        rdiv(self.mixed(qr as int, w@, k), sum),
                    ),
                out@.len() == i,
                forall|k: int| 0 <= k < i ==> #[trigger] out@[k] == whole[k],
        {
            let ghost f = |c: int|
                rmul(
                    w@[c],
                    rhalf::<R>(
                        self.v@[cell(
                            self.hd as int,
                            self.head(qr as int) * self.kv + c,
                            i as int,
                        )],
                    ),
                );
            let mut acc = zero::<R>();
            for c in 0..w.len()
                invariant
                    lawful::<R>(),
                    self.wf(),
                    head == self.head(qr as int),
                    head < self.heads,
                    vsize == self.v@.len(),
                    w@.len() <= self.kv,
                    i < self.hd,
                    f == |c: int|
                        rmul(
                            w@[c],
                            rhalf::<R>(
                                self.v@[cell(
                                    self.hd as int,
                                    self.head(qr as int) * self.kv + c,
                                    i as int,
                                )],
                            ),
                        ),
                    acc == fsum(c as nat, f),
            {
                proof {
                    lemma_head_row(
                        self.heads as int,
                        self.kv as int,
                        self.hd as int,
                        head as int,
                        c as int,
                    );
                    let r = head * self.kv + c;
                    lemma_cell_inside(self.heads * self.kv, self.hd as int, r, i as int);
                    assert(r <= r * self.hd && 0 <= head * self.kv) by (nonlinear_arith)
                        requires
                            0 <= r,
                            1 <= self.hd,
                            0 <= head,
                            0 <= self.kv,
                    ;
                }
                let r: usize = head * self.kv + c;
                acc = plus(acc, times(w[c], widen(self.v[r * self.hd + i])));
            }
            assert(acc == self.mixed(qr as int, w@, i as int));
            out.push(narrow(over(acc, sum)));
        }
        assert(out@ =~= whole);
        out
    }
}

/// The shapes the half-precision prefill serves.
pub open spec fn prefill_fits(
    q: Seq<usize>,
    k: Seq<usize>,
    v: Seq<usize>,
    past: int,
    seq: int,
) -> bool {
    &&& q.len() == 4
    &&& k.len() == 4
    &&& q[0] == k[0]
    &&& q[1] == k[1]
    &&& q[3] == k[3]
    &&& k == v
    &&& 0 < seq
    &&& past + seq == k[2]
    &&& q[2] as int % seq == 0
    &&& 0 < q[3] <= MAX_HEAD_DIM
}

/// The chunk three half-precision tensors hold.
pub open spec fn half_chunk_of(
    q: &Tensor<Half>,
    k: &Tensor<Half>,
    v: &Tensor<Half>,
    past: usize,
    seq: usize,
    c: HalfChunk,
) -> bool {
    &&& c.q@ == q.data@
    &&& c.k@ == k.data@
    &&& c.v@ == v.data@
    &&& c.heads == q.dims@[0] * q.dims@[1]
    &&& c.rows == q.dims@[2]
    &&& c.kv == k.dims@[2]
    &&& c.hd == q.dims@[3]
    &&& c.seq == seq
    &&& c.past == past
}

/// Causal attention over a whole prefill chunk, without building the scores.
///
/// `q` is `[b, n_kv_head, groups * seq, head_dim]` and `k` and `v` are `[b, n_kv_head, kv,
/// head_dim]`. `None` where the shapes are off this path, and the caller keeps its own chain.
/// Where `b * n_kv_head` is no `usize`, which only tensors without elements allow, the shapes
/// are off this path too.
pub fn flash_attn_prefill<R: Real>(
    q: &Tensor<Half>,
    k: &Tensor<Half>,
    v: &Tensor<Half>,
    scale: R,
    past: usize,
    seq: usize,
) -> (r: Result<Option<Tensor<Half>>, Error>)
    requires
        lawful::<R>(),
        q.wf(),
        k.wf(),
        v.wf(),
    ensures
        r is Ok,
        r->Ok_0 is Some <==> prefill_fits(q.dims@, k.dims@, v.dims@, past as int, seq as int)
            && q.dims@[0] * q.dims@[1] <= usize::MAX,
        r->Ok_0 matches Some(t) ==> t.wf() && t.dims@ == q.dims@ && forall|c: HalfChunk| #[trigger]
            half_chunk_of(q, k, v, past, seq, c) ==> rowwise(
                t.data@,
                c.heads * c.rows,
                c.hd as int,
                c.answers(scale),
            ),
        r->Ok_0 matches Some(t) ==> forall|m: Reading<R>| #[trigger]
            m.faithful() && (m.finite)(scale) && finite_halves(m, q.data@) && finite_halves(
                m,
                k.data@,
            ) && finite_halves(m, v.data@) ==> causal_halves(
                m,
                q.data@,
                k.data@,
                v.data@,
                scale,
                q.dims@[0] * q.dims@[1],
                q.dims@[2] as int,
                k.dims@[2] as int,
                q.dims@[3] as int,
                seq as int,
                past as int,
                t.data@,
            ),
{
    let (rank, krank, vrank): (usize, usize, usize) = (q.dims.len(), k.dims.len(), v.dims.len());
    if rank != 4 || krank != 4 || vrank != 4 {
        return Ok(None);
    }
    let (qb, qh, rows, hd): (usize, usize, usize, usize) = (
        q.dims[0],
        q.dims[1],
        q.dims[2],
        q.dims[3],
    );
    let kv: usize = k.dims[2];
    if k.dims[0] != qb || k.dims[1] != qh || k.dims[3] != hd || v.dims[0] != qb || v.dims[1] != qh
        || v.dims[2] != kv || v.dims[3] != hd || seq == 0 || kv == 0 {
        return Ok(None);
    }
    assert(k.dims@ =~= v.dims@);
    let whole = match past.checked_add(seq) {
        Some(n) => n == kv,
        None => false,
    };
    if !whole || rows % seq != 0 || hd == 0 || hd > MAX_HEAD_DIM {
        return Ok(None);
    }
    let heads: usize = match qb.checked_mul(qh) {
        Some(n) => n,
        None => return Ok(None),
    };
    proof {
        lemma_elems_of_short(q.dims@);
        lemma_elems_of_short(k.dims@);
        let m = heads * rows;
        assert(m <= m * hd && 0 <= m) by (nonlinear_arith)
            requires
                m == heads * rows,
                0 <= heads,
                0 <= rows,
                1 <= hd,
        ;
    }
    let total: usize = q.data.len();
    let all: usize = heads * rows;
    let chunk = HalfChunk { q: &q.data, k: &k.data, v: &v.data, heads, rows, kv, hd, seq, past };
    let ghost f = chunk.answers(scale);
    let mut data: Vec<Half> = Vec::with_capacity(total);
    proof {
        lemma_no_rows(hd as int, f);
    }
    for qr in 0..all
        invariant
            lawful::<R>(),
            chunk.wf(),
            chunk.hd == hd,
            all == chunk.heads * chunk.rows,
            f == chunk.answers(scale),
            rowwise(data@, qr as int, hd as int, f),
    {
        let mut row = chunk.answer_row(qr, scale);
        proof {
            lemma_row_appended(data@, row@, qr as int, hd as int, f);
        }
        data.append(&mut row);
    }
    assert forall|c: HalfChunk| #[trigger] half_chunk_of(q, k, v, past, seq, c) implies rowwise(
        data@,
        c.heads * c.rows,
        c.hd as int,
        c.answers(scale),
    ) by {
        assert(c.q@ == chunk.q@ && c.k@ == chunk.k@ && c.v@ == chunk.v@);
        assert forall|x: int, j: int| 0 <= x < all && 0 <= j < hd implies data@[
            #[trigger] cell(hd as int, x, j)
        ] == (c.answers(scale))(x)[j] by {
            assert(f(x) == chunk.answer(x, scale));
            lemma_same_half_chunk(chunk, c, x, scale);
        }
    }
    proof {
        assert forall|m: Reading<R>| #[trigger]
            m.faithful() && (m.finite)(scale) && finite_halves(m, q.data@) && finite_halves(
                m,
                k.data@,
            ) && finite_halves(m, v.data@) implies causal_halves(
            m,
            q.data@,
            k.data@,
            v.data@,
            scale,
            heads as int,
            rows as int,
            kv as int,
            hd as int,
            seq as int,
            past as int,
            data@,
        ) by {
            assert forall|g: int, r: int, i: int|
                0 <= g < heads && 0 <= r < rows && 0 <= i < hd implies half_attends(
                m,
                q.data@,
                k.data@,
                v.data@,
                scale,
                rows as int,
                kv as int,
                hd as int,
                visible(past as int, r % seq as int, kv as int),
                g,
                r,
                i,
                data@[#[trigger] place(rows as int, hd as int, g, r, i)],
            ) by {
                let x = half_row_attends(m, chunk, scale, g, r, i);
                lemma_cell_inside(heads as int, rows as int, g, r);
                assert(data@[cell(hd as int, g * rows + r, i)] == f(g * rows + r)[i]);
                assert(data@[place(rows as int, hd as int, g, r, i)] == rto_half::<R>(x));
            }
        }
    }
    Ok(Some(Tensor { dims: copy_run(&q.dims), data }))
}

/// What a half-precision chunk comes to depends on what it holds alone.
proof fn lemma_same_half_chunk<R: Real>(a: HalfChunk, b: HalfChunk, qr: int, s: R)
    requires
        a.q@ == b.q@,
        a.k@ == b.k@,
        a.v@ == b.v@,
        a.rows == b.rows,
        a.kv == b.kv,
        a.hd == b.hd,
        a.seq == b.seq,
        a.past == b.past,
    ensures
        a.answer(qr, s) == b.answer(qr, s),
{
    let (x, y) = (a.scores(qr, s), b.scores(qr, s));
    assert forall|c: int| 0 <= c < x.len() implies x[c] == y[c] by {
        crate::sums::lemma_fsum_eq(
            a.hd as nat,
            |i: int|
                rmul(
                    rhalf::<R>(a.q@[cell(a.hd as int, qr, i)]),
                    rhalf::<R>(a.k@[cell(a.hd as int, a.head(qr) * a.kv + c, i)]),
                ),
            |i: int|
                rmul(
                    rhalf::<R>(b.q@[cell(b.hd as int, qr, i)]),
                    rhalf::<R>(b.k@[cell(b.hd as int, b.head(qr) * b.kv + c, i)]),
                ),
        );
    }
    assert(x =~= y);
    let w = weights(x, top(x, x.len()));
    assert forall|i: int| a.mixed(qr, w, i) == b.mixed(qr, w, i) by {
        crate::sums::lemma_fsum_eq(
            w.len(),
            |c: int|
                rmul(w[c], rhalf::<R>(a.v@[cell(a.hd as int, a.head(qr) * a.kv + c, i)])),
            |c: int|
                rmul(w[c], rhalf::<R>(b.v@[cell(b.hd as int, b.head(qr) * b.kv + c, i)])),
        );
    }
    assert(a.answer(qr, s) =~= b.answer(qr, s));
}

// -- heads --

/// Blocks of `w` values, each `n_rep` times over.
pub open spec fn repeated<T>(x: Seq<T>, w: int, n_rep: int) -> spec_fn(int) -> Seq<T> {
    |b: int| span(x, b / n_rep, w)
}

/// Every block `n_rep` times over.
fn repeat_blocks<T: Copy>(x: &[T], blocks: usize, w: usize, n_rep: usize) -> (data: Vec<T>)
    requires
        blocks * w == x@.len(),
        (blocks * n_rep) * w <= usize::MAX,
        w > 0,
    ensures
        rowwise(data@, blocks * n_rep, w as int, repeated(x@, w as int, n_rep as int)),
{
    let size: usize = x.len();
    let ghost f = repeated(x@, w as int, n_rep as int);
    let mut data: Vec<T> = Vec::new();
    proof {
        lemma_no_rows(w as int, f);
        assert(0 * n_rep == 0) by (nonlinear_arith);
    }
    for b in 0..blocks
        invariant
            blocks * w == x@.len(),
            size == x@.len(),
            f == repeated(x@, w as int, n_rep as int),
            rowwise(data@, b * n_rep, w as int, f),
    {
        for i in 0..n_rep
            invariant
                b < blocks,
                blocks * w == x@.len(),
                size == x@.len(),
                f == repeated(x@, w as int, n_rep as int),
                rowwise(data@, b * n_rep + i, w as int, f),
        {
            assert((b + 1) * w <= blocks * w) by (nonlinear_arith)
                requires
                    b + 1 <= blocks,
                    0 <= w,
            ;
            let block = span_of(x, b, w);
            let mut row = copy_run(block);
            proof {
                vstd::arithmetic::div_mod::lemma_fundamental_div_mod_converse(
                    b * n_rep + i,
                    n_rep as int,
                    b as int,
                    i as int,
                );
                assert(0 <= b * n_rep) by (nonlinear_arith)
                    requires
                        0 <= b,
                        0 <= n_rep,
                ;
                lemma_row_appended(data@, row@, b * n_rep + i, w as int, f);
            }
            data.append(&mut row);
        }
        assert((b + 1) * n_rep == b * n_rep + n_rep) by (nonlinear_arith);
    }
    data
}

/// The shape with dimension `at` repeated.
pub open spec fn repeated_dims(dims: Seq<usize>, at: int, n_rep: int) -> Seq<usize> {
    dims.update(at, (dims[at] * n_rep) as usize)
}

/// The repeated tensor is one that can be held.
pub open spec fn repeat_fits(dims: Seq<usize>, at: int, n_rep: int) -> bool {
    dims[at] * n_rep <= usize::MAX && elems(repeated_dims(dims, at, n_rep)) <= usize::MAX
}

/// What repeating the heads at dimension `at`, of `rank`, gives: each block of `seq * head_dim`
/// values `n_rep` times over.
pub open spec fn repeats<T>(
    x: Tensor<T>,
    at: int,
    rank: int,
    n_rep: int,
    r: Result<Tensor<T>, Error>,
) -> bool {
    if n_rep == 1 {
        r is Ok && r->Ok_0.dims@ == x.dims@ && r->Ok_0.data@ == x.data@
    } else if x.dims@.len() != rank {
        r == Err::<Tensor<T>, Error>(
            Error::Rank { want: rank as usize, have: x.dims@.len() as usize },
        )
    } else if !repeat_fits(x.dims@, at, n_rep) {
        r == Err::<Tensor<T>, Error>(Error::Shape)
    } else {
        r is Ok && r->Ok_0.wf() && r->Ok_0.dims@ == repeated_dims(x.dims@, at, n_rep) && rowwise(
            r->Ok_0.data@,
            elems(x.dims@.take(at + 1)) * n_rep,
            x.dims@[at + 1] * x.dims@[at + 2],
            repeated(x.data@, x.dims@[at + 1] * x.dims@[at + 2], n_rep),
        )
    }
}

/// Repeat the heads of a tensor whose three last dimensions are heads, positions and values.
fn repeat_heads<T: Copy>(x: &Tensor<T>, at: usize, n_rep: usize) -> (r: Result<Tensor<T>, Error>)
    requires
        x.wf(),
        at + 3 == x.dims@.len(),
        at < 2,
        n_rep != 1,
    ensures
        repeats(*x, at as int, at + 3, n_rep as int, r),
{
    let heads: usize = x.dims[at];
    let (seq, hd): (usize, usize) = (x.dims[at + 1], x.dims[at + 2]);
    let many: usize = match heads.checked_mul(n_rep) {
        Some(n) => n,
        None => return Err(Error::Shape),
    };
    let mut dims: Vec<usize> = copy_run(&x.dims);
    dims[at] = many;
    let ghost old_dims = x.dims@;
    assert(dims@ =~= repeated_dims(old_dims, at as int, n_rep as int));
    let total: usize = match count(&dims) {
        Some(n) => n,
        None => return Err(Error::Shape),
    };
    let size: usize = x.data.len();
    proof {
        lemma_elems_of_short(dims@);
        lemma_elems_of_short(old_dims);
        lemma_elems_of_short(old_dims.take(at + 1));
        let b = elems(old_dims.take(at + 1));
        let w = seq * hd;
        if at == 0 {
            assert(b == heads);
            assert(heads * seq * hd == heads * (seq * hd)) by (nonlinear_arith);
            assert(many * seq * hd == (heads * n_rep) * (seq * hd)) by (nonlinear_arith)
                requires
                    many == heads * n_rep,
            ;
        } else {
            let a = old_dims[0] as int;
            assert(b == a * heads);
            assert(a * heads * seq * hd == (a * heads) * (seq * hd)) by (nonlinear_arith);
            assert(a * many * seq * hd == ((a * heads) * n_rep) * (seq * hd)) by (nonlinear_arith)
                requires
                    many == heads * n_rep,
            ;
        }
        assert(b * w == size);
        assert((b * n_rep) * w == total);
    }
    if total == 0 {
        proof {
            let b = elems(old_dims.take(at + 1)) * n_rep;
            let w = seq * hd;
            assert(w > 0 ==> b <= 0) by (nonlinear_arith)
                requires
                    b * w == 0,
            ;
        }
        return Ok(Tensor { dims, data: Vec::new() });
    }
    proof {
        let b = elems(old_dims.take(at + 1));
        let w = seq * hd;
        assert(b > 0 && w > 0 && w <= b * w && b <= b * w) by (nonlinear_arith)
            requires
                (b * n_rep) * w > 0,
                b >= 0,
                w >= 0,
        ;
        vstd::arithmetic::div_mod::lemma_div_multiples_vanish(b, w);
        assert(w * b == b * w) by (nonlinear_arith);
    }
    let w: usize = seq * hd;
    let data = repeat_blocks(&x.data, size / w, w, n_rep);
    Ok(Tensor { dims, data })
}

/// Give every query group its own copy of the key or value head it reads.
///
/// `[b, kv_heads, seq, head_dim]` in, `[b, kv_heads * n_rep, seq, head_dim]` out, with query head
/// `h * n_rep + r` seeing kv head `h`.
pub fn repeat_kv<T: Copy>(xs: Tensor<T>, n_rep: usize) -> (r: Result<Tensor<T>, Error>)
    requires
        xs.wf(),
    ensures
        repeats(xs, 1, 4, n_rep as int, r),
{
    if n_rep == 1 {
        return Ok(xs);
    }
    let rank: usize = xs.dims.len();
    if rank != 4 {
        return Err(Error::Rank { want: 4, have: rank });
    }
    repeat_heads(&xs, 1, n_rep)
}

/// [`repeat_kv`] for a stack that carries no batch axis.
pub fn repeat_kv_unbatched<T: Copy>(xs: &Tensor<T>, n_rep: usize) -> (r: Result<Tensor<T>, Error>)
    requires
        xs.wf(),
    ensures
        repeats(*xs, 0, 3, n_rep as int, r),
{
    if n_rep == 1 {
        return Ok(xs.copied());
    }
    let rank: usize = xs.dims.len();
    if rank != 3 {
        return Err(Error::Rank { want: 3, have: rank });
    }
    repeat_heads(xs, 0, n_rep)
}

/// Query head `h * n_rep + i` of a repeated stack sees kv head `h`, in every batch.
pub proof fn repeated_head_reads_its_kv_head<T>(
    x: Seq<T>,
    w: int,
    kv_heads: int,
    n_rep: int,
    b: int,
    h: int,
    i: int,
)
    requires
        0 <= b,
        0 <= h < kv_heads,
        0 <= i < n_rep,
    ensures
        (repeated(x, w, n_rep))(b * (kv_heads * n_rep) + (h * n_rep + i)) == span(
            x,
            b * kv_heads + h,
            w,
        ),
{
    let row = b * kv_heads + h;
    assert(b * (kv_heads * n_rep) + (h * n_rep + i) == row * n_rep + i) by (nonlinear_arith)
        requires
            row == b * kv_heads + h,
    ;
    vstd::arithmetic::div_mod::lemma_fundamental_div_mod_converse(
        row * n_rep + i,
        n_rep,
        row,
        i,
    );
}

/// The input row that row `(b * heads + h) * seq + s` of the heads-first layout holds.
pub open spec fn head_row(heads: int, seq: int, r: int) -> int {
    let (bh, s) = (r / seq, r % seq);
    ((bh / heads) * seq + s) * heads + bh % heads
}

/// Rows with the head axis in front of the positions.
pub open spec fn heads_in_front<T>(x: Seq<T>, heads: int, seq: int, hd: int) -> spec_fn(
    int,
) -> Seq<T> {
    |r: int| span(x, head_row(heads, seq, r), hd)
}

/// A projection's rows split into heads: `[b, seq, heads * head_dim]` in,
/// `[b, heads, seq, head_dim]` out.
pub fn heads_first<T: Copy>(t: Tensor<T>, heads: usize, head_dim: usize) -> (r: Result<
    Tensor<T>,
    Error,
>)
    requires
        t.wf(),
    ensures
        r is Ok <==> t.dims@.len() == 3 && elems(seq![t.dims@[0], t.dims@[1], heads, head_dim])
            == elems(t.dims@),
        r matches Err(e) ==> e == if t.dims@.len() != 3 {
            Error::Rank { want: 3, have: t.dims@.len() as usize }
        } else {
            Error::Shape
        },
        r matches Ok(o) ==> o.wf() && o.dims@ == seq![t.dims@[0], heads, t.dims@[1], head_dim]
            && rowwise(
            o.data@,
            (t.dims@[0] * heads) * t.dims@[1],
            head_dim as int,
            heads_in_front(t.data@, heads as int, t.dims@[1] as int, head_dim as int),
        ),
{
    let rank: usize = t.dims.len();
    if rank != 3 {
        return Err(Error::Rank { want: 3, have: rank });
    }
    let (b, seq): (usize, usize) = (t.dims[0], t.dims[1]);
    let split: Vec<usize> = vec![b, seq, heads, head_dim];
    assert(split@ =~= seq![t.dims@[0], t.dims@[1], heads, head_dim]);
    let total: usize = t.data.len();
    match count(&split) {
        Some(n) => if n != total {
            return Err(Error::Shape);
        },
        None => return Err(Error::Shape),
    }
    let dims: Vec<usize> = vec![b, heads, seq, head_dim];
    assert(dims@ =~= seq![t.dims@[0], heads, t.dims@[1], head_dim]);
    let ghost f = heads_in_front(t.data@, heads as int, seq as int, head_dim as int);
    proof {
        lemma_elems_of_short(split@);
        lemma_elems_of_short(dims@);
        assert(b * seq * heads * head_dim == b * heads * seq * head_dim && ((b * seq) * heads)
            * head_dim == total) by (nonlinear_arith)
            requires
                b * seq * heads * head_dim == total,
        ;
    }
    let mut data: Vec<T> = Vec::with_capacity(total);
    if total == 0 {
        proof {
            let (m, w) = ((b * heads) * seq, head_dim as int);
            assert(w > 0 ==> m <= 0) by (nonlinear_arith)
                requires
                    m * w == 0,
            ;
        }
        return Ok(Tensor { dims, data });
    }
    proof {
        lemma_no_rows(head_dim as int, f);
        let n = (b * seq) * heads;
        assert(n <= n * head_dim && head_dim > 0 && n > 0) by (nonlinear_arith)
            requires
                n * head_dim > 0,
                n >= 0,
                head_dim >= 0,
                n == (b * seq) * heads,
        ;
        assert((b * heads) * seq == (b * seq) * heads) by (nonlinear_arith);
        assert(0 <= b * heads && 0 <= b * seq && b * heads <= (b * heads) * seq) by (nonlinear_arith)
            requires
                0 <= b,
                0 <= heads,
                0 <= seq,
                (b * heads) * seq > 0,
        ;
    }
    let all: usize = b * heads;
    assert(0 * seq == 0) by (nonlinear_arith);
    for bh in 0..all
        invariant
            all == b * heads,
            (b * seq) * heads <= usize::MAX,
            (b * heads) * seq == (b * seq) * heads,
            ((b * seq) * heads) * head_dim == total,
            total == t.data@.len(),
            head_dim > 0,
            f == heads_in_front(t.data@, heads as int, seq as int, head_dim as int),
            rowwise(data@, bh * seq, head_dim as int, f),
    {
        let ghost rows = (b * seq) * heads;
        proof {
            lemma_row_head(b as int, heads as int, bh as int);
            vstd::arithmetic::div_mod::lemma_mod_bound(bh as int, heads as int);
        }
        let (bi, h): (usize, usize) = (bh / heads, bh % heads);
        for s in 0..seq
            invariant
                bi < b,
                h < heads,
                bi == bh as int / heads as int,
                h == bh as int % heads as int,
                bh < b * heads,
                rows == (b * seq) * heads,
                rows <= usize::MAX,
                rows * head_dim == total,
                total == t.data@.len(),
                head_dim > 0,
                f == heads_in_front(t.data@, heads as int, seq as int, head_dim as int),
                rowwise(data@, bh * seq + s, head_dim as int, f),
        {
            proof {
                let r = bh * seq + s;
                vstd::arithmetic::div_mod::lemma_fundamental_div_mod_converse(
                    r,
                    seq as int,
                    bh as int,
                    s as int,
                );
                lemma_head_row(b as int, seq as int, heads as int, bi as int, s as int);
                lemma_head_row(b * seq, heads as int, head_dim as int, bi * seq + s, h as int);
                assert(0 <= bi * seq && 0 <= bh * seq) by (nonlinear_arith)
                    requires
                        0 <= bi,
                        0 <= bh,
                        0 <= seq,
                ;
                let p = bi * seq + s;
                assert(p <= p * heads) by (nonlinear_arith)
                    requires
                        0 <= p,
                        1 <= heads,
                ;
            }
            let from: usize = (bi * seq + s) * heads + h;
            let piece = span_of(&t.data, from, head_dim);
            let mut row = copy_run(piece);
            proof {
                lemma_row_appended(data@, row@, bh * seq + s, head_dim as int, f);
            }
            data.append(&mut row);
        }
        assert((bh + 1) * seq == bh * seq + seq) by (nonlinear_arith);
    }
    Ok(Tensor { dims, data })
}

/// Head `h` of position `s` of batch `b` stands at `[b, h, s]`, and came from `[b, s, h]`.
pub proof fn heads_move_in_front(heads: int, seq: int, b: int, h: int, s: int)
    requires
        0 <= b,
        0 <= h < heads,
        0 <= s < seq,
    ensures
        head_row(heads, seq, (b * heads + h) * seq + s) == (b * seq + s) * heads + h,
{
    let bh = b * heads + h;
    vstd::arithmetic::div_mod::lemma_fundamental_div_mod_converse(bh * seq + s, seq, bh, s);
    vstd::arithmetic::div_mod::lemma_fundamental_div_mod_converse(bh, heads, b, h);
}

// -- rotary embedding --

/// Which values of a head are turned together.
#[derive(Clone, Copy, PartialEq, Eq, Structural, Debug)]
pub enum Pairing {
    /// `(j, j + d / 2)`.
    Halves,
    /// `(2 j, 2 j + 1)`.
    Neighbours,
}

/// A row, each of its pairs turned by the angle whose cosine and sine stand at `base + j`.
///
/// A value without a partner becomes zero.
pub open spec fn turned<R: Real>(
    pairing: Pairing,
    x: Seq<R>,
    cos: Seq<R>,
    sin: Seq<R>,
    base: int,
) -> Seq<R> {
    let half = x.len() as int / 2;
    Seq::new(
        x.len(),
        |p: int|
            match pairing {
                Pairing::Halves => if p < half {
                    rsub(rmul(x[p], cos[base + p]), rmul(x[half + p], sin[base + p]))
                } else if p < 2 * half {
                    radd(
                        rmul(x[p], cos[base + (p - half)]),
                        rmul(x[p - half], sin[base + (p - half)]),
                    )
                } else {
                    rzero::<R>()
                },
                Pairing::Neighbours => if p >= 2 * half {
                    rzero::<R>()
                } else if p % 2 == 0 {
                    rsub(rmul(x[p], cos[base + p / 2]), rmul(x[p + 1], sin[base + p / 2]))
                } else {
                    radd(rmul(x[p - 1], sin[base + p / 2]), rmul(x[p], cos[base + p / 2]))
                },
            },
    )
}

/// The rows, row `r` turned by the angles of position `r % s`.
pub open spec fn turned_rows<R: Real>(
    pairing: Pairing,
    x: Seq<R>,
    cos: Seq<R>,
    sin: Seq<R>,
    s: int,
    d: int,
    per: int,
) -> spec_fn(int) -> Seq<R> {
    |r: int| turned(pairing, span(x, r, d), cos, sin, (r % s) * per)
}

/// The tables hold an angle for every pair of every position.
pub open spec fn tables_hold<R>(x: Tensor<R>, cos: Tensor<R>, sin: Tensor<R>) -> bool {
    x.dims@.len() == 4 && cos.dims@.len() > 0 && x.data@.len() > 0 && x.dims@[3] >= 2 ==> {
        let last = (x.dims@[2] - 1) * cos.dims@.last() + x.dims@[3] as int / 2;
        last <= cos.data@.len() && last <= sin.data@.len()
    }
}

/// What a rotation gives.
pub open spec fn rotates<R: Real>(
    pairing: Pairing,
    x: Tensor<R>,
    cos: Tensor<R>,
    sin: Tensor<R>,
    r: Result<Tensor<R>, Error>,
) -> bool {
    if x.dims@.len() != 4 {
        r == Err::<Tensor<R>, Error>(Error::Rank { want: 4, have: x.dims@.len() as usize })
    } else if cos.dims@.len() == 0 {
        r == Err::<Tensor<R>, Error>(Error::Rank { want: 1, have: 0 })
    } else {
        r is Ok && r->Ok_0.wf() && r->Ok_0.dims@ == x.dims@ && rowwise(
            r->Ok_0.data@,
            (x.dims@[0] * x.dims@[1]) * x.dims@[2],
            x.dims@[3] as int,
            turned_rows(
                pairing,
                x.data@,
                cos.data@,
                sin.data@,
                x.dims@[2] as int,
                x.dims@[3] as int,
                cos.dims@.last() as int,
            ),
        )
    }
}

/// A turned row.
fn turn_row<R: Real>(pairing: Pairing, x: &[R], cos: &[R], sin: &[R], base: usize) -> (out: Vec<R>)
    requires
        lawful::<R>(),
        base + x@.len() as int / 2 <= cos@.len(),
        base + x@.len() as int / 2 <= sin@.len(),
    ensures
        out@ == turned(pairing, x@, cos@, sin@, base as int),
{
    let (d, cs, ss): (usize, usize, usize) = (x.len(), cos.len(), sin.len());
    let half: usize = d / 2;
    let ghost want = turned(pairing, x@, cos@, sin@, base as int);
    let mut out: Vec<R> = Vec::with_capacity(d);
    for p in 0..d
        invariant
            lawful::<R>(),
            d == x@.len(),
            cs == cos@.len(),
            ss == sin@.len(),
            half == d as int / 2,
            base + half <= cs,
            base + half <= ss,
            want == turned(pairing, x@, cos@, sin@, base as int),
            out@.len() == p,
            forall|i: int| 0 <= i < p ==> #[trigger] out@[i] == want[i],
    {
        let v = match pairing {
            Pairing::Halves => if p < half {
                minus(times(x[p], cos[base + p]), times(x[half + p], sin[base + p]))
            } else if p < 2 * half {
                let j: usize = p - half;
                plus(times(x[p], cos[base + j]), times(x[j], sin[base + j]))
            } else {
                zero::<R>()
            },
            Pairing::Neighbours => if p >= 2 * half {
                zero::<R>()
            } else if p % 2 == 0 {
                let j: usize = p / 2;
                minus(times(x[p], cos[base + j]), times(x[p + 1], sin[base + j]))
            } else {
                let j: usize = p / 2;
                plus(times(x[p - 1], sin[base + j]), times(x[p], cos[base + j]))
            },
        };
        out.push(v);
    }
    assert(out@ =~= want);
    out
}

/// Turn the pairs of every head.
fn rotate<R: Real>(pairing: Pairing, x: &Tensor<R>, cos: &Tensor<R>, sin: &Tensor<R>) -> (r: Result<
    Tensor<R>,
    Error,
>)
    requires
        lawful::<R>(),
        x.wf(),
        cos.wf(),
        sin.wf(),
        tables_hold(*x, *cos, *sin),
    ensures
        rotates(pairing, *x, *cos, *sin, r),
{
    let rank: usize = x.dims.len();
    if rank != 4 {
        return Err(Error::Rank { want: 4, have: rank });
    }
    let per: usize = match cos.last() {
        Ok(n) => n,
        Err(e) => return Err(e),
    };
    let (s, d): (usize, usize) = (x.dims[2], x.dims[3]);
    let (total, cs): (usize, usize) = (x.data.len(), cos.data.len());
    let ghost rows = (x.dims@[0] * x.dims@[1]) * s;
    let ghost f = turned_rows(
        pairing,
        x.data@,
        cos.data@,
        sin.data@,
        s as int,
        d as int,
        per as int,
    );
    proof {
        lemma_elems_of_short(x.dims@);
        assert(rows * d == total);
    }
    let mut data: Vec<R> = Vec::with_capacity(total);
    if total == 0 {
        assert(d > 0 ==> rows <= 0) by (nonlinear_arith)
            requires
                rows * d == 0,
                0 <= d,
        ;
        return Ok(Tensor { dims: copy_run(&x.dims), data });
    }
    proof {
        lemma_no_rows(d as int, f);
        let bh = x.dims@[0] * x.dims@[1];
        assert(d > 0 && s > 0 && rows > 0) by (nonlinear_arith)
            requires
                rows * d > 0,
                rows == bh * s,
                bh >= 0,
                s >= 0,
                d >= 0,
        ;
        vstd::arithmetic::div_mod::lemma_div_multiples_vanish(rows, d as int);
        assert(d * rows == rows * d) by (nonlinear_arith);
    }
    let all: usize = total / d;
    for r in 0..all
        invariant
            lawful::<R>(),
            all * d == total,
            total == x.data@.len(),
            d > 0,
            s > 0,
            cs == cos.data@.len(),
            d >= 2 ==> (s - 1) * per + d as int / 2 <= cos.data@.len() && (s - 1) * per + d as int
                / 2 <= sin.data@.len(),
            f == turned_rows(
                pairing,
                x.data@,
                cos.data@,
                sin.data@,
                s as int,
                d as int,
                per as int,
            ),
            rowwise(data@, r as int, d as int, f),
    {
        assert((r + 1) * d <= all * d) by (nonlinear_arith)
            requires
                r + 1 <= all,
                0 <= d,
        ;
        let row = span_of(&x.data, r, d);
        let pos: usize = r % s;
        let mut out = if d >= 2 {
            assert(0 <= pos * per && pos * per <= (s - 1) * per) by (nonlinear_arith)
                requires
                    0 <= pos <= s - 1,
                    0 <= per,
            ;
            turn_row(pairing, row, &cos.data, &sin.data, pos * per)
        } else {
            let alone = turn_row(pairing, row, &cos.data, &sin.data, 0);
            assert(alone@ =~= f(r as int));
            alone
        };
        proof {
            lemma_row_appended(data@, out@, r as int, d as int, f);
        }
        data.append(&mut out);
    }
    Ok(Tensor { dims: copy_run(&x.dims), data })
}

/// Rotary embedding over the halves of a head: `x` is `[b, h, s, d]`, `cos` and `sin` are
/// `[>= s, d / 2]`, and the pairs `(j, j + d / 2)` are turned by `cos` and `sin` at `[s, j]`.
pub fn rope<R: Real>(x: &Tensor<R>, cos: &Tensor<R>, sin: &Tensor<R>) -> (r: Result<
    Tensor<R>,
    Error,
>)
    requires
        lawful::<R>(),
        x.wf(),
        cos.wf(),
        sin.wf(),
        tables_hold(*x, *cos, *sin),
    ensures
        rotates(Pairing::Halves, *x, *cos, *sin, r),
{
    rotate(Pairing::Halves, x, cos, sin)
}

/// Rotary embedding over neighbours: the pairs `(2 j, 2 j + 1)` are turned by `cos` and `sin` at
/// `[s, j]`.
pub fn rope_i<R: Real>(x: &Tensor<R>, cos: &Tensor<R>, sin: &Tensor<R>) -> (r: Result<
    Tensor<R>,
    Error,
>)
    requires
        lawful::<R>(),
        x.wf(),
        cos.wf(),
        sin.wf(),
        tables_hold(*x, *cos, *sin),
    ensures
        rotates(Pairing::Neighbours, *x, *cos, *sin, r),
{
    rotate(Pairing::Neighbours, x, cos, sin)
}

/// A row with its even values first and its odd values after them.
pub open spec fn evens_first<R>(x: Seq<R>) -> Seq<R> {
    let half = x.len() as int / 2;
    Seq::new(
        x.len(),
        |p: int|
            if p < half {
                x[2 * p]
            } else {
                x[2 * (p - half) + 1]
            },
    )
}

/// One row: turning neighbours is turning halves of the row with its even values first.
pub proof fn turned_neighbours_are_turned_halves<R: Real>(
    x: Seq<R>,
    cos: Seq<R>,
    sin: Seq<R>,
    base: int,
    j: int,
)
    requires
        sums_commute::<R>(),
        x.len() % 2 == 0,
        0 <= j < x.len() as int / 2,
    ensures
        turned(Pairing::Neighbours, x, cos, sin, base)[2 * j] == turned(
            Pairing::Halves,
            evens_first(x),
            cos,
            sin,
            base,
        )[j],
        turned(Pairing::Neighbours, x, cos, sin, base)[2 * j + 1] == turned(
            Pairing::Halves,
            evens_first(x),
            cos,
            sin,
            base,
        )[j + x.len() as int / 2],
{
    let half = x.len() as int / 2;
    let y = evens_first(x);
    assert((2 * j) / 2 == j && (2 * j) % 2 == 0);
    assert((2 * j + 1) / 2 == j && (2 * j + 1) % 2 == 1);
    assert(y[j] == x[2 * j]);
    assert(y[half + j] == x[2 * j + 1]);
    let (a, b) = (rmul(x[2 * j], sin[base + j]), rmul(x[2 * j + 1], cos[base + j]));
    assert(radd(a, b) == radd(b, a));
}

/// `rope_i` is `rope` on the permuted rows, wherever a sum does not depend on the order of its
/// terms: where `xp` is `x` with the even values of each row first, values `2 j` and `2 j + 1` of a
/// row of `rope_i(x)` are values `j` and `j + d / 2` of that row of `rope(xp)`.
pub proof fn interleaved_rotation_is_rotation<R: Real>(
    x: Tensor<R>,
    xp: Tensor<R>,
    cos: Tensor<R>,
    sin: Tensor<R>,
    t: Tensor<R>,
    y: Tensor<R>,
    r: int,
    j: int,
)
    requires
        sums_commute::<R>(),
        x.wf(),
        xp.wf(),
        x.dims@.len() == 4,
        cos.dims@.len() > 0,
        xp.dims@ == x.dims@,
        x.dims@[3] % 2 == 0,
        rowwise(
            xp.data@,
            (x.dims@[0] * x.dims@[1]) * x.dims@[2],
            x.dims@[3] as int,
            |q: int| evens_first(span(x.data@, q, x.dims@[3] as int)),
        ),
        rotates(Pairing::Neighbours, x, cos, sin, Ok(t)),
        rotates(Pairing::Halves, xp, cos, sin, Ok(y)),
        0 <= r < (x.dims@[0] * x.dims@[1]) * x.dims@[2],
        0 <= j < x.dims@[3] as int / 2,
    ensures
        t.data@[cell(x.dims@[3] as int, r, 2 * j)] == y.data@[cell(x.dims@[3] as int, r, j)],
        t.data@[cell(x.dims@[3] as int, r, 2 * j + 1)] == y.data@[cell(
            x.dims@[3] as int,
            r,
            j + x.dims@[3] as int / 2,
        )],
{
    let (s, d, per) = (x.dims@[2] as int, x.dims@[3] as int, cos.dims@.last() as int);
    let rows = (x.dims@[0] * x.dims@[1]) * x.dims@[2];
    let (row, prow) = (span(x.data@, r, d), span(xp.data@, r, d));
    lemma_elems_of_short(x.dims@);
    assert((r + 1) * d <= rows * d && 0 <= r * d && (r + 1) * d == r * d + d) by (nonlinear_arith)
        requires
            0 <= r,
            r + 1 <= rows,
            0 <= d,
    ;
    assert forall|p: int| 0 <= p < d implies prow[p] == evens_first(row)[p] by {
        assert(xp.data@[cell(d, r, p)] == evens_first(span(x.data@, r, d))[p]);
    }
    assert(prow =~= evens_first(row));
    let base = (r % s) * per;
    turned_neighbours_are_turned_halves(row, cos.data@, sin.data@, base, j);
    let f = turned_rows(Pairing::Neighbours, x.data@, cos.data@, sin.data@, s, d, per);
    let g = turned_rows(Pairing::Halves, xp.data@, cos.data@, sin.data@, s, d, per);
    assert(t.data@[cell(d, r, 2 * j)] == f(r)[2 * j]);
    assert(t.data@[cell(d, r, 2 * j + 1)] == f(r)[2 * j + 1]);
    assert(y.data@[cell(d, r, j)] == g(r)[j]);
    assert(y.data@[cell(d, r, j + d / 2)] == g(r)[j + d / 2]);
}

} // verus!
