//! iq2_xxs - 256 values at just over two bits each.
//!
//! A sub-block of thirty-two values is four groups of eight. A group is one point of a 256-entry
//! grid with one sign pattern; the four share a four-bit scale under the block's own. The seven
//! stored signs fix the eighth by parity: every pattern has an even number of negatives.
use vstd::prelude::*;
use crate::arith::{
    Half, Real, lawful, rabs, radd, rbits, rdiv, rhalf, rinf, rint, rlt, rmax, rmul, rneg, rround,
    rsub, rto_half, rzero, abs, from_bits, inf, int_to, lt, max, minus, narrow, nearest_int, neg,
    over, plus, times, widen, zero,
};
use crate::blocks::{BlockFormat, GgmlDType, Quantized, bit, bit_of};
use crate::coded::shared;
use crate::format::iq2_grid::IQ2XXS_GRID;
use crate::format::q8_k::BlockQ8K;
use crate::kfit::{Guided, crest_of, view_row};
use crate::scale::{clamp, clamped};
use crate::sums::{filled, fsum, isum};

verus! {

#[derive(Clone, Copy, Debug)]
pub struct BlockIq2Xxs {
    pub d: Half,
    pub qs: [u16; 32],
}

// -- the packed words --

/// Two sixteen-bit halves as one word, the first lowest.
pub open spec fn word_of(qs: Seq<u16>, at: int) -> int {
    qs[at] + 65536 * qs[at + 1]
}

/// Byte `l` of a word.
pub open spec fn byte_of(w: int, l: int) -> int {
    if l == 0 {
        w % 256
    } else if l == 1 {
        (w / 256) % 256
    } else if l == 2 {
        (w / 65536) % 256
    } else {
        w / 16777216
    }
}

/// Seven-bit field `l` of a word.
pub open spec fn seven_of(w: int, l: int) -> int {
    if l == 0 {
        w % 128
    } else if l == 1 {
        (w / 128) % 128
    } else if l == 2 {
        (w / 16384) % 128
    } else {
        (w / 2097152) % 128
    }
}

/// The grid point of group `l` of sub-block `s`.
pub open spec fn index_of(qs: Seq<u16>, s: int, l: int) -> int {
    byte_of(word_of(qs, 4 * s), l)
}

/// The sign selector of group `l` of sub-block `s`.
pub open spec fn selector_of(qs: Seq<u16>, s: int, l: int) -> int {
    seven_of(word_of(qs, 4 * s + 2), l)
}

/// The four-bit scale of sub-block `s`.
pub open spec fn level_of(qs: Seq<u16>, s: int) -> int {
    word_of(qs, 4 * s + 2) / 0x1000_0000
}

/// Value `k` of grid point `n`.
#[verifier::opaque]
pub open spec fn grid_of(n: int, k: int) -> int {
    let g = IQ2XXS_GRID@[n] as int;
    if k == 0 {
        g % 256
    } else if k == 1 {
        (g / 0x100) % 256
    } else if k == 2 {
        (g / 0x1_0000) % 256
    } else if k == 3 {
        (g / 0x100_0000) % 256
    } else if k == 4 {
        (g / 0x1_0000_0000) % 256
    } else if k == 5 {
        (g / 0x100_0000_0000) % 256
    } else if k == 6 {
        (g / 0x1_0000_0000_0000) % 256
    } else {
        g / 0x100_0000_0000_0000
    }
}

/// The eight values of grid point `n`.
pub fn grid_point(n: u8) -> (r: [u8; 8])
    ensures
        forall|k: int| 0 <= k < 8 ==> #[trigger] r@[k] == grid_of(n as int, k),
{
    reveal(grid_of);
    let g: u64 = IQ2XXS_GRID[n as usize];
    let r: [u8; 8] = [
        (g % 256) as u8,
        ((g / 0x100) % 256) as u8,
        ((g / 0x1_0000) % 256) as u8,
        ((g / 0x100_0000) % 256) as u8,
        ((g / 0x1_0000_0000) % 256) as u8,
        ((g / 0x100_0000_0000) % 256) as u8,
        ((g / 0x1_0000_0000_0000) % 256) as u8,
        (g / 0x100_0000_0000_0000) as u8,
    ];
    r
}

/// The number of bits set among the lowest seven.
pub open spec fn seven_count(i: u8) -> int {
    bit_of(i, 0) + bit_of(i, 1) + bit_of(i, 2) + bit_of(i, 3) + bit_of(i, 4) + bit_of(i, 5)
        + bit_of(i, 6)
}

/// Whether value `k` of a group is negative under selector `i`: bit `k`, or for the eighth value
/// whatever makes the count even.
pub open spec fn sign_bit(i: u8, k: int) -> int {
    if k < 7 {
        bit_of(i, k)
    } else {
        seven_count(i) % 2
    }
}

/// The eight signs of selector `i`, one bit each.
pub fn sign_bits(i: u8) -> (r: [u8; 8])
    ensures
        forall|k: int| 0 <= k < 8 ==> #[trigger] r@[k] == sign_bit(i, k),
        forall|k: int| 0 <= k < 8 ==> #[trigger] r@[k] <= 1,
{
    let (a, b, c, d) = (bit(i, 0), bit(i, 1), bit(i, 2), bit(i, 3));
    let (e, f, g) = (bit(i, 4), bit(i, 5), bit(i, 6));
    let r: [u8; 8] = [a, b, c, d, e, f, g, (a + b + c + d + e + f + g) % 2];
    r
}

/// The number of negatives in a group.
pub open spec fn negatives(n: Seq<bool>) -> int {
    isum(8, |k: int| if n[k] { 1 } else { 0 })
}

/// Every sign pattern has an even number of negatives.
pub proof fn sign_patterns_are_even(i: u8)
    ensures
        isum(8, |k: int| sign_bit(i, k)) % 2 == 0,
{
    reveal_with_fuel(isum, 9);
}

// -- what a block stands for --

/// One half, in the carrier.
pub open spec fn half_r<R: Real>() -> R {
    rbits::<R>(0x3F00_0000)
}

/// One quarter, in the carrier.
pub open spec fn quarter_r<R: Real>() -> R {
    rbits::<R>(0x3E80_0000)
}

/// The integer a value is a multiple of the sub-block scale by: its grid value, signed.
pub open spec fn signed_point(qs: Seq<u16>, e: int) -> int {
    let (s, l, k) = (e / 32, (e % 32) / 8, e % 8);
    let g = grid_of(index_of(qs, s, l), k);
    if sign_bit(selector_of(qs, s, l) as u8, k) == 1 {
        -g
    } else {
        g
    }
}

/// The factor of sub-block `s` under the block scale.
pub open spec fn sub_factor<R: Real>(level: int) -> R {
    rmul(radd(half_r::<R>(), rint(level as i32)), quarter_r::<R>())
}

/// The scale of sub-block `s`.
pub open spec fn sub_step<R: Real>(d: R, level: int) -> R {
    rmul(rmul(d, radd(half_r::<R>(), rint(level as i32))), quarter_r::<R>())
}

/// One, with the sign of value `e`.
pub open spec fn sign_r<R: Real>(negative: bool) -> R {
    if negative {
        rneg(rint::<R>(1))
    } else {
        rint::<R>(1)
    }
}

fn word(qs: &[u16; 32], at: usize) -> (w: u32)
    requires
        at + 2 <= 32,
    ensures
        w == word_of(qs@, at as int),
{
    qs[at] as u32 + 65536 * (qs[at + 1] as u32)
}

fn byte(w: u32, l: usize) -> (b: u8)
    requires
        l < 4,
    ensures
        b == byte_of(w as int, l as int),
{
    match l {
        0 => (w % 256) as u8,
        1 => ((w / 256) % 256) as u8,
        2 => ((w / 65536) % 256) as u8,
        _ => (w / 16777216) as u8,
    }
}

fn seven(w: u32, l: usize) -> (b: u8)
    requires
        l < 4,
    ensures
        b == seven_of(w as int, l as int),
        b < 128,
{
    match l {
        0 => (w % 128) as u8,
        1 => ((w / 128) % 128) as u8,
        2 => ((w / 16384) % 128) as u8,
        _ => ((w / 2097152) % 128) as u8,
    }
}

/// The thirty-two grid values of sub-block `s`, their signs as bits, and its four-bit scale.
pub fn sub_block(qs: &[u16; 32], s: usize) -> (r: ([u8; 32], [u8; 32], u8))
    requires
        s < 8,
    ensures
        forall|i: int|
            0 <= i < 32 ==> #[trigger] r.0@[i] == grid_of(index_of(qs@, s as int, i / 8), i % 8),
        forall|i: int|
            0 <= i < 32 ==> #[trigger] r.1@[i] == sign_bit(
                selector_of(qs@, s as int, i / 8) as u8,
                i % 8,
            ),
        forall|i: int| 0 <= i < 32 ==> #[trigger] r.1@[i] <= 1,
        r.2 == level_of(qs@, s as int),
        r.2 < 16,
{
    let lo = word(qs, 4 * s);
    let hi = word(qs, 4 * s + 2);
    let mut grid = [0u8; 32];
    let mut signs = [0u8; 32];
    for l in 0..4usize
        invariant
            s < 8,
            lo == word_of(qs@, 4 * s as int),
            hi == word_of(qs@, 4 * s + 2),
            forall|i: int|
                0 <= i < 8 * l ==> #[trigger] grid@[i] == grid_of(
                    index_of(qs@, s as int, i / 8),
                    i % 8,
                ),
            forall|i: int|
                0 <= i < 8 * l ==> #[trigger] signs@[i] == sign_bit(
                    selector_of(qs@, s as int, i / 8) as u8,
                    i % 8,
                ),
            forall|i: int| 0 <= i < 8 * l ==> #[trigger] signs@[i] <= 1,
    {
        let point = grid_point(byte(lo, l));
        let pattern = sign_bits(seven(hi, l));
        for k in 0..8usize
            invariant
                s < 8,
                l < 4,
                lo == word_of(qs@, 4 * s as int),
                hi == word_of(qs@, 4 * s + 2),
                forall|j: int|
                    0 <= j < 8 ==> #[trigger] point@[j] == grid_of(
                        index_of(qs@, s as int, l as int),
                        j,
                    ),
                forall|j: int|
                    0 <= j < 8 ==> #[trigger] pattern@[j] == sign_bit(
                        selector_of(qs@, s as int, l as int) as u8,
                        j,
                    ),
                forall|j: int| 0 <= j < 8 ==> #[trigger] pattern@[j] <= 1,
                forall|i: int|
                    0 <= i < 8 * l + k ==> #[trigger] grid@[i] == grid_of(
                        index_of(qs@, s as int, i / 8),
                        i % 8,
                    ),
                forall|i: int|
                    0 <= i < 8 * l + k ==> #[trigger] signs@[i] == sign_bit(
                        selector_of(qs@, s as int, i / 8) as u8,
                        i % 8,
                    ),
                forall|i: int| 0 <= i < 8 * l + k ==> #[trigger] signs@[i] <= 1,
        {
            grid[8 * l + k] = point[k];
            signs[8 * l + k] = pattern[k];
        }
    }
    (grid, signs, (hi / 0x1000_0000) as u8)
}

impl BlockIq2Xxs {
    /// What value `e` reconstructs to.
    pub open spec fn value_of<R: Real>(self, e: int) -> R {
        let (s, l, k) = (e / 32, (e % 32) / 8, e % 8);
        rmul(
            rmul(
                sub_step(rhalf::<R>(self.d), level_of(self.qs@, s)),
                rint(grid_of(index_of(self.qs@, s, l), k) as i32),
            ),
            sign_r(sign_bit(selector_of(self.qs@, s, l) as u8, k) == 1),
        )
    }
}

// -- the encoder --

/// What a value counts for.
pub open spec fn iq_weight<R: Real>(row: Option<Seq<R>>, e: int) -> R {
    match row {
        Some(m) => m[e],
        None => rint::<R>(1),
    }
}

/// The cheapest of the first `n` values of group `g` to get wrong, with its cost.
pub open spec fn cheapest<R: Real>(x: Seq<R>, row: Option<Seq<R>>, g: int, n: nat) -> (R, int)
    decreases n,
{
    if n == 0 {
        (rinf::<R>(), 0)
    } else {
        let best = cheapest(x, row, g, (n - 1) as nat);
        let e = 8 * g + n - 1;
        let cost = rmul(iq_weight(row, e), rabs(x[e]));
        if rlt(cost, best.0) {
            (cost, n - 1)
        } else {
            best
        }
    }
}

/// The signs of group `g` as they are.
pub open spec fn raw_signs<R: Real>(x: Seq<R>, g: int) -> Seq<bool> {
    Seq::new(8, |k: int| rlt(x[8 * g + k], rzero::<R>()))
}

/// The signs of group `g` as they are stored: with an odd count, the cheapest value's is flipped.
pub open spec fn kept_signs<R: Real>(x: Seq<R>, row: Option<Seq<R>>, g: int) -> Seq<bool> {
    let n = raw_signs(x, g);
    if negatives(n) % 2 == 1 {
        let at = cheapest(x, row, g, 8).1;
        n.update(at, !n[at])
    } else {
        n
    }
}

/// `sum of w * |x| * point` for group `g`.
pub open spec fn point_dot<R: Real>(x: Seq<R>, row: Option<Seq<R>>, g: int, n: int) -> R {
    fsum(
        8,
        |k: int|
            rmul(
                rmul(iq_weight(row, 8 * g + k), rabs(x[8 * g + k])),
                rint::<R>(grid_of(n, k) as i32),
            ),
    )
}

/// `sum of w * point * point` for group `g`.
pub open spec fn point_square<R: Real>(row: Option<Seq<R>>, g: int, n: int) -> R {
    fsum(
        8,
        |k: int|
            rmul(
                rmul(iq_weight(row, 8 * g + k), rint::<R>(grid_of(n, k) as i32)),
                rint::<R>(grid_of(n, k) as i32),
            ),
    )
}

/// `sum of w * |x| * |x|` for group `g`.
pub open spec fn value_square<R: Real>(x: Seq<R>, row: Option<Seq<R>>, g: int) -> R {
    fsum(
        8,
        |k: int|
            rmul(
                rmul(iq_weight(row, 8 * g + k), rabs(x[8 * g + k])),
                rabs(x[8 * g + k]),
            ),
    )
}

/// The part of a group's error at `scale` that depends on the grid point.
pub open spec fn point_error<R: Real>(dot: R, square: R, scale: R) -> R {
    rsub(rmul(rmul(scale, scale), square), rmul(rmul(rint::<R>(2), scale), dot))
}

/// The best of the first `n` grid points for a group, with the part of its error that depends on
/// the point.
pub open spec fn best_of<R: Real>(
    x: Seq<R>,
    row: Option<Seq<R>>,
    g: int,
    scale: R,
    n: nat,
) -> (R, int)
    decreases n,
{
    if n == 0 {
        (rinf::<R>(), 0)
    } else {
        let best = best_of(x, row, g, scale, (n - 1) as nat);
        let e = point_error(point_dot(x, row, g, n - 1), point_square(row, g, n - 1), scale);
        if rlt(e, best.0) {
            (e, n - 1)
        } else {
            best
        }
    }
}

/// The least error any grid point leaves group `g` at `scale`.
pub open spec fn group_error<R: Real>(x: Seq<R>, row: Option<Seq<R>>, g: int, scale: R) -> R {
    radd(value_square(x, row, g), best_of(x, row, g, scale, 256).0)
}

/// The largest magnitude among the first `n` values of sub-block `s`.
pub open spec fn sub_peak<R: Real>(x: Seq<R>, s: int, n: nat) -> R
    decreases n,
{
    if n == 0 {
        rzero::<R>()
    } else {
        rmax(sub_peak(x, s, (n - 1) as nat), rabs(x[32 * s + n - 1]))
    }
}

/// Candidate scale `step` of sub-block `s`: from 0.45 to 1.25 of what its largest value would need.
pub open spec fn iq_candidate<R: Real>(x: Seq<R>, s: int, step: int) -> R {
    let low = rbits::<R>(0x3EE6_6666);
    let high = rbits::<R>(0x3FA0_0000);
    let peak = radd(sub_peak(x, s, 32), rbits::<R>(0x0DA2_4260));
    let f = radd(
        low,
        rdiv(rmul(rsub(high, low), rint::<R>(step as i32)), rint::<R>(14)),
    );
    rdiv(rmul(peak, f), rint::<R>(43))
}

/// The error of a sub-block at candidate `step`.
pub open spec fn iq_error<R: Real>(x: Seq<R>, row: Option<Seq<R>>, s: int, step: int) -> R {
    fsum(4, |l: int| group_error(x, row, 4 * s + l, iq_candidate(x, s, step)))
}

/// The best of the first `n` candidates of sub-block `s`, with its error; zero before any wins.
pub open spec fn iq_scale<R: Real>(x: Seq<R>, row: Option<Seq<R>>, s: int, n: nat) -> (R, R)
    decreases n,
{
    if n == 0 {
        (rinf::<R>(), rzero::<R>())
    } else {
        let best = iq_scale(x, row, s, (n - 1) as nat);
        let e = iq_error(x, row, s, n - 1);
        if rlt(e, best.0) {
            (e, iq_candidate(x, s, n - 1))
        } else {
            best
        }
    }
}

/// The eight searched scales.
pub open spec fn iq_scales<R: Real>(x: Seq<R>, row: Option<Seq<R>>) -> Seq<R> {
    Seq::new(8, |s: int| iq_scale(x, row, s, 15).1)
}

/// The block scale: the largest sub-block scale on the widest four-bit level.
pub open spec fn iq_block_scale<R: Real>(x: Seq<R>, row: Option<Seq<R>>) -> R {
    rdiv(
        crest_of(iq_scales(x, row), 8),
        rmul(radd(half_r::<R>(), rint::<R>(15)), quarter_r::<R>()),
    )
}

/// The four-bit level of a scale under the block scale `d`.
pub open spec fn iq_level<R: Real>(d: R, scale: R) -> int {
    if rlt(rzero::<R>(), d) {
        clamped(
            rround(rsub(rdiv(scale, rmul(d, quarter_r::<R>())), half_r::<R>())) as int,
            0,
            15,
        )
    } else {
        0
    }
}

/// Block `b` is what `x` encodes to, under a row of importances or none: the grid points are picked
/// against the scale as it was rounded into the block.
pub open spec fn iq2_encodes<R: Real>(x: Seq<R>, row: Option<Seq<R>>, b: BlockIq2Xxs) -> bool {
    let d = rhalf::<R>(b.d);
    &&& b.d == rto_half(iq_block_scale(x, row))
    &&& forall|s: int|
        0 <= s < 8 ==> #[trigger] level_of(b.qs@, s) == iq_level(d, iq_scales(x, row)[s])
    &&& forall|s: int, l: int|
        0 <= s < 8 && 0 <= l < 4 ==> #[trigger] index_of(b.qs@, s, l) == best_of(
            x,
            row,
            4 * s + l,
            sub_step(d, level_of(b.qs@, s)),
            256,
        ).1
    &&& forall|s: int, l: int, k: int|
        0 <= s < 8 && 0 <= l < 4 && 0 <= k < 8 ==> #[trigger] sign_bit(
            selector_of(b.qs@, s, l) as u8,
            k,
        ) == (if kept_signs(x, row, 4 * s + l)[k] {
            1int
        } else {
            0int
        })
}

/// What a value counts for.
fn weight_at<R: Real>(row: Option<&[R]>, e: usize) -> (w: R)
    requires
        lawful::<R>(),
        e < 256,
        row matches Some(m) ==> m@.len() == 256,
    ensures
        w == iq_weight(view_row(row), e as int),
{
    match row {
        Some(m) => m[e],
        None => int_to::<R>(1),
    }
}

/// The number of negatives, as a count of eight.
fn count_negatives(n: &[bool; 8]) -> (c: u8)
    ensures
        c == negatives(n@),
{
    let ghost f = |k: int| if n@[k] { 1int } else { 0int };
    let mut c: u8 = 0;
    for k in 0..8usize
        invariant
            f == (|k: int| if n@[k] { 1int } else { 0int }),
            c == isum(k as nat, f),
            c <= k,
    {
        assert(f(k as int) == if n@[k as int] { 1int } else { 0int });
        if n[k] {
            c = c + 1;
        }
    }
    c
}

/// Flipping one sign changes the parity of the count.
proof fn lemma_flip(n: Seq<bool>, at: int)
    requires
        n.len() == 8,
        0 <= at < 8,
        negatives(n) % 2 == 1,
    ensures
        negatives(n.update(at, !n[at])) % 2 == 0,
{
    reveal_with_fuel(isum, 9);
    let m = n.update(at, !n[at]);
    assert(forall|k: int| 0 <= k < 8 && k != at ==> m[k] == n[k]);
}

/// The signs of group `g` as they are stored.
fn keep_signs<R: Real>(x: &[R], row: Option<&[R]>, g: usize) -> (r: [bool; 8])
    requires
        lawful::<R>(),
        g < 32,
        x@.len() == 256,
        row matches Some(m) ==> m@.len() == 256,
    ensures
        r@ == kept_signs(x@, view_row(row), g as int),
        negatives(r@) % 2 == 0,
{
    let ghost w = view_row(row);
    let mut n = [false; 8];
    let mut worst = inf::<R>();
    let mut worst_at: usize = 0;
    for k in 0..8usize
        invariant
            lawful::<R>(),
            g < 32,
            x@.len() == 256,
            w == view_row(row),
            row matches Some(m) ==> m@.len() == 256,
            forall|j: int| 0 <= j < k ==> #[trigger] n@[j] == raw_signs(x@, g as int)[j],
            (worst, worst_at as int) == cheapest(x@, w, g as int, k as nat),
            worst_at < 8,
    {
        let v = x[8 * g + k];
        n[k] = lt(v, zero::<R>());
        let cost = times(weight_at(row, 8 * g + k), abs(v));
        if lt(cost, worst) {
            worst = cost;
            worst_at = k;
        }
    }
    assert(n@ =~= raw_signs(x@, g as int));
    let odd: bool = count_negatives(&n) % 2 == 1;
    if odd {
        let ghost before = n@;
        n[worst_at] = !n[worst_at];
        proof {
            lemma_flip(before, worst_at as int);
            assert(n@ =~= before.update(worst_at as int, !before[worst_at as int]));
        }
    }
    n
}

/// The selector of eight signs whose count is even.
fn pack_signs(n: &[bool; 8]) -> (i: u8)
    requires
        negatives(n@) % 2 == 0,
    ensures
        i < 128,
        forall|k: int| 0 <= k < 8 ==> #[trigger] sign_bit(i, k) == (if n@[k] { 1int } else { 0int }),
{
    let v: [u8; 8] = [
        if n[0] { 1u8 } else { 0u8 },
        if n[1] { 1u8 } else { 0u8 },
        if n[2] { 1u8 } else { 0u8 },
        if n[3] { 1u8 } else { 0u8 },
        if n[4] { 1u8 } else { 0u8 },
        if n[5] { 1u8 } else { 0u8 },
        if n[6] { 1u8 } else { 0u8 },
        0u8,
    ];
    let i = crate::blocks::pack_bits(&v);
    proof {
        assert(forall|k: int| 0 <= k < 8 ==> bit_of(i, k) == #[trigger] v@[k]);
        assert(bit_of(i, 0) == v@[0] && bit_of(i, 1) == v@[1] && bit_of(i, 2) == v@[2] && bit_of(
            i,
            3,
        ) == v@[3] && bit_of(i, 4) == v@[4] && bit_of(i, 5) == v@[5] && bit_of(i, 6) == v@[6]
            && bit_of(i, 7) == v@[7]);
        assert(negatives(n@) == v@[0] + v@[1] + v@[2] + v@[3] + v@[4] + v@[5] + v@[6] + (
        if n@[7] { 1int } else { 0int })) by {
            reveal_with_fuel(isum, 9);
        }
        assert(i < 128) by {
            assert(bit_of(i, 7) == 0);
        }
    }
    i
}

/// Four bytes come apart again.
proof fn lemma_bytes(a: int, b: int, c: int, d: int)
    requires
        0 <= a < 256,
        0 <= b < 256,
        0 <= c < 256,
        0 <= d < 256,
    ensures
        ({
            let w = a + 256 * b + 65536 * c + 16777216 * d;
            &&& byte_of(w, 0) == a
            &&& byte_of(w, 1) == b
            &&& byte_of(w, 2) == c
            &&& byte_of(w, 3) == d
        }),
{
    let w = a + 256 * b + 65536 * c + 16777216 * d;
    vstd::arithmetic::div_mod::lemma_fundamental_div_mod_converse(w, 256, b + 256 * c + 65536 * d, a);
    vstd::arithmetic::div_mod::lemma_fundamental_div_mod_converse(b + 256 * c + 65536 * d, 256, c + 256 * d, b);
    vstd::arithmetic::div_mod::lemma_fundamental_div_mod_converse(w, 65536, c + 256 * d, a + 256 * b);
    vstd::arithmetic::div_mod::lemma_fundamental_div_mod_converse(c + 256 * d, 256, d, c);
    vstd::arithmetic::div_mod::lemma_fundamental_div_mod_converse(w, 16777216, d, a + 256 * b + 65536 * c);
}

/// Four seven-bit fields and a four-bit level come apart again.
proof fn lemma_sevens(a: int, b: int, c: int, d: int, level: int)
    requires
        0 <= a < 128,
        0 <= b < 128,
        0 <= c < 128,
        0 <= d < 128,
        0 <= level < 16,
    ensures
        ({
            let w = a + 128 * b + 16384 * c + 2097152 * d + 0x1000_0000 * level;
            &&& seven_of(w, 0) == a
            &&& seven_of(w, 1) == b
            &&& seven_of(w, 2) == c
            &&& seven_of(w, 3) == d
            &&& w / 0x1000_0000 == level
        }),
{
    let w = a + 128 * b + 16384 * c + 2097152 * d + 0x1000_0000 * level;
    let w1 = b + 128 * c + 16384 * d + 2097152 * level;
    let w2 = c + 128 * d + 16384 * level;
    let w3 = d + 128 * level;
    vstd::arithmetic::div_mod::lemma_fundamental_div_mod_converse(w, 128, w1, a);
    vstd::arithmetic::div_mod::lemma_fundamental_div_mod_converse(w1, 128, w2, b);
    vstd::arithmetic::div_mod::lemma_fundamental_div_mod_converse(w, 16384, w2, a + 128 * b);
    vstd::arithmetic::div_mod::lemma_fundamental_div_mod_converse(w2, 128, w3, c);
    vstd::arithmetic::div_mod::lemma_fundamental_div_mod_converse(w, 2097152, w3, a + 128 * b + 16384 * c);
    vstd::arithmetic::div_mod::lemma_fundamental_div_mod_converse(w3, 128, level, d);
    vstd::arithmetic::div_mod::lemma_fundamental_div_mod_converse(
        w,
        0x1000_0000,
        level,
        a + 128 * b + 16384 * c + 2097152 * d,
    );
}

/// What every grid point costs a group at a scale of one: the two terms that depend on the point.
struct GroupCosts<R> {
    dot: Vec<R>,
    square: Vec<R>,
    value: R,
}

spec fn costs_of<R: Real>(c: GroupCosts<R>, x: Seq<R>, row: Option<Seq<R>>, g: int) -> bool {
    &&& c.dot@.len() == 256
    &&& c.square@.len() == 256
    &&& c.value == value_square(x, row, g)
    &&& forall|n: int| 0 <= n < 256 ==> #[trigger] c.dot@[n] == point_dot(x, row, g, n)
    &&& forall|n: int| 0 <= n < 256 ==> #[trigger] c.square@[n] == point_square(row, g, n)
}

fn point_costs<R: Real>(x: &[R], row: Option<&[R]>, g: usize, n: u8) -> (r: (R, R))
    requires
        lawful::<R>(),
        g < 32,
        x@.len() == 256,
        row matches Some(m) ==> m@.len() == 256,
    ensures
        r.0 == point_dot(x@, view_row(row), g as int, n as int),
        r.1 == point_square(view_row(row), g as int, n as int),
{
    let ghost w = view_row(row);
    let point = grid_point(n);
    let ghost f = |k: int|
        rmul(
            rmul(iq_weight(w, 8 * g + k), rabs(x@[8 * g + k])),
            rint::<R>(grid_of(n as int, k) as i32),
        );
    let ghost h = |k: int|
        rmul(
            rmul(iq_weight(w, 8 * g + k), rint::<R>(grid_of(n as int, k) as i32)),
            rint::<R>(grid_of(n as int, k) as i32),
        );
    let mut d = zero::<R>();
    let mut q = zero::<R>();
    for k in 0..8usize
        invariant
            lawful::<R>(),
            g < 32,
            x@.len() == 256,
            w == view_row(row),
            row matches Some(m) ==> m@.len() == 256,
            forall|j: int| 0 <= j < 8 ==> #[trigger] point@[j] == grid_of(n as int, j),
            f == (|k: int|
                rmul(
                    rmul(iq_weight(w, 8 * g + k), rabs(x@[8 * g + k])),
                    rint::<R>(grid_of(n as int, k) as i32),
                )),
            h == (|k: int|
                rmul(
                    rmul(iq_weight(w, 8 * g + k), rint::<R>(grid_of(n as int, k) as i32)),
                    rint::<R>(grid_of(n as int, k) as i32),
                )),
            d == fsum(k as nat, f),
            q == fsum(k as nat, h),
    {
        let wt = weight_at(row, 8 * g + k);
        let p = int_to::<R>(point[k] as i32);
        let td = times(times(wt, abs(x[8 * g + k])), p);
        let tq = times(times(wt, p), p);
        assert(f(k as int) == td);
        assert(h(k as int) == tq);
        d = plus(d, td);
        q = plus(q, tq);
    }
    (d, q)
}

fn group_costs<R: Real>(x: &[R], row: Option<&[R]>, g: usize) -> (c: GroupCosts<R>)
    requires
        lawful::<R>(),
        g < 32,
        x@.len() == 256,
        row matches Some(m) ==> m@.len() == 256,
    ensures
        costs_of(c, x@, view_row(row), g as int),
{
    let ghost w = view_row(row);
    let ghost f = |k: int|
        rmul(rmul(iq_weight(w, 8 * g + k), rabs(x@[8 * g + k])), rabs(x@[8 * g + k]));
    let mut value = zero::<R>();
    for k in 0..8usize
        invariant
            lawful::<R>(),
            g < 32,
            x@.len() == 256,
            w == view_row(row),
            row matches Some(m) ==> m@.len() == 256,
            f == (|k: int|
                rmul(rmul(iq_weight(w, 8 * g + k), rabs(x@[8 * g + k])), rabs(x@[8 * g + k]))),
            value == fsum(k as nat, f),
    {
        let v = abs(x[8 * g + k]);
        let t = times(times(weight_at(row, 8 * g + k), v), v);
        assert(f(k as int) == t);
        value = plus(value, t);
    }
    let mut dot: Vec<R> = Vec::with_capacity(256);
    let mut square: Vec<R> = Vec::with_capacity(256);
    for n in 0..256usize
        invariant
            lawful::<R>(),
            g < 32,
            x@.len() == 256,
            w == view_row(row),
            row matches Some(m) ==> m@.len() == 256,
            dot@.len() == n,
            square@.len() == n,
            forall|j: int| 0 <= j < n ==> #[trigger] dot@[j] == point_dot(x@, w, g as int, j),
            forall|j: int| 0 <= j < n ==> #[trigger] square@[j] == point_square(w, g as int, j),
    {
        let (d, q) = point_costs(x, row, g, n as u8);
        dot.push(d);
        square.push(q);
    }
    GroupCosts { dot, square, value }
}

/// The grid point leaving a group the least error at `scale`, and the part of the error that
/// depends on it.
fn best_point<R: Real>(
    c: &GroupCosts<R>,
    Ghost(x): Ghost<Seq<R>>,
    Ghost(row): Ghost<Option<Seq<R>>>,
    Ghost(g): Ghost<int>,
    scale: R,
) -> (r: (R, u8))
    requires
        lawful::<R>(),
        costs_of(*c, x, row, g),
    ensures
        (r.0, r.1 as int) == best_of(x, row, g, scale, 256),
{
    let a = times(int_to::<R>(2), scale);
    let b = times(scale, scale);
    let mut best = inf::<R>();
    let mut at: u8 = 0;
    for n in 0..256usize
        invariant
            lawful::<R>(),
            costs_of(*c, x, row, g),
            a == rmul(rint::<R>(2), scale),
            b == rmul(scale, scale),
            (best, at as int) == best_of(x, row, g, scale, n as nat),
    {
        let e = minus(times(b, c.square[n]), times(a, c.dot[n]));
        if lt(e, best) {
            best = e;
            at = n as u8;
        }
    }
    (best, at)
}

/// The searched scale of sub-block `s`.
fn search_scale<R: Real>(
    x: &[R],
    Ghost(row): Ghost<Option<Seq<R>>>,
    costs: &Vec<GroupCosts<R>>,
    s: usize,
) -> (r: R)
    requires
        lawful::<R>(),
        s < 8,
        x@.len() == 256,
        costs@.len() == 32,
        forall|g: int| 0 <= g < 32 ==> costs_of(#[trigger] costs@[g], x@, row, g),
    ensures
        r == iq_scale(x@, row, s as int, 15).1,
{
    let mut peak = zero::<R>();
    for i in 0..32usize
        invariant
            lawful::<R>(),
            s < 8,
            x@.len() == 256,
            peak == sub_peak(x@, s as int, i as nat),
    {
        peak = max(peak, abs(x[32 * s + i]));
    }
    let peak = plus(peak, from_bits::<R>(0x0DA2_4260));
    let low = from_bits::<R>(0x3EE6_6666);
    let high = from_bits::<R>(0x3FA0_0000);
    let mut best = inf::<R>();
    let mut scale = zero::<R>();
    for step in 0..15usize
        invariant
            lawful::<R>(),
            s < 8,
            x@.len() == 256,
            costs@.len() == 32,
            forall|g: int| 0 <= g < 32 ==> costs_of(#[trigger] costs@[g], x@, row, g),
            peak == radd(sub_peak(x@, s as int, 32), rbits::<R>(0x0DA2_4260)),
            low == rbits::<R>(0x3EE6_6666),
            high == rbits::<R>(0x3FA0_0000),
            (best, scale) == iq_scale(x@, row, s as int, step as nat),
    {
        let f = plus(
            low,
            over(times(minus(high, low), int_to::<R>(step as i32)), int_to::<R>(14)),
        );
        let candidate = over(times(peak, f), int_to::<R>(43));
        let ghost e = |l: int|
            group_error(x@, row, 4 * s + l, iq_candidate(x@, s as int, step as int));
        let mut err = zero::<R>();
        for l in 0..4usize
            invariant
                lawful::<R>(),
                s < 8,
                costs@.len() == 32,
                forall|g: int| 0 <= g < 32 ==> costs_of(#[trigger] costs@[g], x@, row, g),
                candidate == iq_candidate(x@, s as int, step as int),
                e == (|l: int|
                    group_error(x@, row, 4 * s + l, iq_candidate(x@, s as int, step as int))),
                err == fsum(l as nat, e),
        {
            let g: usize = 4 * s + l;
            let (least, _at) = best_point(
                &costs[g],
                Ghost(x@),
                Ghost(row),
                Ghost(g as int),
                candidate,
            );
            let t = plus(costs[g].value, least);
            assert(e(l as int) == t) by {
                assert(costs_of(costs@[g as int], x@, row, g as int));
            }
            err = plus(err, t);
        }
        if lt(err, best) {
            best = err;
            scale = candidate;
        }
    }
    scale
}

/// The four words' halves of a sub-block.
fn pack_sub(idx: &[u8; 4], sel: &[u8; 4], level: u8) -> (r: [u16; 4])
    requires
        level < 16,
        forall|l: int| 0 <= l < 4 ==> #[trigger] sel@[l] < 128,
    ensures
        forall|l: int| 0 <= l < 4 ==> byte_of(word_of(r@, 0), l) == #[trigger] idx@[l],
        forall|l: int| 0 <= l < 4 ==> seven_of(word_of(r@, 2), l) == #[trigger] sel@[l],
        word_of(r@, 2) / 0x1000_0000 == level,
{
    let (a, b, c, d) = (idx[0] as u32, idx[1] as u32, idx[2] as u32, idx[3] as u32);
    let (e, f, g, h) = (sel[0] as u32, sel[1] as u32, sel[2] as u32, sel[3] as u32);
    let lo: u32 = a + 256 * b + 65536 * c + 16777216 * d;
    assert(e < 128 && f < 128 && g < 128 && h < 128) by {
        assert(sel@[0] < 128 && sel@[1] < 128 && sel@[2] < 128 && sel@[3] < 128);
    }
    let hi: u32 = e + 128 * f + 16384 * g + 2097152 * h + 0x1000_0000 * (level as u32);
    let r: [u16; 4] = [
        (lo % 65536) as u16,
        (lo / 65536) as u16,
        (hi % 65536) as u16,
        (hi / 65536) as u16,
    ];
    proof {
        assert(word_of(r@, 0) == lo);
        assert(word_of(r@, 2) == hi);
        lemma_bytes(a as int, b as int, c as int, d as int);
        lemma_sevens(e as int, f as int, g as int, h as int, level as int);
    }
    r
}

/// Quantise one block, optionally against a row of importances.
///
/// The scale of a sub-block is searched over a range around its largest magnitude, each candidate
/// scored by the error the best grid points would leave; the winning scales go through the block
/// scale and four bits apiece, and the grid points are picked again against what came out.
pub fn encode_block<R: Real>(x: &[R], row: Option<&[R]>) -> (b: BlockIq2Xxs)
    requires
        lawful::<R>(),
        x@.len() == 256,
        row matches Some(m) ==> m@.len() == 256,
    ensures
        iq2_encodes(x@, view_row(row), b),
{
    let ghost w = view_row(row);
    let mut costs: Vec<GroupCosts<R>> = Vec::with_capacity(32);
    for g in 0..32usize
        invariant
            lawful::<R>(),
            x@.len() == 256,
            w == view_row(row),
            row matches Some(m) ==> m@.len() == 256,
            costs@.len() == g,
            forall|j: int| 0 <= j < g ==> costs_of(#[trigger] costs@[j], x@, w, j),
    {
        let c = group_costs(x, row, g);
        costs.push(c);
    }
    let mut scales: Vec<R> = Vec::with_capacity(8);
    let mut top = zero::<R>();
    for s in 0..8usize
        invariant
            lawful::<R>(),
            x@.len() == 256,
            costs@.len() == 32,
            forall|g: int| 0 <= g < 32 ==> costs_of(#[trigger] costs@[g], x@, w, g),
            scales@.len() == s,
            forall|j: int| 0 <= j < s ==> #[trigger] scales@[j] == iq_scale(x@, w, j, 15).1,
            top == crest_of(iq_scales(x@, w), s as nat),
    {
        let v = search_scale(x, Ghost(w), &costs, s);
        top = max(v, top);
        scales.push(v);
    }
    let half = from_bits::<R>(0x3F00_0000);
    let quarter = from_bits::<R>(0x3E80_0000);
    let dh = narrow(over(top, times(plus(half, int_to::<R>(15)), quarter)));
    let d = widen::<R>(dh);
    let mut b = BlockIq2Xxs { d: dh, qs: [0; 32] };
    for s in 0..8usize
        invariant
            lawful::<R>(),
            x@.len() == 256,
            w == view_row(row),
            row matches Some(m) ==> m@.len() == 256,
            costs@.len() == 32,
            forall|g: int| 0 <= g < 32 ==> costs_of(#[trigger] costs@[g], x@, w, g),
            scales@.len() == 8,
            forall|j: int| 0 <= j < 8 ==> #[trigger] scales@[j] == iq_scale(x@, w, j, 15).1,
            half == half_r::<R>(),
            quarter == quarter_r::<R>(),
            b.d == dh,
            d == rhalf::<R>(dh),
            forall|j: int|
                0 <= j < s ==> #[trigger] level_of(b.qs@, j) == iq_level(d, iq_scales(x@, w)[j]),
            forall|j: int, l: int|
                0 <= j < s && 0 <= l < 4 ==> #[trigger] index_of(b.qs@, j, l) == best_of(
                    x@,
                    w,
                    4 * j + l,
                    sub_step(d, level_of(b.qs@, j)),
                    256,
                ).1,
            forall|j: int, l: int, k: int|
                0 <= j < s && 0 <= l < 4 && 0 <= k < 8 ==> #[trigger] sign_bit(
                    selector_of(b.qs@, j, l) as u8,
                    k,
                ) == (if kept_signs(x@, w, 4 * j + l)[k] {
                    1int
                } else {
                    0int
                }),
    {
        let level: u8 = if lt(zero::<R>(), d) {
            clamp(nearest_int(minus(over(scales[s], times(d, quarter)), half)), 0, 15) as u8
        } else {
            0
        };
        assert(scales@[s as int] == iq_scales(x@, w)[s as int]);
        let quantised = times(times(d, plus(half, int_to::<R>(level as i32))), quarter);
        let mut idx = [0u8; 4];
        let mut sel = [0u8; 4];
        for l in 0..4usize
            invariant
                lawful::<R>(),
                s < 8,
                x@.len() == 256,
                w == view_row(row),
                row matches Some(m) ==> m@.len() == 256,
                costs@.len() == 32,
                forall|g: int| 0 <= g < 32 ==> costs_of(#[trigger] costs@[g], x@, w, g),
                quantised == sub_step(d, level as int),
                forall|j: int|
                    0 <= j < l ==> #[trigger] idx@[j] == best_of(
                        x@,
                        w,
                        4 * s + j,
                        quantised,
                        256,
                    ).1,
                forall|j: int| 0 <= j < l ==> #[trigger] sel@[j] < 128,
                forall|j: int, k: int|
                    0 <= j < l && 0 <= k < 8 ==> #[trigger] sign_bit(sel@[j], k) == (
                    if kept_signs(x@, w, 4 * s + j)[k] {
                        1int
                    } else {
                        0int
                    }),
        {
            let g: usize = 4 * s + l;
            let (_least, at) = best_point(
                &costs[g],
                Ghost(x@),
                Ghost(w),
                Ghost(g as int),
                quantised,
            );
            let signs = keep_signs(x, row, g);
            let ghost before = sel@;
            idx[l] = at;
            sel[l] = pack_signs(&signs);
            assert forall|j: int, k: int| 0 <= j < l + 1 && 0 <= k < 8 implies #[trigger] sign_bit(
                sel@[j],
                k,
            ) == (if kept_signs(x@, w, 4 * s + j)[k] {
                1int
            } else {
                0int
            }) by {
                if j < l {
                    assert(sel@[j] == before[j]);
                    assert(sign_bit(before[j], k) == (if kept_signs(x@, w, 4 * s + j)[k] {
                        1int
                    } else {
                        0int
                    }));
                }
            }
        }
        let packed = pack_sub(&idx, &sel, level);
        let ghost old_qs = b.qs@;
        let at: usize = 4 * s;
        b.qs[at] = packed[0];
        b.qs[at + 1] = packed[1];
        b.qs[at + 2] = packed[2];
        b.qs[at + 3] = packed[3];
        proof {
            assert forall|j: int| 0 <= j < s implies word_of(b.qs@, 4 * j) == word_of(
                old_qs,
                4 * j,
            ) && #[trigger] word_of(b.qs@, 4 * j + 2) == word_of(old_qs, 4 * j + 2) by {}
            assert(word_of(b.qs@, 4 * s as int) == word_of(packed@, 0));
            assert(word_of(b.qs@, 4 * s + 2) == word_of(packed@, 2));
            assert forall|j: int| 0 <= j < s + 1 implies #[trigger] level_of(b.qs@, j) == iq_level(
                d,
                iq_scales(x@, w)[j],
            ) by {
                if j < s {
                    assert(word_of(b.qs@, 4 * j + 2) == word_of(old_qs, 4 * j + 2));
                    assert(level_of(old_qs, j) == iq_level(d, iq_scales(x@, w)[j]));
                }
            }
            assert forall|j: int, l: int| 0 <= j < s + 1 && 0 <= l < 4 implies #[trigger] index_of(
                b.qs@,
                j,
                l,
            ) == best_of(x@, w, 4 * j + l, sub_step(d, level_of(b.qs@, j)), 256).1 by {
                if j < s {
                    assert(word_of(b.qs@, 4 * j + 2) == word_of(old_qs, 4 * j + 2));
                    assert(index_of(old_qs, j, l) == best_of(
                        x@,
                        w,
                        4 * j + l,
                        sub_step(d, level_of(old_qs, j)),
                        256,
                    ).1);
                } else {
                    assert(byte_of(word_of(packed@, 0), l) == idx@[l]);
                }
            }
            assert forall|j: int, l: int, k: int|
                0 <= j < s + 1 && 0 <= l < 4 && 0 <= k < 8 implies #[trigger] sign_bit(
                selector_of(b.qs@, j, l) as u8,
                k,
            ) == (if kept_signs(x@, w, 4 * j + l)[k] {
                1int
            } else {
                0int
            }) by {
                if j < s {
                    assert(word_of(b.qs@, 4 * j + 2) == word_of(old_qs, 4 * j + 2));
                    assert(sign_bit(selector_of(old_qs, j, l) as u8, k) == (if kept_signs(
                        x@,
                        w,
                        4 * j + l,
                    )[k] {
                        1int
                    } else {
                        0int
                    }));
                } else {
                    assert(seven_of(word_of(packed@, 2), l) == sel@[l]);
                    assert(sign_bit(sel@[l], k) == (if kept_signs(x@, w, 4 * s + l)[k] {
                        1int
                    } else {
                        0int
                    }));
                }
            }
        }
    }
    b
}

impl<R: Real> Quantized<R> for BlockIq2Xxs {
    open spec fn width() -> nat {
        256
    }

    open spec fn value(self, e: int) -> R {
        self.value_of::<R>(e)
    }

    open spec fn encodes(x: Seq<R>, b: Self) -> bool {
        iq2_encodes(x, None, b)
    }

    open spec fn is_zero(self) -> bool {
        &&& self.d.bits == 0
        &&& forall|j: int| 0 <= j < 32 ==> #[trigger] self.qs@[j] == 0
    }

    fn block_len() -> usize {
        256
    }

    fn zeros() -> Self {
        proof {
            vstd::array::axiom_spec_array_fill_for_copy_type::<u16, 32>(0u16);
        }
        BlockIq2Xxs { d: Half::zero(), qs: [0; 32] }
    }

    fn decode_into(&self, ys: &mut [R], at: usize) {
        let ghost start = ys@;
        let total: usize = ys.len();
        let d: R = widen(self.d);
        let half = from_bits::<R>(0x3F00_0000);
        let quarter = from_bits::<R>(0x3E80_0000);
        let one = int_to::<R>(1);
        let minus_one = neg(one);
        for s in 0..8usize
            invariant
                lawful::<R>(),
                d == rhalf::<R>(self.d),
                half == half_r::<R>(),
                quarter == quarter_r::<R>(),
                one == rint::<R>(1),
                minus_one == rneg(rint::<R>(1)),
                total == ys@.len(),
                start.len() == total,
                at + 256 <= total,
                forall|i: int|
                    0 <= i < total ==> #[trigger] ys@[i] == (if at <= i < at + 32 * s {
                        self.value_of::<R>(i - at)
                    } else {
                        start[i]
                    }),
        {
            let (grid, signs, level) = sub_block(&self.qs, s);
            let db = times(times(d, plus(half, int_to::<R>(level as i32))), quarter);
            for i in 0..32usize
                invariant
                    lawful::<R>(),
                    s < 8,
                    db == sub_step(rhalf::<R>(self.d), level_of(self.qs@, s as int)),
                    one == rint::<R>(1),
                    minus_one == rneg(rint::<R>(1)),
                    forall|j: int|
                        0 <= j < 32 ==> #[trigger] grid@[j] == grid_of(
                            index_of(self.qs@, s as int, j / 8),
                            j % 8,
                        ),
                    forall|j: int|
                        0 <= j < 32 ==> #[trigger] signs@[j] == sign_bit(
                            selector_of(self.qs@, s as int, j / 8) as u8,
                            j % 8,
                        ),
                    total == ys@.len(),
                    start.len() == total,
                    at + 256 <= total,
                    forall|j: int|
                        0 <= j < total ==> #[trigger] ys@[j] == (if at <= j < at + 32 * s + i {
                            self.value_of::<R>(j - at)
                        } else {
                            start[j]
                        }),
            {
                let sign = if signs[i] == 1 {
                    minus_one
                } else {
                    one
                };
                let ghost e = 32 * s + i;
                assert(e / 32 == s && e % 32 == i && e % 8 == i as int % 8);
                ys[at + 32 * s + i] = times(times(db, int_to::<R>(grid[i] as i32)), sign);
            }
        }
    }

    fn encode_block(x: &[R]) -> Self {
        encode_block(x, None)
    }
}

impl<R: Real> Guided<R> for BlockIq2Xxs {
    open spec fn encodes_guided(x: Seq<R>, w: Seq<R>, b: Self) -> bool {
        iq2_encodes(x, Some(w), b)
    }

    fn encode_guided(x: &[R], w: &[R]) -> Self {
        encode_block(x, Some(w))
    }
}

// -- the dot product --

/// The integer product of sub-block `s`: grid values against activations, the signs moved onto the
/// activations.
pub open spec fn iq_sub_dot(qs: Seq<u16>, y: Seq<i8>, s: int) -> int {
    isum(32, |i: int| signed_point(qs, 32 * s + i) * y[32 * s + i])
}

/// One block: the sub-block factors applied to exact integers, then both block scales.
pub open spec fn iq_term<R: Real>(x: BlockIq2Xxs, y: BlockQ8K<R>) -> R {
    let acc = fsum(
        8,
        |s: int| rmul(sub_factor::<R>(level_of(x.qs@, s)), rint(iq_sub_dot(x.qs@, y.qs@, s) as i32)),
    );
    rmul(rmul(rhalf::<R>(x.d), y.d), acc)
}

/// One block by way of its reconstructed values.
pub open spec fn iq_plain_term<R: Real>(x: BlockIq2Xxs, y: BlockQ8K<R>) -> R {
    rmul(y.d, fsum(256, |e: int| rmul(x.value_of::<R>(e), rint(y.qs@[e] as i32))))
}

/// A value's place in its sub-block names its group and its place in the group.
proof fn lemma_signed_point(qs: Seq<u16>, s: int, i: int)
    requires
        0 <= s < 8,
        0 <= i < 32,
    ensures
        signed_point(qs, 32 * s + i) == (if sign_bit(selector_of(qs, s, i / 8) as u8, i % 8) == 1 {
            -grid_of(index_of(qs, s, i / 8), i % 8)
        } else {
            grid_of(index_of(qs, s, i / 8), i % 8)
        }),
{
    let e = 32 * s + i;
    assert(e / 32 == s && e % 32 == i && e % 8 == i % 8);
}

/// The integer product of one sub-block.
fn sub_block_dot(qs: &[u16; 32], grid: &[u8; 32], signs: &[u8; 32], y: &[i8; 256], s: usize) -> (r:
    i32)
    requires
        s < 8,
        forall|j: int|
            0 <= j < 32 ==> #[trigger] grid@[j] == grid_of(index_of(qs@, s as int, j / 8), j % 8),
        forall|j: int|
            0 <= j < 32 ==> #[trigger] signs@[j] == sign_bit(
                selector_of(qs@, s as int, j / 8) as u8,
                j % 8,
            ),
    ensures
        r == iq_sub_dot(qs@, y@, s as int),
{
    let ghost f = |i: int| signed_point(qs@, 32 * s + i) * y@[32 * s + i];
    let mut sum: i32 = 0;
    for i in 0..32usize
        invariant
            s < 8,
            forall|j: int|
                0 <= j < 32 ==> #[trigger] grid@[j] == grid_of(
                    index_of(qs@, s as int, j / 8),
                    j % 8,
                ),
            forall|j: int|
                0 <= j < 32 ==> #[trigger] signs@[j] == sign_bit(
                    selector_of(qs@, s as int, j / 8) as u8,
                    j % 8,
                ),
            f == (|i: int| signed_point(qs@, 32 * s + i) * y@[32 * s + i]),
            sum == isum(i as nat, f),
            -32768 * i <= sum <= 32768 * i,
    {
        let g: i32 = if signs[i] == 1 {
            -(grid[i] as i32)
        } else {
            grid[i] as i32
        };
        let a: i32 = y[32 * s + i] as i32;
        assert(-32768 <= g * a <= 32768) by (nonlinear_arith)
            requires
                -255 <= g <= 255,
                -128 <= a <= 127,
        ;
        proof {
            lemma_signed_point(qs@, s as int, i as int);
        }
        assert(f(i as int) == g * a);
        sum = sum + g * a;
    }
    sum
}

fn dot_block<R: Real>(x: &BlockIq2Xxs, y: &BlockQ8K<R>) -> (r: R)
    requires
        lawful::<R>(),
    ensures
        r == iq_term::<R>(*x, *y),
{
    let half = from_bits::<R>(0x3F00_0000);
    let quarter = from_bits::<R>(0x3E80_0000);
    let ghost f = |s: int|
        rmul(sub_factor::<R>(level_of(x.qs@, s)), rint(iq_sub_dot(x.qs@, y.qs@, s) as i32));
    let mut acc = zero::<R>();
    for s in 0..8usize
        invariant
            lawful::<R>(),
            half == half_r::<R>(),
            quarter == quarter_r::<R>(),
            f == (|s: int|
                rmul(sub_factor::<R>(level_of(x.qs@, s)), rint(iq_sub_dot(x.qs@, y.qs@, s) as i32))),
            acc == fsum(s as nat, f),
    {
        let (grid, signs, level) = sub_block(&x.qs, s);
        let factor = times(plus(half, int_to::<R>(level as i32)), quarter);
        let sum = sub_block_dot(&x.qs, &grid, &signs, &y.qs, s);
        assert(f(s as int) == rmul(factor, rint(sum)));
        acc = plus(acc, times(factor, int_to(sum)));
    }
    times(times(widen(x.d), y.d), acc)
}

impl<R: Real> BlockFormat<R> for BlockIq2Xxs {
    type ActivationBlock = BlockQ8K<R>;

    open spec fn dtype_of() -> GgmlDType {
        GgmlDType::Iq2Xxs
    }

    open spec fn dot_of(xs: Seq<Self>, ys: Seq<BlockQ8K<R>>) -> R {
        fsum(shared(xs.len(), ys.len()), |b: int| iq_term::<R>(xs[b], ys[b]))
    }

    open spec fn dot_scalar_of(xs: Seq<Self>, ys: Seq<BlockQ8K<R>>) -> R {
        fsum(shared(xs.len(), ys.len()), |b: int| iq_plain_term::<R>(xs[b], ys[b]))
    }

    fn dtype() -> GgmlDType {
        GgmlDType::Iq2Xxs
    }

    fn dot(xs: &[Self], ys: &[BlockQ8K<R>]) -> (r: R) {
        let n: usize = if xs.len() <= ys.len() { xs.len() } else { ys.len() };
        let ghost f = |b: int| iq_term::<R>(xs@[b], ys@[b]);
        let mut acc = zero::<R>();
        for b in 0..n
            invariant
                lawful::<R>(),
                n == shared(xs@.len(), ys@.len()),
                f == (|b: int| iq_term::<R>(xs@[b], ys@[b])),
                acc == fsum(b as nat, f),
        {
            let term = dot_block(&xs[b], &ys[b]);
            assert(f(b as int) == term);
            acc = plus(acc, term);
        }
        acc
    }

    fn dot_scalar(xs: &[Self], ys: &[BlockQ8K<R>]) -> (r: R) {
        let n: usize = if xs.len() <= ys.len() { xs.len() } else { ys.len() };
        let ghost f = |b: int| iq_plain_term::<R>(xs@[b], ys@[b]);
        let mut acc = zero::<R>();
        for b in 0..n
            invariant
                lawful::<R>(),
                n == shared(xs@.len(), ys@.len()),
                f == (|b: int| iq_plain_term::<R>(xs@[b], ys@[b])),
                acc == fsum(b as nat, f),
        {
            let mut w: Vec<R> = filled(zero::<R>(), 256);
            xs[b].decode_into(&mut w, 0);
            let ghost g = |e: int|
                rmul(xs@[b as int].value_of::<R>(e), rint(ys@[b as int].qs@[e] as i32));
            let mut s = zero::<R>();
            for e in 0..256usize
                invariant
                    lawful::<R>(),
                    b < xs@.len(),
                    b < ys@.len(),
                    w@.len() == 256,
                    forall|i: int|
                        0 <= i < 256 ==> #[trigger] w@[i] == xs@[b as int].value_of::<R>(i),
                    g == (|e: int|
                        rmul(xs@[b as int].value_of::<R>(e), rint(ys@[b as int].qs@[e] as i32))),
                    s == fsum(e as nat, g),
            {
                let t = times(w[e], int_to(ys[b].qs[e] as i32));
                assert(g(e as int) == t);
                s = plus(s, t);
            }
            let term = times(ys[b].d, s);
            assert(f(b as int) == term);
            acc = plus(acc, term);
        }
        acc
    }
}

} // verus!
