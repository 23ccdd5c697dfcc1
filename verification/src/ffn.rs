//! The dense feed-forward block of one token, as one piece of work.
//!
//! Norm, gate and up projections, activation, down projection and residual follow one another;
//! each phase is a set of independent items, so workers may share a phase and meet before the
//! next. What the block computes does not depend on how the items were shared: it is the
//! sequence of phases below, each stated over the whole of the one before.
use vstd::prelude::*;
use crate::arith::{Real, lawful, radd, rmul, plus, times};
use crate::blocks::{BlockFormat, GgmlDType, Quantized};
use crate::dispatch::{Everywhere, Job, Work, owed, supports, with_blocks};
use crate::error::Error;
use crate::layout::{Stored, cast_blocks, run_laid};
use crate::matmul::{copy_over, dot_columns, product_fits};
use crate::tiled::{quantised, quantize_all, span};

verus! {

/// The norm a block starts with.
pub trait NormFn<R: Real> {
    /// The normalised row.
    spec fn normed(&self, x: Seq<R>) -> Seq<R>;

    fn norm(&self, x: &[R]) -> (out: Vec<R>)
        requires
            lawful::<R>(),
        ensures
            out@ == self.normed(x@),
            out@.len() == x@.len(),
    ;
}

/// What a gate value and an up value become.
pub trait GateFn<R: Real> {
    spec fn gated(&self, g: R, u: R) -> R;

    fn gate(&self, g: R, u: R) -> (r: R)
        requires
            lawful::<R>(),
        ensures
            r == self.gated(g, u),
    ;
}

/// The types whose blocks are the values themselves.
pub open spec fn verbatim(t: GgmlDType) -> bool {
    t == GgmlDType::F32 || t == GgmlDType::F16 || t == GgmlDType::BF16
}

/// Whether a type's blocks are the values themselves.
pub fn copies_verbatim(t: GgmlDType) -> (r: bool)
    ensures
        r == verbatim(t),
{
    matches!(t, GgmlDType::F32 | GgmlDType::F16 | GgmlDType::BF16)
}

/// `r` is what reading the bytes gives.
pub open spec fn cast_is<R: Real, T: Stored<R>>(bytes: Seq<u8>, r: Result<Vec<T>, Error>) -> bool {
    match r {
        Ok(blocks) => run_laid::<R, T>(bytes, blocks@),
        Err(e) => bytes.len() as int % T::size() as int != 0 && e == (Error::Bytes {
            len: bytes.len() as usize,
            size: T::size() as usize,
        }),
    }
}

/// What the phases leave behind.
pub struct Phases<R> {
    pub norm: Vec<R>,
    pub gu: Vec<R>,
    pub act: Vec<R>,
    pub x: Vec<R>,
}

/// The block, its gate and up weights read.
pub struct Block<'a, R, TG, N, G> {
    pub x: &'a [R],
    pub inter: usize,
    pub gate: Option<&'a Result<Vec<TG>, Error>>,
    pub up: &'a Result<Vec<TG>, Error>,
    pub down: &'a [u8],
    pub scale: Option<R>,
    pub norm: &'a N,
    pub act: &'a G,
}

/// Each phase left as much as it should.
pub open spec fn sized<R>(o: Phases<R>, hidden: int, inter: int) -> bool {
    o.norm@.len() == hidden && o.gu@.len() == 2 * inter && o.act@.len() == inter && o.x@.len()
        == hidden
}

/// The weights column `c` of gate and up projections is taken from.
pub open spec fn gu_column<TG>(
    gate: Option<Seq<TG>>,
    up: Seq<TG>,
    inter: int,
    kb: int,
    c: int,
) -> Seq<TG> {
    match gate {
        Some(g) => if c < inter {
            span(g, c, kb)
        } else {
            span(up, c - inter, kb)
        },
        None => span(up, c, kb),
    }
}

/// A value of the down projection, scaled where the residual asks for it.
pub open spec fn residual<R: Real>(v: R, scale: Option<R>) -> R {
    match scale {
        Some(s) => rmul(v, s),
        None => v,
    }
}

/// The phases, over the weights they read.
pub open spec fn phases_hold<
    R: Real,
    TG: BlockFormat<R>,
    TD: BlockFormat<R>,
    N: NormFn<R>,
    G: GateFn<R>,
>(
    x: Seq<R>,
    inter: int,
    gate: Option<Seq<TG>>,
    up: Seq<TG>,
    down: Seq<TD>,
    scale: Option<R>,
    norm: N,
    act: G,
    o: Phases<R>,
    aq_g: Seq<TG::ActivationBlock>,
    aq_d: Seq<TD::ActivationBlock>,
) -> bool {
    let kb_g = x.len() as int / TG::width() as int;
    let kb_d = inter / TD::width() as int;
    &&& sized(o, x.len() as int, inter)
    &&& o.norm@ == norm.normed(x)
    &&& quantised::<R, TG::ActivationBlock>(o.norm@, aq_g)
    &&& forall|c: int|
        0 <= c < 2 * inter ==> #[trigger] o.gu@[c] == TG::dot_of(
            gu_column(gate, up, inter, kb_g, c),
            aq_g,
        )
    &&& forall|i: int|
        0 <= i < inter ==> #[trigger] o.act@[i] == act.gated(o.gu@[i], o.gu@[inter + i])
    &&& quantised::<R, TD::ActivationBlock>(o.act@, aq_d)
    &&& forall|c: int|
        0 <= c < x.len() ==> #[trigger] o.x@[c] == radd(
            x[c],
            residual(TD::dot_of(span(down, c, kb_d), aq_d), scale),
        )
}

/// Whether the block can be run over these weights, or what is wrong with their bytes.
pub open spec fn verdict<R: Real, TG: Stored<R>, TD: Stored<R>, N, G>(
    b: Block<R, TG, N, G>,
) -> Result<bool, Error> {
    let hidden = b.x@.len() as int;
    let inter = b.inter as int;
    let kb_g = hidden / TG::width() as int;
    let kb_d = inter / TD::width() as int;
    let size = TD::size() as int;
    let rows = match b.gate {
        Some(_) => inter,
        None => 2 * inter,
    };
    if 2 * inter > usize::MAX || hidden % TG::width() as int != 0 || inter % TD::width() as int != 0 || verbatim(
        TG::dtype_of(),
    ) || verbatim(TD::dtype_of()) {
        Ok(false)
    } else {
        match (b.gate, b.up) {
            (Some(Err(e)), _) => Err(*e),
            (_, Err(e)) => Err(*e),
            (g, Ok(u)) => if b.down@.len() as int % size != 0 {
                Err(Error::Bytes { len: b.down@.len() as usize, size: size as usize })
            } else {
                Ok(
                    u@.len() == rows * kb_g && (match g {
                        Some(Ok(v)) => v@.len() == inter * kb_g,
                        _ => true,
                    }) && b.down@.len() as int / size == hidden * kb_d,
                )
            },
        }
    }
}

/// The blocks of a gate that was read.
pub open spec fn gate_blocks<TG>(g: Option<&Result<Vec<TG>, Error>>) -> Option<Seq<TG>> {
    match g {
        Some(Ok(v)) => Some(v@),
        _ => None,
    }
}

/// The blocks of an up projection that was read.
pub open spec fn read_blocks<TG>(r: &Result<Vec<TG>, Error>) -> Seq<TG> {
    match r {
        Ok(v) => v@,
        _ => Seq::empty(),
    }
}

/// The block was run, over some reading of its down weights.
pub open spec fn ran<R: Real, TG: Stored<R>, TD: Stored<R>, N: NormFn<R>, G: GateFn<R>>(
    b: Block<R, TG, N, G>,
    o: Phases<R>,
) -> bool {
    exists|down: Seq<TD>, aq_g: Seq<TG::ActivationBlock>, aq_d: Seq<TD::ActivationBlock>|
        run_laid::<R, TD>(b.down@, down) && #[trigger] phases_hold::<R, TG, TD, N, G>(
            b.x@,
            b.inter as int,
            gate_blocks(b.gate),
            read_blocks(b.up),
            down,
            b.scale,
            *b.norm,
            *b.act,
            o,
            aq_g,
            aq_d,
        )
}

impl<'a, R: Real, TG: Stored<R>, N: NormFn<R>, G: GateFn<R>> Work<R> for Block<'a, R, TG, N, G> {
    type Out = Result<Option<Phases<R>>, Error>;
}

/// Whether `a * b * c` is `d`.
fn product3_is(a: usize, b: usize, c: usize, d: usize) -> (r: bool)
    ensures
        r == ((a * b) * c == d),
{
    match product_fits(a, b) {
        Some(p) => match product_fits(p, c) {
            Some(q) => q == d,
            None => false,
        },
        None => {
            assert((a * b) * c == d ==> c == 0 && d == 0) by (nonlinear_arith)
                requires
                    a * b > usize::MAX,
                    0 <= d <= usize::MAX,
                    0 <= c,
            ;
            assert((a * b) * 0 == 0) by (nonlinear_arith);
            c == 0 && d == 0
        },
    }
}

impl<'a, R: Real, TG: Stored<R>, TD: Stored<R>, N: NormFn<R>, G: GateFn<R>> Job<R, TD> for Block<
    'a,
    R,
    TG,
    N,
    G,
> {
    open spec fn owes(self, out: Result<Option<Phases<R>>, Error>) -> bool {
        match out {
            Err(e) => verdict::<R, TG, TD, N, G>(self) == Err::<bool, Error>(e),
            Ok(None) => verdict::<R, TG, TD, N, G>(self) == Ok::<bool, Error>(false),
            Ok(Some(o)) => verdict::<R, TG, TD, N, G>(self) == Ok::<bool, Error>(true) && sized(
                o,
                self.x@.len() as int,
                self.inter as int,
            ) && ran::<R, TG, TD, N, G>(self, o),
        }
    }

    fn run(&self) -> Result<Option<Phases<R>>, Error> {
        let hidden: usize = self.x.len();
        let inter: usize = self.inter;
        let wg: usize = TG::block_len();
        let wd: usize = TD::block_len();
        if inter > usize::MAX / 2 || hidden % wg != 0 || inter % wd != 0 || copies_verbatim(TG::dtype()) || copies_verbatim(
            TD::dtype(),
        ) {
            return Ok(None);
        }
        if let Some(Err(e)) = self.gate {
            return Err(*e);
        }
        let up: &Vec<TG> = match self.up {
            Ok(u) => u,
            Err(e) => {
                return Err(*e);
            },
        };
        let down: Vec<TD> = match cast_blocks::<R, TD>(self.down) {
            Ok(d) => d,
            Err(e) => {
                return Err(e);
            },
        };
        let size: usize = TD::byte_len();
        let have: usize = down.len();
        proof {
            vstd::arithmetic::div_mod::lemma_div_multiples_vanish(have as int, size as int);
            assert(have * size == size * have) by (nonlinear_arith);
        }
        let kb_g: usize = hidden / wg;
        let kb_d: usize = inter / wd;
        let gate_ok = match self.gate {
            Some(Ok(g)) => product3_is(1, inter, kb_g, g.len()) && product3_is(
                1,
                inter,
                kb_g,
                up.len(),
            ),
            _ => product3_is(2, inter, kb_g, up.len()),
        };
        if !gate_ok || !product3_is(1, hidden, kb_d, have) {
            return Ok(None);
        }
        assert(verdict::<R, TG, TD, N, G>(*self) == Ok::<bool, Error>(true));
        let o = run_phases::<R, TG, TD, N, G>(self, up, &down, kb_g, kb_d);
        proof {
            let (aq_g, aq_d) = choose|
                aq_g: Seq<TG::ActivationBlock>,
                aq_d: Seq<TD::ActivationBlock>,
            |
                #![trigger quantised::<R, TG::ActivationBlock>(o.norm@, aq_g), quantised::<R, TD::ActivationBlock>(o.act@, aq_d)]
                phases_hold::<R, TG, TD, N, G>(
                    self.x@,
                    self.inter as int,
                    gate_blocks(self.gate),
                    up@,
                    down@,
                    self.scale,
                    *self.norm,
                    *self.act,
                    o,
                    aq_g,
                    aq_d,
                );
            assert(read_blocks(self.up) == up@);
            assert(run_laid::<R, TD>(self.down@, down@));
            assert(quantised::<R, TG::ActivationBlock>(o.norm@, aq_g));
            assert(quantised::<R, TD::ActivationBlock>(o.act@, aq_d));
            assert(phases_hold::<R, TG, TD, N, G>(
                self.x@,
                self.inter as int,
                gate_blocks(self.gate),
                read_blocks(self.up),
                down@,
                self.scale,
                *self.norm,
                *self.act,
                o,
                aq_g,
                aq_d,
            ));
            assert(ran::<R, TG, TD, N, G>(*self, o));
        }
        Ok(Some(o))
    }
}

/// Run the phases over weights that fit.
fn run_phases<R: Real, TG: Stored<R>, TD: Stored<R>, N: NormFn<R>, G: GateFn<R>>(
    b: &Block<R, TG, N, G>,
    up: &Vec<TG>,
    down: &Vec<TD>,
    kb_g: usize,
    kb_d: usize,
) -> (o: Phases<R>)
    requires
        lawful::<R>(),
        b.up matches Ok(u) && u@ == up@,
        !(b.gate matches Some(Err(_))),
        b.x@.len() as int % TG::width() as int == 0,
        b.inter as int % TD::width() as int == 0,
        kb_g == b.x@.len() as int / TG::width() as int,
        kb_d == b.inter as int / TD::width() as int,
        match b.gate {
            Some(Ok(g)) => g@.len() == b.inter * kb_g && up@.len() == b.inter * kb_g,
            _ => up@.len() == (2 * b.inter) * kb_g,
        },
        down@.len() == b.x@.len() * kb_d,
        2 * b.inter <= usize::MAX,
    ensures
        exists|aq_g: Seq<TG::ActivationBlock>, aq_d: Seq<TD::ActivationBlock>|
            #![trigger quantised::<R, TG::ActivationBlock>(o.norm@, aq_g), quantised::<R, TD::ActivationBlock>(o.act@, aq_d)]
            phases_hold::<R, TG, TD, N, G>(
                b.x@,
                b.inter as int,
                gate_blocks(b.gate),
                up@,
                down@,
                b.scale,
                *b.norm,
                *b.act,
                o,
                aq_g,
                aq_d,
            ),
{
    proof {
        TG::widths_match();
        TD::widths_match();
    }
    let hidden: usize = b.x.len();
    let inter: usize = b.inter;
    let norm = b.norm.norm(b.x);
    let aq_g = quantize_all::<R, TG::ActivationBlock>(&norm);
    let mut gu: Vec<R> = match b.gate {
        Some(Ok(g)) => {
            let mut first = dot_columns::<R, TG>(g, &aq_g, kb_g, 0, inter);
            let mut rest = dot_columns::<R, TG>(up, &aq_g, kb_g, 0, inter);
            first.append(&mut rest);
            first
        },
        _ => dot_columns::<R, TG>(up, &aq_g, kb_g, 0, 2 * inter),
    };
    let mut act: Vec<R> = Vec::with_capacity(inter);
    for i in 0..inter
        invariant
            lawful::<R>(),
            gu@.len() == 2 * inter,
            2 * inter <= usize::MAX,
            act@.len() == i,
            forall|j: int|
                0 <= j < i ==> #[trigger] act@[j] == b.act.gated(gu@[j], gu@[inter + j]),
    {
        act.push(b.act.gate(gu[i], gu[inter + i]));
    }
    let aq_d = quantize_all::<R, TD::ActivationBlock>(&act);
    let dots = dot_columns::<R, TD>(down, &aq_d, kb_d, 0, hidden);
    let mut x: Vec<R> = Vec::with_capacity(hidden);
    for c in 0..hidden
        invariant
            lawful::<R>(),
            hidden == b.x@.len(),
            dots@.len() == hidden,
            x@.len() == c,
            forall|d: int|
                0 <= d < c ==> #[trigger] x@[d] == radd(b.x@[d], residual(dots@[d], b.scale)),
    {
        let v = match b.scale {
            Some(s) => times(dots[c], s),
            None => dots[c],
        };
        x.push(plus(b.x[c], v));
    }
    let o = Phases { norm, gu, act, x };
    assert(phases_hold::<R, TG, TD, N, G>(
        b.x@,
        inter as int,
        gate_blocks(b.gate),
        up@,
        down@,
        b.scale,
        *b.norm,
        *b.act,
        o,
        aq_g@,
        aq_d@,
    ));
    o
}

/// The block, its weights still bytes.
pub struct RawBlock<'a, R, N, G> {
    pub x: &'a [R],
    pub inter: usize,
    pub gate: Option<&'a [u8]>,
    pub up: &'a [u8],
    pub down_type: GgmlDType,
    pub down: &'a [u8],
    pub scale: Option<R>,
    pub norm: &'a N,
    pub act: &'a G,
}

/// `b` is `raw` with its gate and up weights read.
pub open spec fn reads<R: Real, TG: Stored<R>, N, G>(
    raw: RawBlock<R, N, G>,
    b: Block<R, TG, N, G>,
) -> bool {
    &&& b.x@ == raw.x@
    &&& b.inter == raw.inter
    &&& b.down@ == raw.down@
    &&& b.scale == raw.scale
    &&& *b.norm == *raw.norm
    &&& *b.act == *raw.act
    &&& cast_is::<R, TG>(raw.up@, *b.up)
    &&& match raw.gate {
        Some(g) => b.gate matches Some(r) && cast_is::<R, TG>(g@, *r),
        None => b.gate is None,
    }
}

impl<'a, R: Real, N: NormFn<R>, G: GateFn<R>> Work<R> for RawBlock<'a, R, N, G> {
    type Out = Result<Option<Phases<R>>, Error>;
}

impl<'a, R: Real, TG: Stored<R>, N: NormFn<R>, G: GateFn<R>> Job<R, TG> for RawBlock<
    'a,
    R,
    N,
    G,
> {
    open spec fn owes(self, out: Result<Option<Phases<R>>, Error>) -> bool {
        if self.down_type == GgmlDType::Q8_1 {
            out == Ok::<Option<Phases<R>>, Error>(None)
        } else {
            &&& out matches Ok(Some(o)) ==> sized(o, self.x@.len() as int, self.inter as int)
            &&& exists|b: Block<R, TG, N, G>| #[trigger]
                reads::<R, TG, N, G>(self, b) && owed::<R, Block<R, TG, N, G>>(
                    self.down_type,
                    b,
                    out,
                )
        }
    }

    fn run(&self) -> Result<Option<Phases<R>>, Error> {
        let up: Result<Vec<TG>, Error> = cast_blocks::<R, TG>(self.up);
        match self.gate {
            Some(g) => {
                let gate: Result<Vec<TG>, Error> = cast_blocks::<R, TG>(g);
                let b = Block {
                    x: self.x,
                    inter: self.inter,
                    gate: Some(&gate),
                    up: &up,
                    down: self.down,
                    scale: self.scale,
                    norm: self.norm,
                    act: self.act,
                };
                assert(reads::<R, TG, N, G>(*self, b));
                match with_blocks::<R, Block<R, TG, N, G>>(self.down_type, &b) {
                    Some(out) => out,
                    None => Ok(None),
                }
            },
            None => {
                let b = Block {
                    x: self.x,
                    inter: self.inter,
                    gate: None,
                    up: &up,
                    down: self.down,
                    scale: self.scale,
                    norm: self.norm,
                    act: self.act,
                };
                assert(reads::<R, TG, N, G>(*self, b));
                match with_blocks::<R, Block<R, TG, N, G>>(self.down_type, &b) {
                    Some(out) => out,
                    None => Ok(None),
                }
            },
        }
    }
}

/// A raw weight: its type, columns, rows and bytes.
pub type RawWeight<'a> = (GgmlDType, usize, usize, &'a [u8]);

/// How many values gate and up projections each have.
pub open spec fn inner_width(gate: Option<RawWeight>, up: RawWeight) -> int {
    match gate {
        Some(g) => g.2 as int,
        None => up.2 as int / 2,
    }
}

/// The weights and buffers have shapes the block can be run over. With no gate, the up weight
/// holds both projections, gate rows first.
pub open spec fn shapes_fit(
    hidden: int,
    gate: Option<RawWeight>,
    up: RawWeight,
    down: RawWeight,
    norm_buf: int,
    gu_buf: int,
    act_buf: int,
) -> bool {
    let inter = inner_width(gate, up);
    &&& match gate {
        Some(g) => g.0 == up.0 && g.1 == hidden && up.2 == inter,
        None => up.2 == 2 * inter,
    }
    &&& up.1 == hidden
    &&& inter != 0
    &&& down.1 == inter
    &&& down.2 == hidden
    &&& norm_buf == hidden
    &&& gu_buf == 2 * inter
    &&& act_buf == inter
    &&& up.0 != GgmlDType::Q8_1
    &&& down.0 != GgmlDType::Q8_1
}

/// `raw` is the block these arguments describe.
pub open spec fn describes<R, N, G>(
    raw: RawBlock<R, N, G>,
    x: Seq<R>,
    gate: Option<RawWeight>,
    up: RawWeight,
    down: RawWeight,
    scale: Option<R>,
    norm: N,
    act: G,
) -> bool {
    &&& raw.x@ == x
    &&& raw.inter == inner_width(gate, up)
    &&& raw.up@ == up.3@
    &&& match gate {
        Some(g) => raw.gate matches Some(b) && b@ == g.3@,
        None => raw.gate is None,
    }
    &&& raw.down_type == down.0
    &&& raw.down@ == down.3@
    &&& raw.scale == scale
    &&& *raw.norm == norm
    &&& *raw.act == act
}

/// The feed-forward block of one token: `x` takes its residual, and the buffers hold what each
/// phase left. `Ok(false)`, with everything as it was, says the shapes or types are outside what
/// the block is run over.
pub fn ffn_swiglu_coop<R: Real, N: NormFn<R>, G: GateFn<R>>(
    x: &mut [R],
    gate: Option<RawWeight>,
    up: RawWeight,
    down: RawWeight,
    residual_scale: Option<R>,
    norm_fn: &N,
    act_mul_fn: &G,
    norm_buf: &mut [R],
    gu_buf: &mut [R],
    act_buf: &mut [R],
) -> (r: Result<bool, Error>)
    requires
        lawful::<R>(),
    ensures
        r != Ok::<bool, Error>(true) ==> final(x)@ == old(x)@ && final(norm_buf)@ == old(norm_buf)@
            && final(gu_buf)@ == old(gu_buf)@ && final(act_buf)@ == old(act_buf)@,
        !shapes_fit(
            old(x)@.len() as int,
            gate,
            up,
            down,
            old(norm_buf)@.len() as int,
            old(gu_buf)@.len() as int,
            old(act_buf)@.len() as int,
        ) ==> r == Ok::<bool, Error>(false),
        shapes_fit(
            old(x)@.len() as int,
            gate,
            up,
            down,
            old(norm_buf)@.len() as int,
            old(gu_buf)@.len() as int,
            old(act_buf)@.len() as int,
        ) ==> exists|raw: RawBlock<R, N, G>, out: Result<Option<Phases<R>>, Error>|
            describes(raw, old(x)@, gate, up, down, residual_scale, *norm_fn, *act_mul_fn)
                && #[trigger] owed::<R, RawBlock<R, N, G>>(up.0, raw, out) && (match out {
                Err(e) => r == Err::<bool, Error>(e),
                Ok(None) => r == Ok::<bool, Error>(false),
                Ok(Some(o)) => r == Ok::<bool, Error>(true) && final(x)@ == o.x@ && final(norm_buf)@ == o.norm@ && final(gu_buf)@ == o.gu@ && final(act_buf)@ == o.act@,
            }),
{
    let hidden: usize = x.len();
    let inter: usize = match gate {
        Some(g) => g.2,
        None => up.2 / 2,
    };
    let gu_len: usize = gu_buf.len();
    let twice: bool = match product_fits(2, inter) {
        Some(p) => p == gu_len,
        None => false,
    };
    let paired: bool = match gate {
        Some(g) => g.0 == up.0 && g.1 == hidden && up.2 == inter,
        None => up.2 % 2 == 0,
    };
    if !paired || up.1 != hidden || inter == 0 || down.1 != inter || down.2 != hidden
        || norm_buf.len() != hidden || !twice || act_buf.len() != inter || !supports(up.0)
        || !supports(down.0) {
        return Ok(false);
    }
    let kept = copy_of(x);
    let raw = RawBlock {
        x: &kept,
        inter,
        gate: match gate {
            Some(g) => Some(g.3),
            None => None,
        },
        up: up.3,
        down_type: down.0,
        down: down.3,
        scale: residual_scale,
        norm: norm_fn,
        act: act_mul_fn,
    };
    match with_blocks::<R, RawBlock<R, N, G>>(up.0, &raw) {
        None => Ok(false),
        Some(out) => {
            assert(describes(raw, old(x)@, gate, up, down, residual_scale, *norm_fn, *act_mul_fn));
            assert(owed::<R, RawBlock<R, N, G>>(up.0, raw, out));
            match out {
                Err(e) => Err(e),
                Ok(None) => Ok(false),
                Ok(Some(o)) => {
                    assert(sized(o, hidden as int, inter as int));
                    copy_over(&o.x, x);
                    copy_over(&o.norm, norm_buf);
                    copy_over(&o.gu, gu_buf);
                    copy_over(&o.act, act_buf);
                    Ok(true)
                },
            }
        },
    }
}

/// A copy of a run.
fn copy_of<T: Copy>(x: &[T]) -> (v: Vec<T>)
    ensures
        v@ == x@,
{
    let mut v: Vec<T> = Vec::with_capacity(x.len());
    for i in 0..x.len()
        invariant
            v@.len() == i,
            forall|j: int| 0 <= j < i ==> #[trigger] v@[j] == x@[j],
    {
        v.push(x[i]);
    }
    assert(v@ =~= x@);
    v
}

} // verus!
