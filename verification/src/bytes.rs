//! Weights as bytes: the entries that take a storage type and the blocks it names.
//!
//! Each entry checks what it was given in a fixed order, refuses the first thing that is wrong,
//! and leaves its output as it was; what passes is read into blocks and handed to the product.
use vstd::prelude::*;
use crate::arith::{Half, Real, lawful, zero};
use crate::blocks::{BlockFormat, GgmlDType, Quantized, lemma_paired};
use crate::dispatch::{Everywhere, Job, Work, owed, with_blocks};
use crate::error::{Entry, Error};
use crate::layout::{Stored, cast_blocks, run_laid, run_spelled, write_blocks};
use crate::matmul::{
    all_cells, copy_over, dense_product, gated_product, half_product, matmul_f16,
    matmul_f16_gate_up_silu, product_fits, quantize_rows,
};
use crate::sums::filled;
use crate::tiled::{quantised, quantize_all};

verus! {

// -- reading and writing --

/// The values a run of blocks holds.
pub open spec fn values_of<R: Real, T: Quantized<R>>(blocks: Seq<T>) -> Seq<R> {
    Seq::new(
        blocks.len() * T::width(),
        |i: int| blocks[i / T::width() as int].value(i % T::width() as int),
    )
}

/// Whether `a * b` is `c`.
fn product_is(a: usize, b: usize, c: usize) -> (r: bool)
    ensures
        r == (a * b == c),
{
    match product_fits(a, b) {
        Some(p) => p == c,
        None => false,
    }
}

/// Decode bytes to exactly `len` values.
pub struct Decode<'a> {
    pub bytes: &'a [u8],
    pub len: usize,
}

/// What is wrong with bytes that are to hold `len` values of the format `T`.
pub open spec fn decode_fault<R: Real, T: Stored<R>>(bytes: int, len: int) -> Option<Error> {
    let size = T::size() as int;
    if bytes % size != 0 {
        Some(Error::Bytes { len: bytes as usize, size: size as usize })
    } else if (bytes / size) * T::width() != len {
        Some(
            Error::Values {
                blocks: (bytes / size) as usize,
                dtype: T::dtype_of(),
                len: len as usize,
            },
        )
    } else {
        None
    }
}

impl<'a, R: Real> Work<R> for Decode<'a> {
    type Out = Result<Vec<R>, Error>;
}

impl<'a, R: Real, T: Stored<R>> Job<R, T> for Decode<'a> {
    open spec fn owes(self, out: Result<Vec<R>, Error>) -> bool {
        match out {
            Ok(v) => v@.len() == self.len && decode_fault::<R, T>(
                self.bytes@.len() as int,
                self.len as int,
            ) is None && exists|blocks: Seq<T>| #[trigger]
                run_laid::<R, T>(self.bytes@, blocks) && v@ == values_of::<R, T>(blocks),
            Err(e) => decode_fault::<R, T>(self.bytes@.len() as int, self.len as int) == Some(e),
        }
    }

    fn run(&self) -> Result<Vec<R>, Error> {
        let blocks: Vec<T> = match cast_blocks::<R, T>(self.bytes) {
            Ok(b) => b,
            Err(e) => {
                return Err(e);
            },
        };
        let n: usize = blocks.len();
        let size: usize = T::byte_len();
        proof {
            vstd::arithmetic::div_mod::lemma_div_multiples_vanish(n as int, size as int);
            assert(n * size == size * n) by (nonlinear_arith);
        }
        let w: usize = T::block_len();
        if !product_is(n, w, self.len) {
            return Err(Error::Values { blocks: n, dtype: T::dtype(), len: self.len });
        }
        let mut ys: Vec<R> = filled(zero::<R>(), self.len);
        proof {
            lemma_paired(n as int, self.len as int, w as int);
        }
        T::dequantize(&blocks, &mut ys);
        assert(ys@ =~= values_of::<R, T>(blocks@));
        assert(run_laid::<R, T>(self.bytes@, blocks@));
        Ok(ys)
    }
}

/// What an entry leaves behind: its job's result in `after`, or the job's error and `after` as it
/// was before. A type that names no weight format is refused.
pub open spec fn settled<R: Real, X, J: Everywhere<R> + Work<R, Out = Result<Vec<X>, Error>>>(
    dtype: GgmlDType,
    job: J,
    r: Result<(), Error>,
    before: Seq<X>,
    after: Seq<X>,
) -> bool {
    if dtype == GgmlDType::Q8_1 {
        r == Err::<(), Error>(Error::ActivationOnly) && after == before
    } else {
        match r {
            Ok(_) => exists|v: Vec<X>|
                #[trigger] owed::<R, J>(dtype, job, Ok(v)) && after == v@,
            Err(e) => owed::<R, J>(dtype, job, Err(e)) && after == before,
        }
    }
}

/// Run a job and put what it gives in `dst`.
fn settle<R: Real, X: Copy, J: Everywhere<R> + Work<R, Out = Result<Vec<X>, Error>>>(
    dtype: GgmlDType,
    job: &J,
    dst: &mut [X],
) -> (r: Result<(), Error>)
    requires
        lawful::<R>(),
        forall|v: Vec<X>|
            dtype != GgmlDType::Q8_1 && #[trigger] owed::<R, J>(dtype, *job, Ok(v)) ==> v@.len()
                == old(dst)@.len(),
    ensures
        settled::<R, X, J>(dtype, *job, r, old(dst)@, final(dst)@),
        final(dst)@.len() == old(dst)@.len(),
{
    match with_blocks::<R, J>(dtype, job) {
        None => Err(Error::ActivationOnly),
        Some(out) => match out {
            Ok(v) => {
                copy_over(&v, dst);
                Ok(())
            },
            Err(e) => Err(e),
        },
    }
}

/// Decode raw blocks of `dtype` into `ys`, which has to be exactly as long as what they hold.
pub fn to_float_bytes<R: Real>(dtype: GgmlDType, bytes: &[u8], ys: &mut [R]) -> (r: Result<
    (),
    Error,
>)
    requires
        lawful::<R>(),
    ensures
        settled::<R, R, Decode>(
            dtype,
            (Decode { bytes, len: old(ys)@.len() as usize }),
            r,
            old(ys)@,
            final(ys)@,
        ),
{
    let job = Decode { bytes, len: ys.len() };
    settle::<R, R, Decode>(dtype, &job, ys)
}

/// Encode values to bytes.
pub struct Encode<'a, R> {
    pub xs: &'a [R],
}

impl<'a, R: Real> Work<R> for Encode<'a, R> {
    type Out = Result<Vec<u8>, Error>;
}

impl<'a, R: Real, T: Stored<R>> Job<R, T> for Encode<'a, R> {
    open spec fn owes(self, out: Result<Vec<u8>, Error>) -> bool {
        let len = self.xs@.len() as int;
        match out {
            Ok(v) => len % T::width() as int == 0 && exists|blocks: Seq<T>| #[trigger]
                quantised::<R, T>(self.xs@, blocks) && run_spelled::<R, T>(v@, blocks),
            Err(e) => len % T::width() as int != 0 && e == (Error::Width {
                entry: Entry::Quantize,
                len: len as usize,
                dtype: T::dtype_of(),
                block: T::width() as usize,
            }),
        }
    }

    fn run(&self) -> Result<Vec<u8>, Error> {
        let len: usize = self.xs.len();
        let w: usize = T::block_len();
        if len % w != 0 {
            return Err(Error::Width { entry: Entry::Quantize, len, dtype: T::dtype(), block: w });
        }
        let blocks: Vec<T> = quantize_all::<R, T>(self.xs);
        let bytes = write_blocks::<R, T>(&blocks);
        assert(quantised::<R, T>(self.xs@, blocks@));
        Ok(bytes)
    }
}

/// Encode values to raw blocks of `dtype`.
pub fn from_float_bytes<R: Real>(dtype: GgmlDType, xs: &[R]) -> (r: Result<Vec<u8>, Error>)
    requires
        lawful::<R>(),
    ensures
        dtype == GgmlDType::Q8_1 ==> r == Err::<Vec<u8>, Error>(Error::ActivationOnly),
        dtype != GgmlDType::Q8_1 ==> owed::<R, Encode<R>>(dtype, (Encode { xs }), r),
{
    let job = Encode { xs };
    match with_blocks::<R, Encode<R>>(dtype, &job) {
        None => Err(Error::ActivationOnly),
        Some(out) => out,
    }
}

// -- products --

/// What is wrong with the weights and the output of a product over the format `T`, in the order
/// it is looked for, as the entry puts it.
pub open spec fn product_fault<R: Real, T: Stored<R>>(
    entry: Entry,
    m: int,
    k: int,
    n: int,
    bytes: int,
    dst: int,
) -> Option<Error> {
    let w = T::width() as int;
    let size = T::size() as int;
    if k % w != 0 {
        Some(
            Error::Width {
                entry,
                len: k as usize,
                dtype: T::dtype_of(),
                block: w as usize,
            },
        )
    } else if bytes % size != 0 {
        Some(Error::Bytes { len: bytes as usize, size: size as usize })
    } else if bytes / size != n * (k / w) {
        Some(
            Error::Weights {
                entry,
                have: (bytes / size) as usize,
                rows: n as usize,
                per_row: (k / w) as usize,
            },
        )
    } else if dst != m * n {
        Some(Error::Output { entry, len: dst as usize, m: m as usize, n: n as usize })
    } else {
        None
    }
}

/// Check the weights and the output of a product, and read the weights.
fn check_product<R: Real, T: Stored<R>>(
    entry: Entry,
    m: usize,
    k: usize,
    n: usize,
    bytes: &[u8],
    dst: usize,
) -> (r: Result<Vec<T>, Error>)
    requires
        lawful::<R>(),
    ensures
        r is Ok <==> product_fault::<R, T>(
            entry,
            m as int,
            k as int,
            n as int,
            bytes@.len() as int,
            dst as int,
        ) is None,
        r matches Ok(blocks) ==> run_laid::<R, T>(bytes@, blocks@) && blocks@.len() == n * (
        k as int / T::width() as int),
        r matches Err(e) ==> product_fault::<R, T>(
            entry,
            m as int,
            k as int,
            n as int,
            bytes@.len() as int,
            dst as int,
        ) == Some(e),
{
    let w: usize = T::block_len();
    if k % w != 0 {
        return Err(Error::Width { entry, len: k, dtype: T::dtype(), block: w });
    }
    let blocks: Vec<T> = match cast_blocks::<R, T>(bytes) {
        Ok(b) => b,
        Err(e) => {
            return Err(e);
        },
    };
    let have: usize = blocks.len();
    let size: usize = T::byte_len();
    proof {
        vstd::arithmetic::div_mod::lemma_div_multiples_vanish(have as int, size as int);
        assert(have * size == size * have) by (nonlinear_arith);
    }
    let per_row: usize = k / w;
    if !product_is(n, per_row, have) {
        return Err(Error::Weights { entry, have, rows: n, per_row });
    }
    if !product_is(m, n, dst) {
        return Err(Error::Output { entry, len: dst, m, n });
    }
    Ok(blocks)
}

/// The weights a run of bytes holds, and what a product over them is.
pub open spec fn over_weights<R: Real, T: Stored<R>>(
    bytes: Seq<u8>,
    p: spec_fn(Seq<T>) -> bool,
) -> bool {
    exists|rhs: Seq<T>| #[trigger] run_laid::<R, T>(bytes, rhs) && p(rhs)
}

/// A product of values, `shape` = `(m, k, n)`.
pub struct Multiply<'a, R> {
    pub shape: (usize, usize, usize),
    pub lhs: &'a [R],
    pub bytes: &'a [u8],
    pub dst: usize,
}

impl<'a, R: Real> Work<R> for Multiply<'a, R> {
    type Out = Result<Vec<R>, Error>;
}

impl<'a, R: Real, T: Stored<R>> Job<R, T> for Multiply<'a, R> {
    open spec fn owes(self, out: Result<Vec<R>, Error>) -> bool {
        let (m, k, n) = (self.shape.0 as int, self.shape.1 as int, self.shape.2 as int);
        let fault = product_fault::<R, T>(
            Entry::Matmul,
            m,
            k,
            n,
            self.bytes@.len() as int,
            self.dst as int,
        );
        match out {
            Ok(v) => fault is None && self.lhs@.len() == m * k && v@.len() == self.dst
                && over_weights::<R, T>(
                self.bytes@,
                |rhs: Seq<T>| dense_product::<R, T>(self.lhs@, rhs, v@, m, k, n),
            ),
            Err(e) => fault == Some(e) || (fault is None && self.lhs@.len() != m * k && e == (
            Error::Activation {
                entry: Entry::Matmul,
                len: self.lhs@.len() as usize,
                m: self.shape.0,
                k: self.shape.1,
                n: self.shape.2,
            })),
        }
    }

    fn run(&self) -> Result<Vec<R>, Error> {
        let (m, k, n) = self.shape;
        let read: Inputs<R, T> = match read_product::<R, T>(self) {
            Ok(p) => p,
            Err(e) => {
                return Err(e);
            },
        };
        let out: Vec<R> = all_cells::<R, T>(m, n, read.per_row, &read.rhs, &read.acts);
        let ghost p = |rhs: Seq<T>|
            dense_product::<R, T>(self.lhs@, rhs, out@, m as int, k as int, n as int);
        assert(quantised::<R, T::ActivationBlock>(self.lhs@, read.acts@));
        assert(run_laid::<R, T>(self.bytes@, read.rhs@) && p(read.rhs@));
        Ok(out)
    }
}

/// What a product is computed from: its weights, `per_row` blocks to a column, and its rows,
/// quantised to as many.
pub struct Inputs<R: Real, T: BlockFormat<R>> {
    pub rhs: Vec<T>,
    pub acts: Vec<T::ActivationBlock>,
    pub per_row: usize,
}

/// Check what a product was given and read it. The cells are left to be computed, all at once or
/// in shares.
pub fn read_product<R: Real, T: Stored<R>>(job: &Multiply<R>) -> (r: Result<Inputs<R, T>, Error>)
    requires
        lawful::<R>(),
    ensures
        r is Ok <==> job.lhs@.len() == job.shape.0 * job.shape.1 && product_fault::<R, T>(
            Entry::Matmul,
            job.shape.0 as int,
            job.shape.1 as int,
            job.shape.2 as int,
            job.bytes@.len() as int,
            job.dst as int,
        ) is None,
        r matches Ok(p) ==> run_laid::<R, T>(job.bytes@, p.rhs@) && quantised::<
            R,
            T::ActivationBlock,
        >(job.lhs@, p.acts@) && p.per_row == job.shape.1 as int / T::width() as int && p.rhs@.len()
            == job.shape.2 * p.per_row && p.acts@.len() == job.shape.0 * p.per_row,
        r matches Err(e) ==> <Multiply<R> as Job<R, T>>::owes(*job, Err(e)),
{
    let (m, k, n) = job.shape;
    let rhs: Vec<T> = match check_product::<R, T>(Entry::Matmul, m, k, n, job.bytes, job.dst) {
        Ok(b) => b,
        Err(e) => {
            return Err(e);
        },
    };
    let len: usize = job.lhs.len();
    if !product_is(m, k, len) {
        return Err(Error::Activation { entry: Entry::Matmul, len, m, k, n });
    }
    proof {
        T::widths_match();
    }
    let acts = quantize_rows::<R, T::ActivationBlock>(job.lhs, m, k);
    Ok(Inputs { rhs, acts, per_row: k / T::block_len() })
}

/// What the products of a generation have cost: multiply-accumulates, calls, and bytes of weights.
#[derive(Clone, Copy, Debug, PartialEq, Eq, Structural)]
pub struct Counters {
    pub macs: u64,
    pub calls: u64,
    pub bytes: u64,
}

/// A count as the machine keeps it.
pub open spec fn wrapped(x: int) -> u64 {
    (x % 0x1_0000_0000_0000_0000) as u64
}

impl Counters {
    /// Nothing counted.
    pub fn new() -> (c: Counters)
        ensures
            c == (Counters { macs: 0, calls: 0, bytes: 0 }),
    {
        Counters { macs: 0, calls: 0, bytes: 0 }
    }

    /// One product more.
    pub open spec fn counted(self, shape: (usize, usize, usize), bytes: int) -> Counters {
        Counters {
            macs: wrapped(self.macs + wrapped(wrapped(shape.0 * shape.1) * shape.2)),
            calls: wrapped(self.calls + 1),
            bytes: wrapped(self.bytes + bytes),
        }
    }

    /// Count one product.
    pub fn count(&mut self, shape: (usize, usize, usize), bytes: usize)
        ensures
            *final(self) == old(self).counted(shape, bytes as int),
    {
        let work: u64 = (shape.0 as u64).wrapping_mul(shape.1 as u64).wrapping_mul(shape.2 as u64);
        self.macs = self.macs.wrapping_add(work);
        self.calls = self.calls.wrapping_add(1);
        self.bytes = self.bytes.wrapping_add(bytes as u64);
    }
}

/// The multiply-accumulates and the calls counted so far, which start again from nothing.
pub fn take_cpu_mac_counters(counters: &mut Counters) -> (r: (u64, u64))
    ensures
        r == (old(counters).macs, old(counters).calls),
        *final(counters) == (Counters { macs: 0, calls: 0, bytes: old(counters).bytes }),
{
    let r = (counters.macs, counters.calls);
    counters.macs = 0;
    counters.calls = 0;
    r
}

/// The bytes of weights counted so far, which start again from nothing.
pub fn take_cpu_bytes(counters: &mut Counters) -> (r: u64)
    ensures
        r == old(counters).bytes,
        *final(counters) == (Counters {
            macs: old(counters).macs,
            calls: old(counters).calls,
            bytes: 0,
        }),
{
    let r: u64 = counters.bytes;
    counters.bytes = 0;
    r
}

/// `lhs [m, k]` against raw weights `[n, k]` of `dtype`, into `dst [m, n]`. The call is counted
/// whether or not it succeeds.
pub fn matmul_bytes<R: Real>(
    counters: &mut Counters,
    dtype: GgmlDType,
    shape: (usize, usize, usize),
    lhs: &[R],
    rhs_bytes: &[u8],
    dst: &mut [R],
) -> (r: Result<(), Error>)
    requires
        lawful::<R>(),
    ensures
        *final(counters) == old(counters).counted(shape, rhs_bytes@.len() as int),
        settled::<R, R, Multiply<R>>(
            dtype,
            (Multiply { shape, lhs, bytes: rhs_bytes, dst: old(dst)@.len() as usize }),
            r,
            old(dst)@,
            final(dst)@,
        ),
{
    counters.count(shape, rhs_bytes.len());
    let job = Multiply { shape, lhs, bytes: rhs_bytes, dst: dst.len() };
    settle::<R, R, Multiply<R>>(dtype, &job, dst)
}

// -- half precision --

/// A product of half-precision values, `shape` = `(m, k, n)`.
pub struct MultiplyHalf<'a> {
    pub shape: (usize, usize, usize),
    pub lhs: &'a [Half],
    pub bytes: &'a [u8],
    pub dst: usize,
}

impl<'a, R: Real> Work<R> for MultiplyHalf<'a> {
    type Out = Result<Vec<Half>, Error>;
}

impl<'a, R: Real, T: Stored<R>> Job<R, T> for MultiplyHalf<'a> {
    open spec fn owes(self, out: Result<Vec<Half>, Error>) -> bool {
        let (m, k, n) = (self.shape.0 as int, self.shape.1 as int, self.shape.2 as int);
        let fault = product_fault::<R, T>(
            Entry::MatmulF16,
            m,
            k,
            n,
            self.bytes@.len() as int,
            self.dst as int,
        );
        match out {
            Ok(v) => fault is None && self.lhs@.len() == m * k && v@.len() == self.dst
                && over_weights::<R, T>(
                self.bytes@,
                |rhs: Seq<T>| half_product::<R, T>(self.lhs@, rhs, v@, m, k, n),
            ),
            Err(e) => fault == Some(e) || (fault is None && self.lhs@.len() != m * k && e == (
            Error::Activation {
                entry: Entry::MatmulF16,
                len: self.lhs@.len() as usize,
                m: self.shape.0,
                k: self.shape.1,
                n: self.shape.2,
            })),
        }
    }

    fn run(&self) -> Result<Vec<Half>, Error> {
        let (m, k, n) = self.shape;
        let rhs: Vec<T> = match check_product::<R, T>(
            Entry::MatmulF16,
            m,
            k,
            n,
            self.bytes,
            self.dst,
        ) {
            Ok(b) => b,
            Err(e) => {
                return Err(e);
            },
        };
        proof {
            T::widths_match();
        }
        let mut out: Vec<Half> = filled(Half::zero(), self.dst);
        match matmul_f16::<R, T>(self.shape, self.lhs, &rhs, &mut out) {
            Ok(_) => {
                let ghost p = |rhs: Seq<T>|
                    half_product::<R, T>(self.lhs@, rhs, out@, m as int, k as int, n as int);
                assert(run_laid::<R, T>(self.bytes@, rhs@) && p(rhs@));
                Ok(out)
            },
            Err(e) => Err(e),
        }
    }
}

/// A half-precision activation against raw weights of `dtype`, rounded to half precision.
pub fn matmul_f16_bytes<R: Real>(
    dtype: GgmlDType,
    shape: (usize, usize, usize),
    lhs: &[Half],
    rhs_bytes: &[u8],
    dst: &mut [Half],
) -> (r: Result<(), Error>)
    requires
        lawful::<R>(),
    ensures
        settled::<R, Half, MultiplyHalf>(
            dtype,
            (MultiplyHalf { shape, lhs, bytes: rhs_bytes, dst: old(dst)@.len() as usize }),
            r,
            old(dst)@,
            final(dst)@,
        ),
{
    let job = MultiplyHalf { shape, lhs, bytes: rhs_bytes, dst: dst.len() };
    settle::<R, Half, MultiplyHalf>(dtype, &job, dst)
}

/// Gate and up projections of a half-precision activation, `shape` = `(m, k, n)`.
pub struct GateUp<'a> {
    pub shape: (usize, usize, usize),
    pub lhs: &'a [Half],
    pub gate: &'a [u8],
    pub up: &'a [u8],
    pub dst: usize,
}

/// What is wrong with the two weights and the output, in the order it is looked for.
pub open spec fn gate_up_fault<R: Real, T: Stored<R>>(
    m: int,
    k: int,
    n: int,
    gate: int,
    up: int,
    dst: int,
) -> Option<Error> {
    let w = T::width() as int;
    let size = T::size() as int;
    let want = n * (k / w);
    if k % w != 0 {
        Some(
            Error::Width {
                entry: Entry::GateUpSilu,
                len: k as usize,
                dtype: T::dtype_of(),
                block: w as usize,
            },
        )
    } else if gate % size != 0 {
        Some(Error::Bytes { len: gate as usize, size: size as usize })
    } else if up % size != 0 {
        Some(Error::Bytes { len: up as usize, size: size as usize })
    } else if gate / size != want || up / size != want {
        Some(
            Error::GateUpWeights {
                gate: (gate / size) as usize,
                up: (up / size) as usize,
                rows: n as usize,
                per_row: (k / w) as usize,
            },
        )
    } else if dst != m * n {
        Some(
            Error::Output {
                entry: Entry::GateUpSilu,
                len: dst as usize,
                m: m as usize,
                n: n as usize,
            },
        )
    } else {
        None
    }
}

impl<'a, R: Real> Work<R> for GateUp<'a> {
    type Out = Result<Vec<Half>, Error>;
}

impl<'a, R: Real, T: Stored<R>> Job<R, T> for GateUp<'a> {
    open spec fn owes(self, out: Result<Vec<Half>, Error>) -> bool {
        let (m, k, n) = (self.shape.0 as int, self.shape.1 as int, self.shape.2 as int);
        let fault = gate_up_fault::<R, T>(
            m,
            k,
            n,
            self.gate@.len() as int,
            self.up@.len() as int,
            self.dst as int,
        );
        match out {
            Ok(v) => fault is None && self.lhs@.len() == m * k && v@.len() == self.dst && exists|
                gate: Seq<T>,
                up: Seq<T>,
            |
                #![trigger run_laid::<R, T>(self.gate@, gate), run_laid::<R, T>(self.up@, up)]
                run_laid::<R, T>(self.gate@, gate) && run_laid::<R, T>(self.up@, up)
                    && gated_product::<R, T>(self.lhs@, gate, up, v@, m, k, n),
            Err(e) => fault == Some(e) || (fault is None && self.lhs@.len() != m * k && e == (
            Error::Activation {
                entry: Entry::GateUpSilu,
                len: self.lhs@.len() as usize,
                m: self.shape.0,
                k: self.shape.1,
                n: self.shape.2,
            })),
        }
    }

    fn run(&self) -> Result<Vec<Half>, Error> {
        let (m, k, n) = self.shape;
        let w: usize = T::block_len();
        if k % w != 0 {
            return Err(
                Error::Width { entry: Entry::GateUpSilu, len: k, dtype: T::dtype(), block: w },
            );
        }
        let gate: Vec<T> = match cast_blocks::<R, T>(self.gate) {
            Ok(b) => b,
            Err(e) => {
                return Err(e);
            },
        };
        let up: Vec<T> = match cast_blocks::<R, T>(self.up) {
            Ok(b) => b,
            Err(e) => {
                return Err(e);
            },
        };
        let per_row: usize = k / w;
        let (have, other): (usize, usize) = (gate.len(), up.len());
        let size: usize = T::byte_len();
        proof {
            vstd::arithmetic::div_mod::lemma_div_multiples_vanish(have as int, size as int);
            assert(have * size == size * have) by (nonlinear_arith);
            vstd::arithmetic::div_mod::lemma_div_multiples_vanish(other as int, size as int);
            assert(other * size == size * other) by (nonlinear_arith);
        }
        if !product_is(n, per_row, have) || !product_is(n, per_row, other) {
            return Err(Error::GateUpWeights { gate: have, up: other, rows: n, per_row });
        }
        if !product_is(m, n, self.dst) {
            return Err(Error::Output { entry: Entry::GateUpSilu, len: self.dst, m, n });
        }
        proof {
            T::widths_match();
        }
        let mut out: Vec<Half> = filled(Half::zero(), self.dst);
        match matmul_f16_gate_up_silu::<R, T>(self.shape, self.lhs, &gate, &up, &mut out) {
            Ok(_) => {
                assert(run_laid::<R, T>(self.gate@, gate@) && run_laid::<R, T>(self.up@, up@));
                Ok(out)
            },
            Err(e) => Err(e),
        }
    }
}

/// `silu(gate) * up` of a half-precision activation and two raw weights of `dtype`.
pub fn matmul_f16_gate_up_silu_bytes<R: Real>(
    dtype: GgmlDType,
    shape: (usize, usize, usize),
    lhs: &[Half],
    gate_bytes: &[u8],
    up_bytes: &[u8],
    dst: &mut [Half],
) -> (r: Result<(), Error>)
    requires
        lawful::<R>(),
    ensures
        settled::<R, Half, GateUp>(
            dtype,
            (GateUp {
                shape,
                lhs,
                gate: gate_bytes,
                up: up_bytes,
                dst: old(dst)@.len() as usize,
            }),
            r,
            old(dst)@,
            final(dst)@,
        ),
{
    let job = GateUp { shape, lhs, gate: gate_bytes, up: up_bytes, dst: dst.len() };
    settle::<R, Half, GateUp>(dtype, &job, dst)
}

// -- experts --

/// A single-row product for each of several experts of one format.
pub struct Experts<'a, R> {
    pub k: usize,
    pub n: usize,
    pub weights: &'a [&'a [u8]],
    pub lhs: &'a [&'a [R]],
    pub outs: &'a [usize],
}

/// What is wrong with expert `e`, in the order it is looked for.
pub open spec fn expert_fault<R: Real, T: Stored<R>>(x: Experts<R>, e: int) -> Option<Error> {
    let w = T::width() as int;
    let size = T::size() as int;
    let bytes = x.weights@[e]@.len() as int;
    if x.lhs@[e]@.len() != x.k {
        Some(Error::ExpertActivation { e: e as usize, len: x.lhs@[e]@.len() as usize, k: x.k })
    } else if x.outs@[e] != x.n {
        Some(Error::ExpertOutput { e: e as usize, len: x.outs@[e], n: x.n })
    } else if bytes % size != 0 {
        Some(Error::Bytes { len: bytes as usize, size: size as usize })
    } else if bytes / size != x.n * (x.k as int / w) {
        Some(
            Error::ExpertWeights {
                e: e as usize,
                have: (bytes / size) as usize,
                rows: x.n,
                per_row: (x.k as int / w) as usize,
            },
        )
    } else {
        None
    }
}

/// The product expert `e` asks for.
pub open spec fn expert_product<'a, R>(x: Experts<'a, R>, e: int) -> Multiply<'a, R> {
    Multiply { shape: (1, x.k, x.n), lhs: x.lhs@[e], bytes: x.weights@[e], dst: x.n }
}

impl<'a, R: Real> Work<R> for Experts<'a, R> {
    type Out = Result<Vec<Vec<R>>, Error>;
}

impl<'a, R: Real, T: Stored<R>> Job<R, T> for Experts<'a, R> {
    open spec fn owes(self, out: Result<Vec<Vec<R>>, Error>) -> bool {
        let ne = self.weights@.len() as int;
        let w = T::width() as int;
        match out {
            Ok(v) => self.lhs@.len() == ne && self.outs@.len() == ne && v@.len() == ne
                && self.k as int % w == 0 && forall|e: int|
                0 <= e < ne ==> <Multiply<R> as Job<R, T>>::owes(
                    expert_product(self, e),
                    Ok(#[trigger] v@[e]),
                ),
            Err(x) => if self.lhs@.len() != ne || self.outs@.len() != ne {
                x == (Error::Experts {
                    weights: ne as usize,
                    lhs: self.lhs@.len() as usize,
                    outs: self.outs@.len() as usize,
                })
            } else if self.k as int % w != 0 {
                x == (Error::Width {
                    entry: Entry::Experts,
                    len: self.k,
                    dtype: T::dtype_of(),
                    block: w as usize,
                })
            } else {
                exists|e: int|
                    0 <= e < ne && #[trigger] expert_fault::<R, T>(self, e) == Some(x) && (forall|
                        f: int,
                    |
                        0 <= f < e ==> #[trigger] expert_fault::<R, T>(self, f) is None)
            },
        }
    }

    fn run(&self) -> Result<Vec<Vec<R>>, Error> {
        let ne: usize = self.weights.len();
        if self.lhs.len() != ne || self.outs.len() != ne {
            return Err(
                Error::Experts { weights: ne, lhs: self.lhs.len(), outs: self.outs.len() },
            );
        }
        let w: usize = T::block_len();
        if self.k % w != 0 {
            return Err(
                Error::Width { entry: Entry::Experts, len: self.k, dtype: T::dtype(), block: w },
            );
        }
        let size: usize = T::byte_len();
        let per_row: usize = self.k / w;
        for e in 0..ne
            invariant
                ne == self.weights@.len(),
                ne == self.lhs@.len(),
                ne == self.outs@.len(),
                w == T::width(),
                0 < w,
                size == T::size(),
                0 < size,
                per_row == self.k / w,
                self.k % w == 0,
                forall|f: int| 0 <= f < e ==> #[trigger] expert_fault::<R, T>(*self, f) is None,
        {
            let len: usize = self.lhs[e].len();
            let bytes: usize = self.weights[e].len();
            let have: usize = bytes / size;
            let fault: Option<Error> = if len != self.k {
                Some(Error::ExpertActivation { e, len, k: self.k })
            } else if self.outs[e] != self.n {
                Some(Error::ExpertOutput { e, len: self.outs[e], n: self.n })
            } else if bytes % size != 0 {
                Some(Error::Bytes { len: bytes, size })
            } else if !product_is(self.n, per_row, have) {
                Some(Error::ExpertWeights { e, have, rows: self.n, per_row })
            } else {
                None
            };
            assert(fault == expert_fault::<R, T>(*self, e as int));
            if let Some(x) = fault {
                return Err(x);
            }
        }
        let mut outs: Vec<Vec<R>> = Vec::with_capacity(ne);
        for e in 0..ne
            invariant
                lawful::<R>(),
                ne == self.weights@.len(),
                ne == self.lhs@.len(),
                ne == self.outs@.len(),
                self.k as int % T::width() as int == 0,
                0 < T::width(),
                forall|f: int| 0 <= f < ne ==> #[trigger] expert_fault::<R, T>(*self, f) is None,
                outs@.len() == e,
                forall|f: int|
                    0 <= f < e ==> <Multiply<R> as Job<R, T>>::owes(
                        expert_product(*self, f),
                        Ok(#[trigger] outs@[f]),
                    ),
        {
            let job = Multiply {
                shape: (1, self.k, self.n),
                lhs: self.lhs[e],
                bytes: self.weights[e],
                dst: self.n,
            };
            assert(expert_fault::<R, T>(*self, e as int) is None);
            assert(1 * self.k == self.k && 1 * self.n == self.n) by (nonlinear_arith);
            match <Multiply<R> as Job<R, T>>::run(&job) {
                Ok(v) => {
                    outs.push(v);
                },
                Err(x) => {
                    assert(false);
                    return Err(x);
                },
            }
        }
        Ok(outs)
    }
}

/// The lengths of several outputs.
pub open spec fn lens_of<R>(outs: Seq<Vec<R>>) -> Seq<usize> {
    Seq::new(outs.len(), |e: int| outs[e]@.len() as usize)
}

/// `x` is the job of these experts.
pub open spec fn is_experts<R>(
    x: Experts<R>,
    k: usize,
    n: usize,
    weights: Seq<&[u8]>,
    lhs: Seq<&[R]>,
    outs: Seq<Vec<R>>,
) -> bool {
    x.k == k && x.n == n && x.weights@ == weights && x.lhs@ == lhs && x.outs@ == lens_of(outs)
}

/// One single-row product per expert, all of `dtype`: each output is what a product of its own
/// would be. Nothing is written unless every expert's inputs are right.
pub fn matmul_bytes_multi<R: Real>(
    dtype: GgmlDType,
    k: usize,
    n: usize,
    rhs_bytes: &[&[u8]],
    lhs: &[&[R]],
    outs: &mut Vec<Vec<R>>,
) -> (r: Result<(), Error>)
    requires
        lawful::<R>(),
    ensures
        if lhs@.len() != rhs_bytes@.len() || old(outs)@.len() != rhs_bytes@.len() {
            r == Err::<(), Error>(
                Error::Experts {
                    weights: rhs_bytes@.len() as usize,
                    lhs: lhs@.len() as usize,
                    outs: old(outs)@.len() as usize,
                },
            ) && final(outs)@ == old(outs)@
        } else if rhs_bytes@.len() == 0 {
            r is Ok && final(outs)@ == old(outs)@
        } else {
            exists|x: Experts<R>| #[trigger]
                is_experts(x, k, n, rhs_bytes@, lhs@, old(outs)@) && settled::<
                    R,
                    Vec<R>,
                    Experts<R>,
                >(dtype, x, r, old(outs)@, final(outs)@)
        },
{
    let ne: usize = rhs_bytes.len();
    if lhs.len() != ne || outs.len() != ne {
        return Err(Error::Experts { weights: ne, lhs: lhs.len(), outs: outs.len() });
    }
    if ne == 0 {
        return Ok(());
    }
    let mut lens: Vec<usize> = Vec::with_capacity(ne);
    for e in 0..ne
        invariant
            ne == outs@.len(),
            outs@ == old(outs)@,
            lens@.len() == e,
            forall|f: int| 0 <= f < e ==> #[trigger] lens@[f] == outs@[f]@.len(),
    {
        lens.push(outs[e].len());
    }
    assert(lens@ =~= lens_of(outs@));
    let job = Experts { k, n, weights: rhs_bytes, lhs, outs: &lens };
    assert(is_experts(job, k, n, rhs_bytes@, lhs@, old(outs)@));
    match with_blocks::<R, Experts<R>>(dtype, &job) {
        None => Err(Error::ActivationOnly),
        Some(out) => match out {
            Ok(v) => {
                *outs = v;
                Ok(())
            },
            Err(e) => Err(e),
        },
    }
}

} // verus!
