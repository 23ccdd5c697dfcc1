//! The executor the products are handed to, as decisions.
//!
//! A pool runs `f(chunk)` for every chunk of a job on workers that spin between jobs. Here is
//! what it decides: how many workers, who runs a job, which chunk a worker takes next, when a
//! worker spins and when it parks, how long a finished job is kept. What performs the decisions -
//! threads, locks, atomics - is outside; none of it enters a result, because every chunk is an
//! independent piece of the output and is taken once.
use vstd::prelude::*;
use crate::arith::{Real, lawful};
use crate::blocks::Quantized;
use crate::grid::{ceil_div, chunk_bounds, div_ceil};

verus! {

// -- how many workers --

/// The machine's physical core count, from `num_cpus::get_physical`. What it returns depends on
/// the machine, so nothing is said of it.
#[verifier::external_body]
fn physical_cores() -> usize {
    num_cpus::get_physical()
}

/// The machine's logical core count, from `num_cpus::get`. What it returns depends on the
/// machine, so nothing is said of it.
#[verifier::external_body]
fn logical_cores() -> usize {
    num_cpus::get()
}

/// A pool of workers; the caller of a job is one of them.
#[derive(Clone, Copy, Debug, PartialEq, Eq, Structural)]
pub struct Pool {
    pub threads: usize,
}

/// At least one.
pub open spec fn at_least_one(n: int) -> int {
    if n < 1 {
        1
    } else {
        n
    }
}

impl Pool {
    /// There is always someone to run a job.
    pub open spec fn wf(self) -> bool {
        self.threads >= 1
    }

    /// A pool for products bound by memory: one worker to a physical core.
    pub fn decode(physical: usize) -> (p: Pool)
        ensures
            p.threads == at_least_one(physical as int),
            p.wf(),
    {
        Pool { threads: if physical < 1 { 1 } else { physical } }
    }

    /// A pool for products bound by arithmetic: one worker to a logical core, and never fewer than
    /// the other pool has.
    pub fn prefill(logical: usize, physical: usize) -> (p: Pool)
        ensures
            p.wf(),
            p.threads == (if at_least_one(logical as int) < at_least_one(physical as int) {
                at_least_one(physical as int)
            } else {
                at_least_one(logical as int)
            }),
    {
        let small = Pool::decode(physical);
        let large: usize = if logical < 1 { 1 } else { logical };
        Pool { threads: if large < small.threads { small.threads } else { large } }
    }
}

/// The pool decoding runs on.
pub fn pool() -> (p: Pool)
    ensures
        p.wf(),
{
    Pool::decode(physical_cores())
}

/// The pool prompts run on.
pub fn prefill_pool() -> (p: Pool)
    ensures
        p.wf(),
{
    Pool::prefill(logical_cores(), physical_cores())
}

/// The pool prompts run on is never the smaller of the two.
pub proof fn prefill_is_no_smaller(logical: int, physical: int)
    ensures
        at_least_one(physical) <= (if at_least_one(logical) < at_least_one(physical) {
            at_least_one(physical)
        } else {
            at_least_one(logical)
        }),
{
}

// -- which pool --

/// The two pools.
#[derive(Clone, Copy, Debug, PartialEq, Eq, Structural)]
pub enum PoolKind {
    Decode,
    Prefill,
}

/// Whether a small model's prompt is being run.
#[derive(Clone, Copy, Debug, PartialEq, Eq, Structural)]
pub struct PrefillFlag {
    pub small_model: bool,
}

/// Say whether a small model's prompt is being run.
pub fn set_small_model_prefill(flag: &mut PrefillFlag, on: bool)
    ensures
        final(flag).small_model == on,
{
    flag.small_model = on;
}

/// The pool an activation of `m` rows is quantised on. It streams the activation, so it belongs on
/// physical cores, except that a small model's prompt stays on the pool its product will run on.
pub fn quantize_pool(flag: PrefillFlag, m: usize) -> (k: PoolKind)
    ensures
        k == (if m >= 32 && flag.small_model {
            PoolKind::Prefill
        } else {
            PoolKind::Decode
        }),
{
    if m >= 32 && flag.small_model {
        PoolKind::Prefill
    } else {
        PoolKind::Decode
    }
}

/// The widest weight, in values, that gains nothing from the logical cores. Measured: super-block
/// weights of about four million values run no faster there, while one of seventeen million runs a
/// fifth faster.
pub const NARROW_WEIGHT: usize = 4000000;

/// The pool a tiled product of super-block weights `[n, k]` and `m` rows runs on.
///
/// A wide weight keeps the arithmetic units busy unpacking its scales, and hides its loads behind
/// the second thread of each core. Narrow weights and short tiles of rows stay on physical cores.
pub fn kquant_prefill_pool(m: usize, n: usize, k: usize) -> (p: PoolKind)
    ensures
        p == (if m >= 32 && n * k > NARROW_WEIGHT {
            PoolKind::Prefill
        } else {
            PoolKind::Decode
        }),
{
    let wide: bool = match n.checked_mul(k) {
        Some(values) => values > NARROW_WEIGHT,
        None => true,
    };
    if m >= 32 && wide {
        PoolKind::Prefill
    } else {
        PoolKind::Decode
    }
}

// -- who runs a job --

/// What to do with a job before anyone is asked.
#[derive(Clone, Copy, Debug, PartialEq, Eq, Structural)]
pub enum Route {
    /// Run the chunks here, in order.
    Inline,
    /// Hand the chunks to the work-stealing pool.
    Steal,
    /// Try to become the publisher.
    TryPublish,
    /// Publish the job to the workers.
    Publish,
}

/// A job with nothing to share runs inline; one from inside the work-stealing pool stays there;
/// any other tries to publish.
pub fn route(n_chunks: usize, pool: Pool, is_worker: bool, in_stealing_pool: bool) -> (r: Route)
    ensures
        r == (if n_chunks <= 1 || pool.threads == 1 || is_worker {
            Route::Inline
        } else if in_stealing_pool {
            Route::Steal
        } else {
            Route::TryPublish
        }),
{
    if n_chunks <= 1 || pool.threads == 1 || is_worker {
        Route::Inline
    } else if in_stealing_pool {
        Route::Steal
    } else {
        Route::TryPublish
    }
}

/// Only one job is published at a time; the one that finds another published is stolen from.
pub fn route_after_lock(locked: bool) -> (r: Route)
    ensures
        r == (if locked {
            Route::Publish
        } else {
            Route::Steal
        }),
{
    if locked {
        Route::Publish
    } else {
        Route::Steal
    }
}

// -- the chunks of a job --

/// A published job: chunks are taken in order, each once, and counted as they are done.
#[derive(Clone, Copy, Debug, PartialEq, Eq, Structural)]
pub struct Task {
    pub next: usize,
    pub done: usize,
    pub n_chunks: usize,
}

impl Task {
    /// How many chunks have been taken.
    pub open spec fn taken(self) -> int {
        if self.next < self.n_chunks {
            self.next as int
        } else {
            self.n_chunks as int
        }
    }

    /// No chunk is done that was not taken.
    pub open spec fn wf(self) -> bool {
        self.done <= self.taken()
    }

    /// Every chunk is done.
    pub open spec fn is_finished(self) -> bool {
        self.done == self.n_chunks
    }

    /// A job of `n_chunks`.
    pub fn new(n_chunks: usize) -> (t: Task)
        ensures
            t == (Task { next: 0, done: 0, n_chunks }),
            t.wf(),
    {
        Task { next: 0, done: 0, n_chunks }
    }

    /// Take the next chunk, if one is left. The chunks come in order and none comes twice.
    pub fn claim(&mut self) -> (r: Option<usize>)
        requires
            old(self).wf(),
            old(self).next < usize::MAX,
        ensures
            final(self).wf(),
            final(self).next == old(self).next + 1,
            final(self).done == old(self).done,
            final(self).n_chunks == old(self).n_chunks,
            r == (if old(self).next < old(self).n_chunks {
                Some(old(self).next)
            } else {
                None
            }),
    {
        let c: usize = self.next;
        self.next = c + 1;
        if c < self.n_chunks {
            Some(c)
        } else {
            None
        }
    }

    /// A chunk that was taken is done.
    pub fn finish(&mut self)
        requires
            old(self).wf(),
            old(self).done < old(self).taken(),
        ensures
            final(self).wf(),
            *final(self) == (Task {
                next: old(self).next,
                done: (old(self).done + 1) as usize,
                n_chunks: old(self).n_chunks,
            }),
    {
        self.done = self.done + 1;
    }

    /// Whether every chunk is done.
    pub fn finished(&self) -> (r: bool)
        ensures
            r == self.is_finished(),
    {
        self.done == self.n_chunks
    }
}

/// A finished job has had every chunk taken, so no one will touch its work again: whoever asks
/// for another chunk is told there is none.
pub proof fn finished_jobs_hand_out_nothing(t: Task)
    requires
        t.wf(),
        t.is_finished(),
    ensures
        t.taken() == t.n_chunks,
        t.next >= t.n_chunks,
{
}

// -- spinning and parking --

/// How often a waiter spins before it gives way.
pub const SPIN_ITERS: u32 = 512;

/// A worker between jobs.
#[derive(Clone, Copy, Debug, PartialEq, Eq, Structural)]
pub struct Worker {
    pub seen: u64,
    pub spins: u32,
}

/// What a worker does next.
#[derive(Clone, Copy, Debug, PartialEq, Eq, Structural)]
pub enum WorkerStep {
    /// A job was published: run its chunks.
    Execute,
    /// Look again at once.
    Spin,
    /// Sleep until a job is published.
    Park,
}

impl Worker {
    pub open spec fn wf(self) -> bool {
        self.spins < SPIN_ITERS
    }

    /// A worker that has seen no job.
    pub fn new() -> (w: Worker)
        ensures
            w == (Worker { seen: 0, spins: 0 }),
            w.wf(),
    {
        Worker { seen: 0, spins: 0 }
    }

    /// Look at the number of jobs published so far.
    pub fn poll(&mut self, generation: u64) -> (s: WorkerStep)
        requires
            old(self).wf(),
        ensures
            final(self).wf(),
            generation != old(self).seen ==> s == WorkerStep::Execute && *final(self) == (Worker {
                seen: generation,
                spins: 0,
            }),
            generation == old(self).seen && old(self).spins + 1 < SPIN_ITERS ==> s
                == WorkerStep::Spin && *final(self) == (Worker {
                seen: generation,
                spins: (old(self).spins + 1) as u32,
            }),
            generation == old(self).seen && old(self).spins + 1 >= SPIN_ITERS ==> s
                == WorkerStep::Park && *final(self) == (Worker { seen: generation, spins: 0 }),
    {
        if generation != self.seen {
            self.seen = generation;
            self.spins = 0;
            return WorkerStep::Execute;
        }
        self.spins = self.spins + 1;
        if self.spins < SPIN_ITERS {
            WorkerStep::Spin
        } else {
            self.spins = 0;
            WorkerStep::Park
        }
    }

    /// Whether a worker about to sleep should: not if a job was published meanwhile.
    pub fn should_sleep(&self, generation: u64) -> (r: bool)
        ensures
            r == (generation == self.seen),
    {
        generation == self.seen
    }
}

/// One step of a publisher's wait: whether it gives way, and its spin count after.
pub fn wait_step(spins: u32) -> (r: (bool, u32))
    requires
        spins < SPIN_ITERS,
    ensures
        r == (if spins + 1 < SPIN_ITERS {
            (false, (spins + 1) as u32)
        } else {
            (true, 0u32)
        }),
        r.1 < SPIN_ITERS,
{
    if spins + 1 < SPIN_ITERS {
        (false, spins + 1)
    } else {
        (true, 0)
    }
}

/// The last two jobs, kept alive for a worker that still holds one.
pub struct Retired<T> {
    pub last: Option<T>,
    pub before: Option<T>,
}

impl<T> Retired<T> {
    /// Nothing kept.
    pub fn new() -> (r: Retired<T>)
        ensures
            r.last is None,
            r.before is None,
    {
        Retired { last: None, before: None }
    }

    /// Keep a job; the one before the last is given back, to be dropped.
    pub fn retire(&mut self, task: T) -> (dropped: Option<T>)
        ensures
            final(self).last == Some(task),
            final(self).before == old(self).last,
            dropped == old(self).before,
    {
        let last = self.last.take();
        let dropped = self.before.take();
        self.before = last;
        self.last = Some(task);
        dropped
    }
}

// -- sharing a run --

/// How a run of `n` is shared over `threads`: the chunk's length and the number of chunks. Chunks
/// are even, and no shorter than `min_len`.
pub fn for_each_plan(n: usize, threads: usize, min_len: usize) -> (r: (usize, usize))
    requires
        0 < threads,
    ensures
        r.0 == (if ceil_div(n as int, threads as int) < at_least_one(min_len as int) {
            at_least_one(min_len as int)
        } else {
            ceil_div(n as int, threads as int)
        }),
        r.0 >= 1,
        r.1 == ceil_div(n as int, r.0 as int),
        n <= r.1 * r.0,
{
    let even: usize = div_ceil(n, threads);
    let least: usize = if min_len < 1 { 1 } else { min_len };
    let chunk: usize = if even < least { least } else { even };
    (chunk, div_ceil(n, chunk))
}

/// Apply `f` to every item of a run, each once: item `i` becomes `f(i, item)`.
pub fn pool_for_each_mut<T: Copy, F: Fn(usize, T) -> T>(out: &mut [T], min_len: usize, f: &F)
    requires
        forall|i: usize, t: T| #[trigger] call_requires(*f, (i, t)),
    ensures
        final(out)@.len() == old(out)@.len(),
        forall|i: int|
            0 <= i < final(out)@.len() ==> call_ensures(
                *f,
                (i as usize, old(out)@[i]),
                #[trigger] final(out)@[i],
            ),
{
    let n: usize = out.len();
    if n == 0 {
        return;
    }
    let ghost start = out@;
    let (chunk, n_chunks) = for_each_plan(n, pool().threads, min_len);
    for c in 0..n_chunks
        invariant
            forall|i: usize, t: T| #[trigger] call_requires(*f, (i, t)),
            n == out@.len(),
            n == start.len(),
            chunk >= 1,
            n_chunks == ceil_div(n as int, chunk as int),
            n <= n_chunks * chunk,
            forall|i: int|
                0 <= i < n && i < c * chunk ==> call_ensures(
                    *f,
                    (i as usize, start[i]),
                    #[trigger] out@[i],
                ),
            forall|i: int| c * chunk <= i < n ==> #[trigger] out@[i] == start[i],
    {
        let (lo, hi) = chunk_bounds(chunk, n, c);
        for i in lo..hi
            invariant
                forall|k: usize, t: T| #[trigger] call_requires(*f, (k, t)),
                n == out@.len(),
                n == start.len(),
                lo <= hi <= n,
                forall|k: int|
                    0 <= k < i ==> call_ensures(*f, (k as usize, start[k]), #[trigger] out@[k]),
                forall|k: int| i <= k < n ==> #[trigger] out@[k] == start[k],
        {
            out[i] = f(i, out[i]);
        }
        assert((c + 1) * chunk == c * chunk + chunk) by (nonlinear_arith);
    }
}

/// Chunk `c` of the run went through `f`: what is there now is what `f` gave for what was there.
pub open spec fn chunk_ran<T, F: Fn(usize, &[T]) -> Vec<T>>(
    f: F,
    before: Seq<T>,
    after: Seq<T>,
    chunk: int,
    c: int,
) -> bool {
    let lo = c * chunk;
    let hi = if lo + chunk <= before.len() {
        lo + chunk
    } else {
        before.len() as int
    };
    exists|s: &[T], v: Vec<T>|
        s@ == before.subrange(lo, hi) && #[trigger] call_ensures(f, (c as usize, s), v)
            && after.subrange(lo, hi) == v@
}

/// Run `f` over consecutive chunks of a run, the last one short: each chunk becomes what `f`
/// gives for it. An empty run, or a chunk of nothing, is left alone.
pub fn pool_par_chunks_mut_t<T: Copy, F: Fn(usize, &[T]) -> Vec<T>>(
    out: &mut [T],
    chunk: usize,
    f: &F,
)
    requires
        forall|c: usize, s: &[T]| #[trigger] call_requires(*f, (c, s)),
        forall|c: usize, s: &[T], v: Vec<T>| #[trigger]
            call_ensures(*f, (c, s), v) ==> v@.len() == s@.len(),
    ensures
        final(out)@.len() == old(out)@.len(),
        chunk == 0 ==> final(out)@ == old(out)@,
        chunk > 0 ==> forall|c: int|
            0 <= c < ceil_div(old(out)@.len() as int, chunk as int) ==> #[trigger] chunk_ran(
                *f,
                old(out)@,
                final(out)@,
                chunk as int,
                c,
            ),
{
    let n: usize = out.len();
    if chunk == 0 {
        return;
    }
    let ghost start = out@;
    let n_chunks: usize = div_ceil(n, chunk);
    for c in 0..n_chunks
        invariant
            forall|c: usize, s: &[T]| #[trigger] call_requires(*f, (c, s)),
            forall|c: usize, s: &[T], v: Vec<T>| #[trigger]
                call_ensures(*f, (c, s), v) ==> v@.len() == s@.len(),
            n == out@.len(),
            n == start.len(),
            chunk >= 1,
            n_chunks == ceil_div(n as int, chunk as int),
            forall|d: int|
                0 <= d < c ==> #[trigger] chunk_ran(*f, start, out@, chunk as int, d),
            forall|i: int| c * chunk <= i < n ==> #[trigger] out@[i] == start[i],
    {
        let (lo, hi) = chunk_bounds(chunk, n, c);
        let ghost before = out@;
        let part = &out[lo..hi];
        assert(part@ =~= start.subrange(lo as int, hi as int));
        let v = f(c, part);
        assert(v@.len() == hi - lo);
        for i in lo..hi
            invariant
                n == out@.len(),
                n == before.len(),
                lo <= hi <= n,
                v@.len() == hi - lo,
                forall|k: int| 0 <= k < lo ==> #[trigger] out@[k] == before[k],
                forall|k: int| lo <= k < i ==> #[trigger] out@[k] == v@[k - lo],
                forall|k: int| i <= k < n ==> #[trigger] out@[k] == before[k],
        {
            out[i] = v[i - lo];
        }
        proof {
            assert((c + 1) * chunk == c * chunk + chunk) by (nonlinear_arith);
            assert(out@.subrange(lo as int, hi as int) =~= v@);
            assert forall|d: int| 0 <= d < c + 1 implies #[trigger] chunk_ran(
                *f,
                start,
                out@,
                chunk as int,
                d,
            ) by {
                if d < c {
                    assert(d * chunk + chunk <= c * chunk && 0 <= d * chunk) by (nonlinear_arith)
                        requires
                            0 <= d,
                            d + 1 <= c,
                            0 <= chunk,
                    ;
                    assert(chunk_ran(*f, start, before, chunk as int, d));
                    assert(out@.subrange(d * chunk, d * chunk + chunk) =~= before.subrange(
                        d * chunk,
                        d * chunk + chunk,
                    ));
                }
            }
        }
    }
}

/// [`pool_par_chunks_mut_t`] over numbers, on the pool decoding runs on.
pub fn pool_par_chunks_mut<R: Real, F: Fn(usize, &[R]) -> Vec<R>>(
    out: &mut [R],
    chunk: usize,
    f: &F,
)
    requires
        forall|c: usize, s: &[R]| #[trigger] call_requires(*f, (c, s)),
        forall|c: usize, s: &[R], v: Vec<R>| #[trigger]
            call_ensures(*f, (c, s), v) ==> v@.len() == s@.len(),
    ensures
        final(out)@.len() == old(out)@.len(),
        chunk == 0 ==> final(out)@ == old(out)@,
        chunk > 0 ==> forall|c: int|
            0 <= c < ceil_div(old(out)@.len() as int, chunk as int) ==> #[trigger] chunk_ran(
                *f,
                old(out)@,
                final(out)@,
                chunk as int,
                c,
            ),
{
    pool_par_chunks_mut_t(out, chunk, f)
}

/// [`pool_par_chunks_mut_t`] over numbers, on the pool prompts run on.
pub fn pool_par_chunks_mut_prefill<R: Real, F: Fn(usize, &[R]) -> Vec<R>>(
    out: &mut [R],
    chunk: usize,
    f: &F,
)
    requires
        forall|c: usize, s: &[R]| #[trigger] call_requires(*f, (c, s)),
        forall|c: usize, s: &[R], v: Vec<R>| #[trigger]
            call_ensures(*f, (c, s), v) ==> v@.len() == s@.len(),
    ensures
        final(out)@.len() == old(out)@.len(),
        chunk == 0 ==> final(out)@ == old(out)@,
        chunk > 0 ==> forall|c: int|
            0 <= c < ceil_div(old(out)@.len() as int, chunk as int) ==> #[trigger] chunk_ran(
                *f,
                old(out)@,
                final(out)@,
                chunk as int,
                c,
            ),
{
    pool_par_chunks_mut_t(out, chunk, f)
}

// -- scratch --

/// How much a vector has allocated, from `Vec::capacity`. It is the allocator's choice, so nothing
/// is said of it.
#[verifier::external_body]
fn allocated<T>(v: &Vec<T>) -> usize {
    v.capacity()
}

/// Take the reusable buffer, at least `len` long: what it held stays, what is added is zero. An
/// empty buffer is left in its place.
pub fn qscratch_take<R: Real, B: Quantized<R>>(held: &mut Vec<B>, len: usize) -> (v: Vec<B>)
    requires
        lawful::<R>(),
    ensures
        final(held)@.len() == 0,
        v@.len() == (if old(held)@.len() < len {
            len as int
        } else {
            old(held)@.len() as int
        }),
        forall|i: int| 0 <= i < old(held)@.len() ==> #[trigger] v@[i] == old(held)@[i],
        forall|i: int|
            old(held)@.len() <= i < v@.len() ==> <B as Quantized<R>>::is_zero(#[trigger] v@[i]),
{
    let mut v: Vec<B> = Vec::new();
    std::mem::swap(&mut v, held);
    let had: usize = v.len();
    let mut n: usize = had;
    while n < len
        invariant
            lawful::<R>(),
            had == old(held)@.len(),
            n == v@.len(),
            had <= n,
            n <= len || n == had,
            forall|i: int| 0 <= i < had ==> #[trigger] v@[i] == old(held)@[i],
            forall|i: int| had <= i < n ==> <B as Quantized<R>>::is_zero(#[trigger] v@[i]),
        decreases len - n,
    {
        v.push(B::zeros());
        n = n + 1;
    }
    v
}

/// The room of the buffer that is kept, of one with `held_room` and one put back with `buf_room`.
pub open spec fn kept_room(held_room: int, buf_room: int) -> int {
    if buf_room >= held_room {
        buf_room
    } else {
        held_room
    }
}

/// Keep the roomier of two buffers, and the one put back where they are equal.
pub fn keep_larger<B>(held: &mut Vec<B>, buf: Vec<B>, held_room: usize, buf_room: usize)
    ensures
        final(held)@ == (if buf_room >= held_room {
            buf@
        } else {
            old(held)@
        }),
{
    if buf_room >= held_room {
        *held = buf;
    }
}

/// The scratch only grows: what is kept has at least the room of either buffer, so however many
/// are put back, the room never falls.
pub proof fn scratch_only_grows(held_room: int, buf_room: int, next_room: int)
    ensures
        held_room <= kept_room(held_room, buf_room),
        buf_room <= kept_room(held_room, buf_room),
        kept_room(held_room, buf_room) <= kept_room(kept_room(held_room, buf_room), next_room),
        kept_room(held_room, buf_room) == (if buf_room >= held_room {
            buf_room
        } else {
            held_room
        }),
{
}

/// Put a buffer back: of it and the one there is, the one that has allocated more is kept. How much
/// either has is the allocator's choice, so [`keep_larger`] says which one it is for each.
pub fn qscratch_return<B>(held: &mut Vec<B>, buf: Vec<B>)
    ensures
        final(held)@ == buf@ || final(held)@ == old(held)@,
{
    let held_room: usize = allocated(held);
    let buf_room: usize = allocated(&buf);
    keep_larger(held, buf, held_room, buf_room)
}

} // verus!
