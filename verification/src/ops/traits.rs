//! What a tensor answers to: indexing, [`Module`], identity.
use vstd::prelude::*;
use crate::arith::{Real, lawful};
use crate::error::Error;
use crate::ops::activation::Activation;
use crate::ops::rows::{lemma_no_rows, lemma_row_appended, rowwise};
use crate::tensor::{
    Tensor, around, copy_run, elems, inner, lemma_elems_by_dim, lemma_elems_split, outer,
};
use vstd::std_specs::convert::FromSpecImpl;

verus! {

/// A tensor's identity.
#[derive(Debug, Clone, Copy, PartialEq, Eq, Structural, Hash, PartialOrd, Ord)]
pub struct TensorId(pub usize);

/// Something a tensor is passed through.
pub trait Module<R: Real> {
    /// `r` is what comes out.
    spec fn answers(&self, xs: Tensor<R>, r: Result<Tensor<R>, Error>) -> bool;

    fn forward(&self, xs: &Tensor<R>) -> (r: Result<Tensor<R>, Error>)
        requires
            lawful::<R>(),
            xs.wf(),
        ensures
            self.answers(*xs, r),
    ;
}

impl<R: Real, M: Module<R>> Module<R> for &M {
    open spec fn answers(&self, xs: Tensor<R>, r: Result<Tensor<R>, Error>) -> bool {
        (**self).answers(xs, r)
    }

    fn forward(&self, xs: &Tensor<R>) -> (r: Result<Tensor<R>, Error>) {
        (**self).forward(xs)
    }
}

impl<R: Real> Module<R> for Activation {
    open spec fn answers(&self, xs: Tensor<R>, r: Result<Tensor<R>, Error>) -> bool {
        r matches Ok(t) && t.wf() && t.dims@ == xs.dims@ && t.data@ == self.over(xs.data@)
    }

    fn forward(&self, xs: &Tensor<R>) -> (r: Result<Tensor<R>, Error>) {
        self.apply(xs)
    }
}

/// Where a range starts or ends.
#[derive(Clone, Copy, Debug, PartialEq, Eq, Structural)]
pub enum Edge {
    Included(usize),
    Excluded(usize),
    Unbounded,
}

/// What is taken of one dimension.
#[derive(Clone, Copy, Debug, PartialEq, Eq, Structural)]
pub enum TensorIndexer {
    /// One index; the dimension goes.
    Select(usize),
    /// A range; the dimension stays.
    Narrow(Edge, Edge),
}

impl From<usize> for TensorIndexer {
    fn from(i: usize) -> (r: TensorIndexer) {
        TensorIndexer::Select(i)
    }
}

impl FromSpecImpl<usize> for TensorIndexer {
    open spec fn obeys_from_spec() -> bool {
        true
    }

    open spec fn from_spec(i: usize) -> TensorIndexer {
        TensorIndexer::Select(i)
    }
}

impl From<core::ops::Range<usize>> for TensorIndexer {
    fn from(r: core::ops::Range<usize>) -> (t: TensorIndexer) {
        TensorIndexer::Narrow(Edge::Included(r.start), Edge::Excluded(r.end))
    }
}

impl FromSpecImpl<core::ops::Range<usize>> for TensorIndexer {
    open spec fn obeys_from_spec() -> bool {
        true
    }

    open spec fn from_spec(r: core::ops::Range<usize>) -> TensorIndexer {
        TensorIndexer::Narrow(Edge::Included(r.start), Edge::Excluded(r.end))
    }
}

impl TensorIndexer {
    /// `start ..`
    pub fn starting(start: usize) -> (r: TensorIndexer)
        ensures
            r == TensorIndexer::Narrow(Edge::Included(start), Edge::Unbounded),
    {
        TensorIndexer::Narrow(Edge::Included(start), Edge::Unbounded)
    }

    /// `.. end`
    pub fn ending(end: usize) -> (r: TensorIndexer)
        ensures
            r == TensorIndexer::Narrow(Edge::Unbounded, Edge::Excluded(end)),
    {
        TensorIndexer::Narrow(Edge::Unbounded, Edge::Excluded(end))
    }

    /// `start ..= end`
    pub fn through(start: usize, end: usize) -> (r: TensorIndexer)
        ensures
            r == TensorIndexer::Narrow(Edge::Included(start), Edge::Included(end)),
    {
        TensorIndexer::Narrow(Edge::Included(start), Edge::Included(end))
    }

    /// `..`
    pub fn all() -> (r: TensorIndexer)
        ensures
            r == TensorIndexer::Narrow(Edge::Unbounded, Edge::Unbounded),
    {
        TensorIndexer::Narrow(Edge::Unbounded, Edge::Unbounded)
    }
}

// -- one step --

/// Where a range starts.
pub open spec fn start_of(e: Edge) -> int {
    match e {
        Edge::Included(v) => v as int,
        Edge::Excluded(v) => v + 1,
        Edge::Unbounded => 0,
    }
}

/// Where a range ends, in a dimension of `size`.
pub open spec fn end_of(e: Edge, size: int) -> int {
    match e {
        Edge::Included(v) => v + 1,
        Edge::Excluded(v) => v as int,
        Edge::Unbounded => size,
    }
}

/// The part of a tensor that keeps `start .. start + len` of dimension `dim`: of every outer
/// place, that stretch of it.
pub open spec fn narrowed<T>(dims: Seq<usize>, x: Seq<T>, dim: int, start: int, len: int) -> Seq<
    T,
> {
    let (size, inn) = (dims[dim] as int, inner(dims, dim));
    let w = len * inn;
    Seq::new(
        (outer(dims, dim) * w) as nat,
        |q: int| x[((q / w) * size + start) * inn + q % w],
    )
}

/// A shape and its elements.
pub struct Piece<T> {
    pub dims: Seq<usize>,
    pub data: Seq<T>,
}

/// What taking `ix` of dimension `dim` leaves, or why it cannot be taken.
pub open spec fn taken<T>(p: Piece<T>, dim: int, ix: TensorIndexer) -> Result<Piece<T>, Error> {
    let rank = p.dims.len();
    if dim >= rank {
        Err(Error::Axis { dim: dim as usize, rank: rank as usize })
    } else {
        let size = p.dims[dim];
        match ix {
            TensorIndexer::Select(i) => if i >= size {
                Err(Error::Index { dim: dim as usize, start: i, end: i, size })
            } else {
                Ok(
                    Piece {
                        dims: p.dims.remove(dim),
                        data: narrowed(p.dims, p.data, dim, i as int, 1),
                    },
                )
            },
            TensorIndexer::Narrow(s, e) => {
                let (a, b) = (start_of(s), end_of(e, size as int));
                if a > usize::MAX || b > usize::MAX {
                    Err(Error::Shape)
                } else if b < a || b > size {
                    Err(
                        Error::Index {
                            dim: dim as usize,
                            start: a as usize,
                            end: b as usize,
                            size,
                        },
                    )
                } else {
                    Ok(
                        Piece {
                            dims: p.dims.update(dim, (b - a) as usize),
                            data: narrowed(p.dims, p.data, dim, a, b - a),
                        },
                    )
                }
            },
        }
    }
}

/// What taking one indexer after the other leaves. A selected dimension is gone, so the next
/// indexer takes of the one that follows it.
pub open spec fn picked<T>(p: Piece<T>, dim: int, ixs: Seq<TensorIndexer>) -> Result<
    Piece<T>,
    Error,
>
    decreases ixs.len(),
{
    if ixs.len() == 0 {
        Ok(p)
    } else {
        match taken(p, dim, ixs[0]) {
            Err(e) => Err(e),
            Ok(q) => picked(
                q,
                if ixs[0] is Select {
                    dim
                } else {
                    dim + 1
                },
                ixs.skip(1),
            ),
        }
    }
}

/// `r` is the tensor that is left.
pub open spec fn leaves<T>(want: Result<Piece<T>, Error>, r: Result<Tensor<T>, Error>) -> bool {
    match want {
        Err(e) => r == Err::<Tensor<T>, Error>(e),
        Ok(p) => r is Ok && r->Ok_0.wf() && r->Ok_0.dims@ == p.dims && r->Ok_0.data@ == p.data,
    }
}

pub open spec fn piece<T>(t: Tensor<T>) -> Piece<T> {
    Piece { dims: t.dims@, data: t.data@ }
}

/// The elements of `start .. start + len` of a dimension.
fn narrow_data<T: Copy>(t: &Tensor<T>, dim: usize, start: usize, len: usize) -> (data: Vec<T>)
    requires
        t.wf(),
        dim < t.dims@.len(),
        start + len <= t.dims@[dim as int],
    ensures
        data@ == narrowed(t.dims@, t.data@, dim as int, start as int, len as int),
{
    let total: usize = t.data.len();
    let ghost dims = t.dims@;
    let ghost (a, size, c) = (
        outer(dims, dim as int),
        dims[dim as int] as int,
        inner(dims, dim as int),
    );
    let ghost w = len * c;
    proof {
        lemma_elems_by_dim(dims, dim as int);
    }
    if total == 0 || len == 0 {
        assert(a * w == 0) by (nonlinear_arith)
            requires
                (a * size) * c == 0 || len == 0,
                w == len * c,
                0 <= a,
                0 <= c,
                0 <= len <= size,
        ;
        let none: Vec<T> = Vec::new();
        assert(none@ =~= narrowed(dims, t.data@, dim as int, start as int, len as int));
        return none;
    }
    let (out, all, inn) = around(t, dim);
    let ghost f = |o: int|
        t.data@.subrange((o * size + start) * c, (o * size + start) * c + w);
    let mut data: Vec<T> = Vec::new();
    proof {
        lemma_no_rows(w, f);
    }
    for o in 0..out
        invariant
            (out * all) * inn == total,
            total == t.data@.len(),
            inn == c,
            all == size,
            start + len <= all,
            len > 0,
            inn > 0,
            w == len * c,
            f == |o: int| t.data@.subrange((o * size + start) * c, (o * size + start) * c + w),
            rowwise(data@, o as int, w, f),
    {
        let ghost p = o * all + start;
        proof {
            assert(0 <= o * all && o * all + all <= out * all) by (nonlinear_arith)
                requires
                    0 <= o,
                    o + 1 <= out,
                    0 <= all,
            ;
            let n = out * all;
            assert(p * inn + len * inn <= n * inn && 0 <= p * inn && p <= p * inn && 0 <= len
                * inn) by (nonlinear_arith)
                requires
                    0 <= p,
                    0 < inn,
                    0 <= len,
                    p + len <= n,
            ;
            assert(n <= n * inn) by (nonlinear_arith)
                requires
                    0 <= n,
                    1 <= inn,
            ;
        }
        let from: usize = (o * all + start) * inn;
        let piece = &t.data[from..from + len * inn];
        let mut row = copy_run(piece);
        assert(row@ =~= f(o as int));
        proof {
            lemma_row_appended(data@, row@, o as int, w, f);
        }
        data.append(&mut row);
    }
    let ghost want = narrowed(dims, t.data@, dim as int, start as int, len as int);
    assert forall|q: int| 0 <= q < data@.len() implies data@[q] == want[q] by {
        assert(w > 0) by (nonlinear_arith)
            requires
                w == len * c,
                len > 0,
                c > 0,
        ;
        vstd::arithmetic::div_mod::lemma_fundamental_div_mod(q, w);
        vstd::arithmetic::div_mod::lemma_mod_bound(q, w);
        let (o, j) = (q / w, q % w);
        assert(w * o == o * w) by (nonlinear_arith);
        assert(0 <= o < out) by (nonlinear_arith)
            requires
                0 < w,
                0 <= q < out * w,
                0 <= q - o * w < w,
        ;
        assert(q == crate::coded::cell(w, o, j));
        assert(data@[q] == f(o)[j]);
        let p = o * size + start;
        assert(0 <= o * size && o * size + size <= out * size) by (nonlinear_arith)
            requires
                0 <= o,
                o + 1 <= out,
                0 <= size,
        ;
        let n = out * size;
        assert(p * c + w <= n * c && 0 <= p * c) by (nonlinear_arith)
            requires
                0 <= p,
                0 < c,
                w == len * c,
                p + len <= n,
        ;
    }
    assert(data@ =~= want);
    data
}

/// The narrowed shape has room for what is kept.
proof fn lemma_narrowed_elems(dims: Seq<usize>, dim: int, len: usize)
    requires
        0 <= dim < dims.len(),
    ensures
        elems(dims.update(dim, len)) == outer(dims, dim) * (len * inner(dims, dim)),
        elems(dims.remove(dim)) == outer(dims, dim) * (1 * inner(dims, dim)),
{
    let d = dims.update(dim, len);
    lemma_elems_by_dim(d, dim);
    assert(d.take(dim) =~= dims.take(dim));
    assert(d.skip(dim + 1) =~= dims.skip(dim + 1));
    let (a, c) = (outer(dims, dim), inner(dims, dim));
    assert((a * len) * c == a * (len * c)) by (nonlinear_arith);
    let e = dims.remove(dim);
    lemma_elems_split(e, dim);
    assert(e.take(dim) =~= dims.take(dim));
    assert(e.skip(dim) =~= dims.skip(dim + 1));
    assert(1 * c == c) by (nonlinear_arith);
}

/// Take one indexer of one dimension.
fn take_one<T: Copy>(t: &Tensor<T>, dim: usize, ix: &TensorIndexer) -> (r: Result<
    Tensor<T>,
    Error,
>)
    requires
        t.wf(),
    ensures
        leaves(taken(piece(*t), dim as int, *ix), r),
{
    let rank: usize = t.dims.len();
    if dim >= rank {
        return Err(Error::Axis { dim, rank });
    }
    let size: usize = t.dims[dim];
    proof {
        crate::tensor::lemma_elems_nonneg(t.dims@.take(dim as int));
        crate::tensor::lemma_elems_nonneg(t.dims@.skip(dim + 1));
        lemma_elems_by_dim(t.dims@, dim as int);
    }
    match ix {
        TensorIndexer::Select(i) => {
            if *i >= size {
                return Err(Error::Index { dim, start: *i, end: *i, size });
            }
            let data = narrow_data(t, dim, *i, 1);
            let mut dims: Vec<usize> = copy_run(&t.dims);
            dims.remove(dim);
            proof {
                lemma_narrowed_elems(t.dims@, dim as int, 1);
                lemma_product_nonneg(outer(t.dims@, dim as int), 1, inner(t.dims@, dim as int));
            }
            assert(dims@ =~= t.dims@.remove(dim as int));
            Ok(Tensor { dims, data })
        },
        TensorIndexer::Narrow(s, e) => {
            let start: usize = match s {
                Edge::Included(v) => *v,
                Edge::Excluded(v) => match v.checked_add(1) {
                    Some(w) => w,
                    None => return Err(Error::Shape),
                },
                Edge::Unbounded => 0,
            };
            let end: usize = match e {
                Edge::Included(v) => match v.checked_add(1) {
                    Some(w) => w,
                    None => return Err(Error::Shape),
                },
                Edge::Excluded(v) => *v,
                Edge::Unbounded => size,
            };
            if end < start || end > size {
                return Err(Error::Index { dim, start, end, size });
            }
            let data = narrow_data(t, dim, start, end - start);
            let mut dims: Vec<usize> = copy_run(&t.dims);
            dims[dim] = end - start;
            proof {
                let len = (end - start) as usize;
                lemma_narrowed_elems(t.dims@, dim as int, len);
                lemma_product_nonneg(
                    outer(t.dims@, dim as int),
                    len as int,
                    inner(t.dims@, dim as int),
                );
            }
            assert(dims@ =~= t.dims@.update(dim as int, (end - start) as usize));
            Ok(Tensor { dims, data })
        },
    }
}

proof fn lemma_product_nonneg(a: int, b: int, c: int)
    requires
        0 <= a,
        0 <= b,
        0 <= c,
    ensures
        0 <= a * (b * c),
{
    assert(0 <= a * (b * c)) by (nonlinear_arith)
        requires
            0 <= a,
            0 <= b,
            0 <= c,
    ;
}

/// Take one indexer after the other.
fn apply_indexers<T: Copy>(t: &Tensor<T>, ixs: &[TensorIndexer]) -> (r: Result<Tensor<T>, Error>)
    requires
        t.wf(),
    ensures
        leaves(picked(piece(*t), 0, ixs@), r),
{
    let mut cur = t.copied();
    let mut dim: usize = 0;
    let ghost whole = picked(piece(*t), 0, ixs@);
    assert(piece(cur) == piece(*t));
    assert(ixs@.skip(0) =~= ixs@);
    for k in 0..ixs.len()
        invariant
            cur.wf(),
            dim <= k,
            whole == picked(piece(cur), dim as int, ixs@.skip(k as int)),
            whole == picked(piece(*t), 0, ixs@),
    {
        let ix = ixs[k];
        assert(ixs@.skip(k as int)[0] == ix);
        assert(ixs@.skip(k as int).skip(1) =~= ixs@.skip(k + 1));
        match take_one(&cur, dim, &ix) {
            Err(e) => return Err(e),
            Ok(next) => {
                let ghost p = taken(piece(cur), dim as int, ix)->Ok_0;
                cur = next;
                assert(piece(cur) == p);
            },
        }
        match ix {
            TensorIndexer::Select(_) => {},
            TensorIndexer::Narrow(_, _) => {
                dim = dim + 1;
            },
        }
    }
    assert(ixs@.skip(ixs@.len() as int).len() == 0);
    Ok(cur)
}

/// What can stand for an indexer.
pub trait Indexer: Sized {
    spec fn stands(self) -> TensorIndexer;

    fn indexer(self) -> (r: TensorIndexer)
        ensures
            r == self.stands(),
    ;
}

impl Indexer for TensorIndexer {
    open spec fn stands(self) -> TensorIndexer {
        self
    }

    fn indexer(self) -> (r: TensorIndexer) {
        self
    }
}

impl Indexer for usize {
    open spec fn stands(self) -> TensorIndexer {
        TensorIndexer::Select(self)
    }

    fn indexer(self) -> (r: TensorIndexer) {
        TensorIndexer::from(self)
    }
}

impl Indexer for core::ops::Range<usize> {
    open spec fn stands(self) -> TensorIndexer {
        TensorIndexer::Narrow(Edge::Included(self.start), Edge::Excluded(self.end))
    }

    fn indexer(self) -> (r: TensorIndexer) {
        TensorIndexer::from(self)
    }
}

/// Indexing: `t.i(2)`, `t.i((TensorIndexer::all(), 3..7))`.
pub trait IndexOp<T> {
    type Out;

    /// It can be indexed.
    spec fn sound(&self) -> bool;

    /// `r` is what the index takes.
    spec fn indexed(&self, index: T, r: Self::Out) -> bool;

    fn i(&self, index: T) -> (r: Self::Out)
        requires
            self.sound(),
        ensures
            self.indexed(index, r),
    ;
}

impl<E: Copy, A: Indexer> IndexOp<A> for Tensor<E> {
    type Out = Result<Tensor<E>, Error>;

    open spec fn sound(&self) -> bool {
        self.wf()
    }

    open spec fn indexed(&self, index: A, r: Result<Tensor<E>, Error>) -> bool {
        leaves(picked(piece(*self), 0, seq![index.stands()]), r)
    }

    fn i(&self, index: A) -> (r: Result<Tensor<E>, Error>) {
        let list: Vec<TensorIndexer> = vec![index.indexer()];
        assert(list@ =~= seq![index.stands()]);
        apply_indexers(self, &list)
    }
}

impl<E: Copy, A: Indexer, B: Indexer> IndexOp<(A, B)> for Tensor<E> {
    type Out = Result<Tensor<E>, Error>;

    open spec fn sound(&self) -> bool {
        self.wf()
    }

    open spec fn indexed(&self, index: (A, B), r: Result<Tensor<E>, Error>) -> bool {
        leaves(
            picked(
                piece(*self),
                0,
                seq![index.0.stands(), index.1.stands()],
            ),
            r,
        )
    }

    fn i(&self, index: (A, B)) -> (r: Result<Tensor<E>, Error>) {
        let list: Vec<TensorIndexer> = vec![index.0.indexer(), index.1.indexer()];
        assert(list@ =~= seq![index.0.stands(), index.1.stands()]);
        apply_indexers(self, &list)
    }
}

impl<E: Copy, A: Indexer, B: Indexer, C: Indexer> IndexOp<(A, B, C)> for Tensor<E> {
    type Out = Result<Tensor<E>, Error>;

    open spec fn sound(&self) -> bool {
        self.wf()
    }

    open spec fn indexed(&self, index: (A, B, C), r: Result<Tensor<E>, Error>) -> bool {
        leaves(
            picked(
                piece(*self),
                0,
                seq![index.0.stands(), index.1.stands(), index.2.stands()],
            ),
            r,
        )
    }

    fn i(&self, index: (A, B, C)) -> (r: Result<Tensor<E>, Error>) {
        let list: Vec<TensorIndexer> = vec![index.0.indexer(), index.1.indexer(), index.2.indexer()];
        assert(list@ =~= seq![index.0.stands(), index.1.stands(), index.2.stands()]);
        apply_indexers(self, &list)
    }
}

impl<E: Copy, A: Indexer, B: Indexer, C: Indexer, D: Indexer> IndexOp<(A, B, C, D)> for Tensor<E> {
    type Out = Result<Tensor<E>, Error>;

    open spec fn sound(&self) -> bool {
        self.wf()
    }

    open spec fn indexed(&self, index: (A, B, C, D), r: Result<Tensor<E>, Error>) -> bool {
        leaves(
            picked(
                piece(*self),
                0,
                seq![index.0.stands(), index.1.stands(), index.2.stands(), index.3.stands()],
            ),
            r,
        )
    }

    fn i(&self, index: (A, B, C, D)) -> (r: Result<Tensor<E>, Error>) {
        let list: Vec<TensorIndexer> = vec![index.0.indexer(), index.1.indexer(), index.2.indexer(), index.3.indexer()];
        assert(list@ =~= seq![index.0.stands(), index.1.stands(), index.2.stands(), index.3.stands()]);
        apply_indexers(self, &list)
    }
}

impl<E: Copy, A: Indexer, B: Indexer, C: Indexer, D: Indexer, F: Indexer> IndexOp<(A, B, C, D, F)> for Tensor<E> {
    type Out = Result<Tensor<E>, Error>;

    open spec fn sound(&self) -> bool {
        self.wf()
    }

    open spec fn indexed(&self, index: (A, B, C, D, F), r: Result<Tensor<E>, Error>) -> bool {
        leaves(
            picked(
                piece(*self),
                0,
                seq![index.0.stands(), index.1.stands(), index.2.stands(), index.3.stands(), index.4.stands()],
            ),
            r,
        )
    }

    fn i(&self, index: (A, B, C, D, F)) -> (r: Result<Tensor<E>, Error>) {
        let list: Vec<TensorIndexer> = vec![index.0.indexer(), index.1.indexer(), index.2.indexer(), index.3.indexer(), index.4.indexer()];
        assert(list@ =~= seq![index.0.stands(), index.1.stands(), index.2.stands(), index.3.stands(), index.4.stands()]);
        apply_indexers(self, &list)
    }
}

impl<E: Copy, A: Indexer, B: Indexer, C: Indexer, D: Indexer, F: Indexer, G: Indexer> IndexOp<(A, B, C, D, F, G)> for Tensor<E> {
    type Out = Result<Tensor<E>, Error>;

    open spec fn sound(&self) -> bool {
        self.wf()
    }

    open spec fn indexed(&self, index: (A, B, C, D, F, G), r: Result<Tensor<E>, Error>) -> bool {
        leaves(
            picked(
                piece(*self),
                0,
                seq![index.0.stands(), index.1.stands(), index.2.stands(), index.3.stands(), index.4.stands(), index.5.stands()],
            ),
            r,
        )
    }

    fn i(&self, index: (A, B, C, D, F, G)) -> (r: Result<Tensor<E>, Error>) {
        let list: Vec<TensorIndexer> = vec![index.0.indexer(), index.1.indexer(), index.2.indexer(), index.3.indexer(), index.4.indexer(), index.5.indexer()];
        assert(list@ =~= seq![index.0.stands(), index.1.stands(), index.2.stands(), index.3.stands(), index.4.stands(), index.5.stands()]);
        apply_indexers(self, &list)
    }
}

} // verus!
