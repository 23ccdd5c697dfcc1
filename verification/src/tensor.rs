//! A dense tensor on the host: its dimensions, and its elements in row-major order.
use vstd::prelude::*;
use crate::arith::{Real, lawful, plus, radd, rmul, times};
use crate::error::Error;
use crate::float::Carrier;

verus! {

/// How many elements a shape has.
pub open spec fn elems(dims: Seq<usize>) -> int
    decreases dims.len(),
{
    if dims.len() == 0 {
        1
    } else {
        elems(dims.drop_last()) * dims.last()
    }
}

/// Dimensions and elements.
#[derive(Clone, Debug)]
pub struct Tensor<T> {
    pub dims: Vec<usize>,
    pub data: Vec<T>,
}

impl<T> Tensor<T> {
    /// There is an element for every place of the shape.
    pub open spec fn wf(self) -> bool {
        self.data@.len() == elems(self.dims@)
    }

    /// The last dimension.
    pub open spec fn last_dim(self) -> int
        recommends
            self.dims@.len() > 0,
    {
        self.dims@.last() as int
    }
}

pub proof fn lemma_elems_nonneg(dims: Seq<usize>)
    ensures
        0 <= elems(dims),
    decreases dims.len(),
{
    if dims.len() > 0 {
        lemma_elems_nonneg(dims.drop_last());
        assert(0 <= elems(dims.drop_last()) * dims.last()) by (nonlinear_arith)
            requires
                0 <= elems(dims.drop_last()),
                0 <= dims.last(),
        ;
    }
}

/// A shape split in two has as many elements as the two parts' product.
pub proof fn lemma_elems_split(dims: Seq<usize>, at: int)
    requires
        0 <= at <= dims.len(),
    ensures
        elems(dims) == elems(dims.take(at)) * elems(dims.skip(at)),
    decreases dims.len() - at,
{
    if at == dims.len() {
        assert(dims.take(at) =~= dims);
        assert(dims.skip(at) =~= Seq::empty());
        assert(elems(dims) * 1 == elems(dims)) by (nonlinear_arith);
    } else {
        lemma_elems_split(dims.drop_last(), at);
        assert(dims.drop_last().take(at) =~= dims.take(at));
        assert(dims.drop_last().skip(at) =~= dims.skip(at).drop_last());
        assert(dims.skip(at).last() == dims.last());
        let (a, b, c) = (
            elems(dims.take(at)),
            elems(dims.skip(at).drop_last()),
            dims.last() as int,
        );
        assert((a * b) * c == a * (b * c)) by (nonlinear_arith);
    }
}

/// The elements of the shapes written out.
pub proof fn lemma_elems_of_short(dims: Seq<usize>)
    ensures
        dims.len() == 1 ==> elems(dims) == dims[0],
        dims.len() == 2 ==> elems(dims) == dims[0] * dims[1],
        dims.len() == 3 ==> elems(dims) == dims[0] * dims[1] * dims[2],
        dims.len() == 4 ==> elems(dims) == dims[0] * dims[1] * dims[2] * dims[3],
{
    reveal_with_fuel(elems, 5);
    if dims.len() == 1 {
        assert(1 * dims[0] == dims[0]) by (nonlinear_arith);
    } else if dims.len() == 2 {
        assert(dims.drop_last().last() == dims[0]);
        assert(1 * dims[0] == dims[0]) by (nonlinear_arith);
    } else if dims.len() == 3 {
        assert(dims.drop_last().last() == dims[1]);
        assert(dims.drop_last().drop_last().last() == dims[0]);
        assert(1 * dims[0] == dims[0]) by (nonlinear_arith);
    } else if dims.len() == 4 {
        assert(dims.drop_last().last() == dims[2]);
        assert(dims.drop_last().drop_last().last() == dims[1]);
        assert(dims.drop_last().drop_last().drop_last().last() == dims[0]);
        assert(1 * dims[0] == dims[0]) by (nonlinear_arith);
    }
}

/// How many elements a shape has, where that is a number at all.
pub fn count(dims: &[usize]) -> (r: Option<usize>)
    ensures
        r matches Some(n) ==> n == elems(dims@),
        r is None ==> elems(dims@) > usize::MAX,
{
    let mut n: usize = 1;
    let mut over = false;
    for i in 0..dims.len()
        invariant
            !over ==> n == elems(dims@.take(i as int)),
            over ==> elems(dims@.take(i as int)) > usize::MAX || (exists|k: int|
                0 <= k < i && #[trigger] dims@[k] == 0),
            over ==> n == 0 || n == 1,
            over && n == 0 ==> elems(dims@.take(i as int)) == 0,
            over && n == 1 ==> elems(dims@.take(i as int)) > usize::MAX,
    {
        let ghost before = dims@.take(i as int);
        let ghost after = dims@.take(i + 1);
        assert(after.drop_last() =~= before);
        assert(after.last() == dims@[i as int]);
        proof {
            lemma_elems_nonneg(before);
        }
        if over {
            let d: usize = dims[i];
            if n == 1 && d == 0 {
                assert(elems(before) * 0 == 0) by (nonlinear_arith);
                n = 0;
            } else if n == 1 {
                assert(elems(before) * d >= elems(before)) by (nonlinear_arith)
                    requires
                        d >= 1,
                        elems(before) >= 0,
                ;
            } else {
                assert(0 * d == 0) by (nonlinear_arith);
            }
        } else {
            match n.checked_mul(dims[i]) {
                Some(p) => {
                    n = p;
                },
                None => {
                    over = true;
                    n = 1;
                },
            }
        }
    }
    assert(dims@.take(dims@.len() as int) =~= dims@);
    if over {
        if n == 0 {
            Some(0)
        } else {
            None
        }
    } else {
        Some(n)
    }
}

impl<T: Copy> Tensor<T> {
    /// A tensor of these elements; a shape they do not fill is refused.
    pub fn from_vec(data: Vec<T>, dims: Vec<usize>) -> (r: Result<Tensor<T>, Error>)
        ensures
            r is Ok <==> data@.len() == elems(dims@),
            r matches Ok(t) ==> t.data@ == data@ && t.dims@ == dims@ && t.wf(),
            r matches Err(e) ==> e == Error::Shape,
    {
        let have: usize = data.len();
        match count(&dims) {
            Some(n) => if n == have {
                Ok(Tensor { dims, data })
            } else {
                Err(Error::Shape)
            },
            None => Err(Error::Shape),
        }
    }

    /// The same elements under another shape.
    pub fn reshape(&self, dims: Vec<usize>) -> (r: Result<Tensor<T>, Error>)
        requires
            self.wf(),
        ensures
            r is Ok <==> elems(dims@) == elems(self.dims@),
            r matches Ok(t) ==> t.data@ == self.data@ && t.dims@ == dims@ && t.wf(),
            r matches Err(e) ==> e == Error::Shape,
    {
        Tensor::from_vec(copy_run(&self.data), dims)
    }

    /// A copy.
    pub fn copied(&self) -> (r: Tensor<T>)
        ensures
            r.dims@ == self.dims@,
            r.data@ == self.data@,
    {
        Tensor { dims: copy_run(&self.dims), data: copy_run(&self.data) }
    }

    /// The last dimension; a tensor of no dimensions has none.
    pub fn last(&self) -> (r: Result<usize, Error>)
        ensures
            r is Ok <==> self.dims@.len() > 0,
            r matches Ok(n) ==> n == self.dims@.last(),
            r matches Err(e) ==> e == (Error::Rank { want: 1, have: 0 }),
    {
        let rank: usize = self.dims.len();
        if rank == 0 {
            Err(Error::Rank { want: 1, have: 0 })
        } else {
            Ok(self.dims[rank - 1])
        }
    }
}

/// A copy of a run.
pub fn copy_run<T: Copy>(x: &[T]) -> (v: Vec<T>)
    ensures
        v@ == x@,
{
    let mut v: Vec<T> = Vec::with_capacity(x.len());
    for i in 0..x.len()
        invariant
            v@.len() == i,
            forall|j: int| 0 <= j < i ==> #[trigger] v@[j] == x@[j],
    {
        v.push(x[i]);
    }
    assert(v@ =~= x@);
    v
}

/// A tensor's elements as one flat row of wide values, in logical order.
pub fn host_f32<R: Real, C: Carrier<R>>(t: &Tensor<C>) -> (r: Result<Vec<R>, Error>)
    requires
        lawful::<R>(),
    ensures
        r matches Ok(v) && v@.len() == t.data@.len() && forall|i: int|
            0 <= i < v@.len() ==> #[trigger] v@[i] == t.data@[i].stands_for(),
{
    let mut v: Vec<R> = Vec::with_capacity(t.data.len());
    for i in 0..t.data.len()
        invariant
            lawful::<R>(),
            v@.len() == i,
            forall|j: int| 0 <= j < i ==> #[trigger] v@[j] == t.data@[j].stands_for(),
    {
        v.push(t.data[i].widened());
    }
    Ok(v)
}

// -- one dimension of a shape --

/// What lies before, at and after dimension `dim`: runs of `size` elements, `inner` apart,
/// `outer` times.
pub open spec fn outer(dims: Seq<usize>, dim: int) -> int {
    elems(dims.take(dim))
}

pub open spec fn inner(dims: Seq<usize>, dim: int) -> int {
    elems(dims.skip(dim + 1))
}

/// Element `j` of run `i` of outer place `o`.
pub open spec fn strand(size: int, inner: int, o: int, j: int, i: int) -> int {
    (o * size + j) * inner + i
}

/// A shape's elements, by one of its dimensions.
pub proof fn lemma_elems_by_dim(dims: Seq<usize>, dim: int)
    requires
        0 <= dim < dims.len(),
    ensures
        elems(dims) == (outer(dims, dim) * dims[dim]) * inner(dims, dim),
        0 <= outer(dims, dim),
        0 <= inner(dims, dim),
{
    lemma_elems_split(dims, dim + 1);
    lemma_elems_nonneg(dims.take(dim));
    lemma_elems_nonneg(dims.skip(dim + 1));
    assert(dims.take(dim + 1).drop_last() =~= dims.take(dim));
    assert(dims.take(dim + 1).last() == dims[dim]);
}

/// A strand lies inside its tensor.
pub proof fn lemma_strand_inside(out: int, size: int, inn: int, o: int, j: int, i: int)
    requires
        0 <= o < out,
        0 <= j < size,
        0 <= i < inn,
    ensures
        0 <= strand(size, inn, o, j, i) < (out * size) * inn,
        0 <= o * size + j < out * size,
{
    assert(0 <= o * size + j < out * size) by (nonlinear_arith)
        requires
            0 <= o,
            o + 1 <= out,
            0 <= j < size,
    ;
    let p = o * size + j;
    let q = out * size;
    assert(0 <= p * inn + i < q * inn) by (nonlinear_arith)
        requires
            0 <= p,
            p + 1 <= q,
            0 <= i < inn,
    ;
}

/// A place has one strand.
pub proof fn lemma_strand_unique(
    size: int,
    inn: int,
    o: int,
    j: int,
    i: int,
    p: int,
    k: int,
    l: int,
)
    requires
        0 <= j < size,
        0 <= k < size,
        0 <= i < inn,
        0 <= l < inn,
        strand(size, inn, o, j, i) == strand(size, inn, p, k, l),
    ensures
        o == p,
        j == k,
        i == l,
{
    let a = o * size + j;
    let b = p * size + k;
    vstd::arithmetic::div_mod::lemma_fundamental_div_mod_converse(a * inn + i, inn, a, i);
    vstd::arithmetic::div_mod::lemma_fundamental_div_mod_converse(b * inn + l, inn, b, l);
    vstd::arithmetic::div_mod::lemma_fundamental_div_mod_converse(o * size + j, size, o, j);
    vstd::arithmetic::div_mod::lemma_fundamental_div_mod_converse(p * size + k, size, p, k);
}

/// The elements before and after a dimension, and that dimension.
pub fn around<T>(t: &Tensor<T>, dim: usize) -> (r: (usize, usize, usize))
    requires
        t.wf(),
        dim < t.dims@.len(),
        elems(t.dims@) > 0,
    ensures
        r.0 == outer(t.dims@, dim as int),
        r.1 == t.dims@[dim as int],
        r.2 == inner(t.dims@, dim as int),
        (r.0 * r.1) * r.2 == t.data@.len(),
        r.0 > 0,
        r.1 > 0,
        r.2 > 0,
{
    let total: usize = t.data.len();
    let rank: usize = t.dims.len();
    let ghost dims = t.dims@;
    proof {
        lemma_elems_by_dim(dims, dim as int);
        let (a, b, c) = (outer(dims, dim as int), dims[dim as int] as int, inner(dims, dim as int));
        assert(a > 0 && b > 0 && c > 0 && a <= (a * b) * c && c <= (a * b) * c) by (nonlinear_arith)
            requires
                a >= 0,
                b >= 0,
                c >= 0,
                (a * b) * c > 0,
        ;
    }
    let head = &t.dims[0..dim];
    let tail = &t.dims[dim + 1..rank];
    assert(head@ =~= dims.take(dim as int));
    assert(tail@ =~= dims.skip(dim + 1));
    let a: usize = match count(head) {
        Some(n) => n,
        None => 0,
    };
    let c: usize = match count(tail) {
        Some(n) => n,
        None => 0,
    };
    (a, t.dims[dim], c)
}

// -- two shapes side by side --

/// What two dimensions stretch to: the longer where the other is one.
pub open spec fn joint(a: usize, b: usize) -> Option<usize> {
    if a == b || b == 1 {
        Some(a)
    } else if a == 1 {
        Some(b)
    } else {
        None
    }
}

/// What two shapes stretch to, aligned at their last dimensions.
pub open spec fn joined(a: Seq<usize>, b: Seq<usize>) -> Option<Seq<usize>>
    decreases a.len(),
{
    if a.len() == 0 {
        Some(b)
    } else if b.len() == 0 {
        Some(a)
    } else {
        match (joined(a.drop_last(), b.drop_last()), joint(a.last(), b.last())) {
            (Some(d), Some(x)) => Some(d.push(x)),
            _ => None,
        }
    }
}

/// Shape `s` stretches to `dims`.
pub open spec fn stretches(dims: Seq<usize>, s: Seq<usize>) -> bool
    decreases s.len(),
{
    s.len() == 0 || (dims.len() > 0 && (s.last() == dims.last() || s.last() == 1) && stretches(
        dims.drop_last(),
        s.drop_last(),
    ))
}

/// The element of a tensor of shape `s` that element `i` of its stretch to `dims` repeats.
pub open spec fn source(dims: Seq<usize>, s: Seq<usize>, i: int) -> int
    decreases s.len(),
{
    if s.len() == 0 || dims.len() == 0 {
        0
    } else {
        source(dims.drop_last(), s.drop_last(), i / dims.last() as int) * s.last() + (if s.last()
            == 1 {
            0
        } else {
            i % dims.last() as int
        })
    }
}

/// A shape stretches to itself, each element repeating itself.
pub proof fn lemma_stretches_to_itself(s: Seq<usize>, i: int)
    requires
        0 <= i < elems(s),
    ensures
        stretches(s, s),
        source(s, s, i) == i,
    decreases s.len(),
{
    if s.len() > 0 {
        let d = s.last() as int;
        lemma_elems_nonneg(s.drop_last());
        lemma_down(elems(s.drop_last()), d, i);
        lemma_stretches_to_itself(s.drop_last(), i / d);
    }
}

/// A place of a product lies in one of its rows.
proof fn lemma_down(a: int, d: int, i: int)
    requires
        0 <= a,
        0 <= d,
        0 <= i < a * d,
    ensures
        0 < d,
        0 <= i / d < a,
        0 <= i % d < d,
        i == (i / d) * d + i % d,
{
    assert(0 < d) by (nonlinear_arith)
        requires
            0 <= d,
            0 < a * d,
    ;
    vstd::arithmetic::div_mod::lemma_fundamental_div_mod(i, d);
    vstd::arithmetic::div_mod::lemma_mod_bound(i, d);
    let q = i / d;
    assert(d * q == q * d) by (nonlinear_arith);
    assert(0 <= q < a) by (nonlinear_arith)
        requires
            0 < d,
            0 <= i < a * d,
            0 <= i - q * d < d,
    ;
}

/// What a stretched place repeats is there.
pub proof fn lemma_source_inside(dims: Seq<usize>, s: Seq<usize>, i: int)
    requires
        stretches(dims, s),
        0 <= i < elems(dims),
    ensures
        0 <= source(dims, s, i) < elems(s),
    decreases s.len(),
{
    if s.len() > 0 {
        let d = dims.last() as int;
        lemma_elems_nonneg(dims.drop_last());
        lemma_down(elems(dims.drop_last()), d, i);
        lemma_source_inside(dims.drop_last(), s.drop_last(), i / d);
        let (p, e, l) = (
            source(dims.drop_last(), s.drop_last(), i / d),
            elems(s.drop_last()),
            s.last() as int,
        );
        let c = if l == 1 {
            0
        } else {
            i % d
        };
        assert(0 <= p * l + c < e * l) by (nonlinear_arith)
            requires
                0 <= p,
                p + 1 <= e,
                0 <= c < l,
        ;
    }
}

/// Two shapes stretch to what they stretch to.
pub proof fn lemma_joined_stretches(a: Seq<usize>, b: Seq<usize>)
    requires
        joined(a, b) is Some,
    ensures
        stretches(joined(a, b)->0, a),
        stretches(joined(a, b)->0, b),
    decreases a.len(),
{
    if a.len() == 0 {
        lemma_stretches_same(b);
    } else if b.len() == 0 {
        lemma_stretches_same(a);
    } else {
        lemma_joined_stretches(a.drop_last(), b.drop_last());
        let d = joined(a.drop_last(), b.drop_last())->0;
        assert(joined(a, b)->0.drop_last() =~= d);
    }
}

proof fn lemma_stretches_same(s: Seq<usize>)
    ensures
        stretches(s, s),
    decreases s.len(),
{
    if s.len() > 0 {
        lemma_stretches_same(s.drop_last());
    }
}

/// What two shapes stretch to.
pub fn join_dims(a: &[usize], b: &[usize]) -> (r: Option<Vec<usize>>)
    ensures
        r is Some <==> joined(a@, b@) is Some,
        r matches Some(d) ==> d@ == joined(a@, b@)->0,
    decreases a@.len(),
{
    let (m, n): (usize, usize) = (a.len(), b.len());
    if m == 0 {
        return Some(copy_run(b));
    }
    if n == 0 {
        return Some(copy_run(a));
    }
    let (x, y): (usize, usize) = (a[m - 1], b[n - 1]);
    let (head, other) = (&a[0..m - 1], &b[0..n - 1]);
    assert(head@ =~= a@.drop_last());
    assert(other@ =~= b@.drop_last());
    match join_dims(head, other) {
        None => None,
        Some(mut d) => if x == y || y == 1 {
            d.push(x);
            Some(d)
        } else if x == 1 {
            d.push(y);
            Some(d)
        } else {
            None
        },
    }
}

/// The element that element `i` of a stretch repeats.
fn source_of(dims: &[usize], s: &[usize], i: usize) -> (r: usize)
    requires
        stretches(dims@, s@),
        i < elems(dims@),
        elems(s@) <= usize::MAX,
    ensures
        r == source(dims@, s@, i as int),
    decreases s@.len(),
{
    let (m, n): (usize, usize) = (dims.len(), s.len());
    if n == 0 {
        return 0;
    }
    let d: usize = dims[m - 1];
    let l: usize = s[n - 1];
    let (head, other) = (&dims[0..m - 1], &s[0..n - 1]);
    assert(head@ =~= dims@.drop_last());
    assert(other@ =~= s@.drop_last());
    proof {
        lemma_elems_nonneg(head@);
        lemma_elems_nonneg(other@);
        lemma_down(elems(head@), d as int, i as int);
        lemma_source_inside(dims@, s@, i as int);
        lemma_source_inside(head@, other@, i as int / d as int);
        let e = elems(other@);
        assert(e <= e * l) by (nonlinear_arith)
            requires
                0 <= e,
                1 <= l,
        ;
    }
    let p: usize = source_of(head, other, i / d);
    assert(0 <= p * l) by (nonlinear_arith)
        requires
            0 <= p,
            0 <= l,
    ;
    p * l + (if l == 1 {
        0
    } else {
        i % d
    })
}

/// What two tensors' elements are combined by.
#[derive(Clone, Copy, PartialEq, Eq, Structural, Debug)]
pub enum Pairwise {
    Sum,
    Product,
}

pub open spec fn paired<R: Real>(op: Pairwise, a: R, b: R) -> R {
    match op {
        Pairwise::Sum => radd(a, b),
        Pairwise::Product => rmul(a, b),
    }
}

/// The elements of two stretched tensors, combined.
pub open spec fn stretched_pairs<R: Real>(
    op: Pairwise,
    ad: Seq<usize>,
    a: Seq<R>,
    bd: Seq<usize>,
    b: Seq<R>,
) -> Seq<R> {
    let dims = joined(ad, bd)->0;
    Seq::new(
        elems(dims) as nat,
        |i: int| paired(op, a[source(dims, ad, i)], b[source(dims, bd, i)]),
    )
}

/// Combine two tensors, each stretched over the dimensions in which it is one long.
pub fn broadcast<R: Real>(op: Pairwise, a: &Tensor<R>, b: &Tensor<R>) -> (r: Result<
    Tensor<R>,
    Error,
>)
    requires
        lawful::<R>(),
        a.wf(),
        b.wf(),
    ensures
        r is Ok <==> (joined(a.dims@, b.dims@) is Some && elems(joined(a.dims@, b.dims@)->0)
            <= usize::MAX),
        r matches Err(e) ==> e == Error::Shape,
        r matches Ok(t) ==> t.wf() && t.dims@ == joined(a.dims@, b.dims@)->0 && t.data@
            == stretched_pairs(op, a.dims@, a.data@, b.dims@, b.data@),
{
    let dims = match join_dims(&a.dims, &b.dims) {
        Some(d) => d,
        None => return Err(Error::Shape),
    };
    let n: usize = match count(&dims) {
        Some(n) => n,
        None => return Err(Error::Shape),
    };
    let (na, nb): (usize, usize) = (a.data.len(), b.data.len());
    proof {
        lemma_joined_stretches(a.dims@, b.dims@);
    }
    let ghost want = stretched_pairs(op, a.dims@, a.data@, b.dims@, b.data@);
    let mut data: Vec<R> = Vec::with_capacity(n);
    for i in 0..n
        invariant
            lawful::<R>(),
            a.wf(),
            b.wf(),
            na == a.data@.len(),
            nb == b.data@.len(),
            n == elems(dims@),
            stretches(dims@, a.dims@),
            stretches(dims@, b.dims@),
            want == stretched_pairs(op, a.dims@, a.data@, b.dims@, b.data@),
            Some(dims@) == joined(a.dims@, b.dims@),
            data@.len() == i,
            forall|j: int| 0 <= j < i ==> #[trigger] data@[j] == want[j],
    {
        proof {
            lemma_source_inside(dims@, a.dims@, i as int);
            lemma_source_inside(dims@, b.dims@, i as int);
        }
        let x = a.data[source_of(&dims, &a.dims, i)];
        let y = b.data[source_of(&dims, &b.dims, i)];
        let z = match op {
            Pairwise::Sum => plus(x, y),
            Pairwise::Product => times(x, y),
        };
        data.push(z);
    }
    proof {
        lemma_elems_nonneg(dims@);
    }
    assert(data@ =~= want);
    Ok(Tensor { dims, data })
}

/// `a + b`, stretched.
pub fn broadcast_add<R: Real>(a: &Tensor<R>, b: &Tensor<R>) -> (r: Result<Tensor<R>, Error>)
    requires
        lawful::<R>(),
        a.wf(),
        b.wf(),
    ensures
        r is Ok <==> (joined(a.dims@, b.dims@) is Some && elems(joined(a.dims@, b.dims@)->0)
            <= usize::MAX),
        r matches Err(e) ==> e == Error::Shape,
        r matches Ok(t) ==> t.wf() && t.dims@ == joined(a.dims@, b.dims@)->0 && t.data@
            == stretched_pairs(Pairwise::Sum, a.dims@, a.data@, b.dims@, b.data@),
{
    broadcast(Pairwise::Sum, a, b)
}

} // verus!
