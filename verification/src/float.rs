//! The unquantised carriers, as block formats of one value.
//!
//! Single precision, half precision and brain floats implement the same traits as the blocks, so
//! a product takes any weight type without branching on it. Their block is one value and they
//! have no scale to fit.
//!
//! A dot product runs thirty-two values at a time in four chains of eight lanes, then folds the
//! chains, then the lanes, then adds the tail one value at a time. The two fold orders are not
//! interchangeable: addition does not associate, so each carrier keeps the order it has.
use vstd::prelude::*;
use crate::arith::{
    Brain, Half, Real, lawful, radd, rbits, rhalf, rmul, rto_brain, rto_half, rzero, from_bits,
    narrow, narrow_brain, plus, times, widen, zero,
};
use crate::blocks::{BlockFormat, GgmlDType, Quantized};
use crate::coded::shared;

verus! {

/// A single-precision value.
#[derive(Debug)]
pub struct Single<R> {
    pub v: R,
}

impl<R: Copy> Copy for Single<R> {

}

impl<R: Copy> Clone for Single<R> {
    fn clone(&self) -> (r: Self)
        ensures
            r == *self,
    {
        *self
    }
}

/// A value stored as itself.
pub trait Carrier<R: Real>: Copy {
    /// The value it stands for.
    spec fn stands_for(self) -> R;

    /// Neighbouring chains are folded first; otherwise chains half the array apart are.
    spec fn neighbours_first() -> bool;

    fn widened(&self) -> (r: R)
        requires
            lawful::<R>(),
        ensures
            r == self.stands_for(),
    ;

    fn folds_neighbours() -> (r: bool)
        ensures
            r == Self::neighbours_first(),
    ;
}

impl<R: Real> Carrier<R> for Single<R> {
    open spec fn stands_for(self) -> R {
        self.v
    }

    open spec fn neighbours_first() -> bool {
        true
    }

    fn widened(&self) -> R {
        self.v
    }

    fn folds_neighbours() -> bool {
        true
    }
}

impl<R: Real> Carrier<R> for Half {
    open spec fn stands_for(self) -> R {
        rhalf(self)
    }

    open spec fn neighbours_first() -> bool {
        false
    }

    fn widened(&self) -> R {
        widen(*self)
    }

    fn folds_neighbours() -> bool {
        false
    }
}

/// A brain float is the top half of a single-precision pattern.
pub open spec fn brain_value<R: Real>(b: Brain) -> R {
    rbits::<R>((b.bits * 65536) as u32)
}

impl<R: Real> Carrier<R> for Brain {
    open spec fn stands_for(self) -> R {
        brain_value(self)
    }

    open spec fn neighbours_first() -> bool {
        false
    }

    fn widened(&self) -> R {
        from_bits::<R>(self.bits as u32 * 65536)
    }

    fn folds_neighbours() -> bool {
        false
    }
}

// -- elements --

/// The widths an element is stored at.
#[derive(Clone, Copy, Debug, PartialEq, Eq, Structural)]
pub enum Kind {
    Single,
    Half,
    Brain,
}

/// A value, as it reads back after being stored at a width.
pub open spec fn kept_at<R: Real>(kind: Kind, v: R) -> R {
    match kind {
        Kind::Single => v,
        Kind::Half => rhalf(rto_half::<R>(v)),
        Kind::Brain => brain_value(rto_brain::<R>(v)),
    }
}

/// A value, stored at a width and read back.
pub fn keep<R: Real>(kind: Kind, v: R) -> (r: R)
    requires
        lawful::<R>(),
    ensures
        r == kept_at(kind, v),
{
    match kind {
        Kind::Single => v,
        Kind::Half => widen(narrow(v)),
        Kind::Brain => <Brain as Carrier<R>>::widened(&narrow_brain(v)),
    }
}

/// An element of a tensor: a value as it is stored.
pub trait Element<R: Real>: Carrier<R> {
    /// The element nearest to a value.
    spec fn nearest_to(v: R) -> Self;

    /// The width it is stored at.
    spec fn kind() -> Kind;

    /// Storing a value and reading it back is what its width keeps of it.
    proof fn kept_is_stored(v: R)
        ensures
            Self::nearest_to(v).stands_for() == kept_at(Self::kind(), v),
    ;

    fn stored(v: R) -> (r: Self)
        requires
            lawful::<R>(),
        ensures
            r == Self::nearest_to(v),
    ;

    fn width_kind() -> (r: Kind)
        ensures
            r == Self::kind(),
    ;
}

impl<R: Real> Element<R> for Single<R> {
    open spec fn nearest_to(v: R) -> Self {
        Single { v }
    }

    open spec fn kind() -> Kind {
        Kind::Single
    }

    proof fn kept_is_stored(v: R) {
    }

    fn stored(v: R) -> Self {
        Single { v }
    }

    fn width_kind() -> Kind {
        Kind::Single
    }
}

impl<R: Real> Element<R> for Half {
    open spec fn nearest_to(v: R) -> Self {
        rto_half(v)
    }

    open spec fn kind() -> Kind {
        Kind::Half
    }

    proof fn kept_is_stored(v: R) {
    }

    fn stored(v: R) -> Self {
        narrow(v)
    }

    fn width_kind() -> Kind {
        Kind::Half
    }
}

impl<R: Real> Element<R> for Brain {
    open spec fn nearest_to(v: R) -> Self {
        rto_brain(v)
    }

    open spec fn kind() -> Kind {
        Kind::Brain
    }

    proof fn kept_is_stored(v: R) {
    }

    fn stored(v: R) -> Self {
        narrow_brain(v)
    }

    fn width_kind() -> Kind {
        Kind::Brain
    }
}

// -- products --

/// The product of value `i` of two runs.
pub open spec fn term<R: Real, C: Carrier<R>>(xs: Seq<C>, ys: Seq<C>, i: int) -> R {
    rmul(xs[i].stands_for(), ys[i].stands_for())
}

/// Lane `l` of chain `j` after `n` whole strides.
pub open spec fn stride_chain<R: Real, C: Carrier<R>>(
    xs: Seq<C>,
    ys: Seq<C>,
    n: nat,
    j: int,
    l: int,
) -> R
    decreases n,
{
    if n == 0 {
        rzero::<R>()
    } else {
        radd(
            term::<R, C>(xs, ys, 32 * (n - 1) + 8 * j + l),
            stride_chain(xs, ys, (n - 1) as nat, j, l),
        )
    }
}

/// Lane `l` of the four chains, folded.
pub open spec fn folded<R: Real, C: Carrier<R>>(xs: Seq<C>, ys: Seq<C>, n: nat, l: int) -> R {
    let c = |j: int| stride_chain::<R, C>(xs, ys, n, j, l);
    if C::neighbours_first() {
        radd(radd(c(0), c(1)), radd(c(2), c(3)))
    } else {
        radd(radd(c(0), c(2)), radd(c(1), c(3)))
    }
}

/// The eight lanes, folded: halves, then pairs.
pub open spec fn across<R: Real>(v: Seq<R>) -> R {
    let h = |i: int| radd(v[i], v[i + 4]);
    radd(radd(h(0), h(1)), radd(h(2), h(3)))
}

/// The first `k` values: whole strides in chains, then the tail one by one.
pub open spec fn carrier_dot<R: Real, C: Carrier<R>>(xs: Seq<C>, ys: Seq<C>, k: nat) -> R {
    tail_sum::<R, C>(
        xs,
        ys,
        across(Seq::new(8, |l: int| folded::<R, C>(xs, ys, k / 32, l))),
        (32 * (k / 32)) as int,
        k as int,
    )
}

/// `sum` and the products of values `from .. to`.
pub open spec fn tail_sum<R: Real, C: Carrier<R>>(
    xs: Seq<C>,
    ys: Seq<C>,
    sum: R,
    from: int,
    to: int,
) -> R
    decreases to - from,
{
    if to <= from {
        sum
    } else {
        radd(tail_sum(xs, ys, sum, from, to - 1), term::<R, C>(xs, ys, to - 1))
    }
}

/// The four chains of one stride more.
fn add_stride<R: Real, C: Carrier<R>>(xs: &[C], ys: &[C], s: usize, acc: &mut [R; 32])
    requires
        lawful::<R>(),
        32 * s + 32 <= xs@.len(),
        32 * s + 32 <= ys@.len(),
    ensures
        forall|i: int|
            0 <= i < 32 ==> #[trigger] final(acc)@[i] == radd(
                term::<R, C>(xs@, ys@, 32 * s + i),
                old(acc)@[i],
            ),
{
    let ghost start = acc@;
    let room: usize = xs.len();
    for i in 0..32usize
        invariant
            lawful::<R>(),
            room == xs@.len(),
            32 * s + 32 <= room,
            32 * s + 32 <= ys@.len(),
            forall|k: int|
                0 <= k < 32 ==> #[trigger] acc@[k] == (if k < i {
                    radd(term::<R, C>(xs@, ys@, 32 * s + k), start[k])
                } else {
                    start[k]
                }),
    {
        let at: usize = 32 * s + i;
        acc[i] = plus(times(xs[at].widened(), ys[at].widened()), acc[i]);
    }
}

/// The dot product of two runs of carriers, over the values both have.
pub fn vec_dot_carrier<R: Real, C: Carrier<R>>(xs: &[C], ys: &[C]) -> (r: R)
    requires
        lawful::<R>(),
    ensures
        r == carrier_dot::<R, C>(xs@, ys@, shared(xs@.len(), ys@.len())),
{
    let k: usize = if xs.len() <= ys.len() { xs.len() } else { ys.len() };
    let strides: usize = k / 32;
    let mut acc: [R; 32] = [zero::<R>(); 32];
    assert forall|i: int| 0 <= i < 32 implies #[trigger] acc@[i] == rzero::<R>() by {
        vstd::array::axiom_spec_array_fill_for_copy_type::<R, 32>(rzero::<R>());
    }
    for s in 0..strides
        invariant
            lawful::<R>(),
            k == shared(xs@.len(), ys@.len()),
            strides == k / 32,
            forall|i: int|
                0 <= i < 32 ==> #[trigger] acc@[i] == stride_chain::<R, C>(
                    xs@,
                    ys@,
                    s as nat,
                    i / 8,
                    i % 8,
                ),
    {
        add_stride::<R, C>(xs, ys, s, &mut acc);
        assert forall|i: int| 0 <= i < 32 implies #[trigger] acc@[i] == stride_chain::<R, C>(
            xs@,
            ys@,
            (s + 1) as nat,
            i / 8,
            i % 8,
        ) by {
            assert(32 * s + 8 * (i / 8) + i % 8 == 32 * s + i);
        }
    }
    let mut v: [R; 8] = [zero::<R>(); 8];
    for l in 0..8usize
        invariant
            lawful::<R>(),
            strides == k / 32,
            forall|i: int|
                0 <= i < 32 ==> #[trigger] acc@[i] == stride_chain::<R, C>(
                    xs@,
                    ys@,
                    strides as nat,
                    i / 8,
                    i % 8,
                ),
            forall|i: int|
                0 <= i < l ==> #[trigger] v@[i] == folded::<R, C>(xs@, ys@, strides as nat, i),
    {
        assert(acc@[l as int] == stride_chain::<R, C>(xs@, ys@, strides as nat, 0, l as int));
        assert(acc@[8 + l] == stride_chain::<R, C>(xs@, ys@, strides as nat, 1, l as int));
        assert(acc@[16 + l] == stride_chain::<R, C>(xs@, ys@, strides as nat, 2, l as int));
        assert(acc@[24 + l] == stride_chain::<R, C>(xs@, ys@, strides as nat, 3, l as int));
        v[l] = if C::folds_neighbours() {
            plus(plus(acc[l], acc[8 + l]), plus(acc[16 + l], acc[24 + l]))
        } else {
            plus(plus(acc[l], acc[16 + l]), plus(acc[8 + l], acc[24 + l]))
        };
    }
    assert(v@ =~= Seq::new(8, |l: int| folded::<R, C>(xs@, ys@, strides as nat, l)));
    let h0 = plus(v[0], v[4]);
    let h1 = plus(v[1], v[5]);
    let h2 = plus(v[2], v[6]);
    let h3 = plus(v[3], v[7]);
    let mut sum = plus(plus(h0, h1), plus(h2, h3));
    let ghost whole = sum;
    let mut i: usize = 32 * strides;
    while i < k
        invariant
            lawful::<R>(),
            k == shared(xs@.len(), ys@.len()),
            strides == k / 32,
            32 * strides <= i <= k,
            sum == tail_sum::<R, C>(xs@, ys@, whole, 32 * strides, i as int),
        decreases k - i,
    {
        sum = plus(sum, times(xs[i].widened(), ys[i].widened()));
        i = i + 1;
    }
    sum
}

/// Single-precision values.
pub fn vec_dot_f32<R: Real>(xs: &[Single<R>], ys: &[Single<R>]) -> (r: R)
    requires
        lawful::<R>(),
    ensures
        r == carrier_dot::<R, Single<R>>(xs@, ys@, shared(xs@.len(), ys@.len())),
{
    vec_dot_carrier::<R, Single<R>>(xs, ys)
}

/// Half-precision values.
pub fn vec_dot_f16<R: Real>(xs: &[Half], ys: &[Half]) -> (r: R)
    requires
        lawful::<R>(),
    ensures
        r == carrier_dot::<R, Half>(xs@, ys@, shared(xs@.len(), ys@.len())),
{
    vec_dot_carrier::<R, Half>(xs, ys)
}

/// Brain floats.
pub fn vec_dot_bf16<R: Real>(xs: &[Brain], ys: &[Brain]) -> (r: R)
    requires
        lawful::<R>(),
    ensures
        r == carrier_dot::<R, Brain>(xs@, ys@, shared(xs@.len(), ys@.len())),
{
    vec_dot_carrier::<R, Brain>(xs, ys)
}

impl<R: Real> Quantized<R> for Single<R> {
    open spec fn width() -> nat {
        1
    }

    open spec fn value(self, e: int) -> R {
        <Single<R> as Carrier<R>>::stands_for(self)
    }

    open spec fn encodes(x: Seq<R>, b: Self) -> bool {
        b.v == x[0]
    }

    open spec fn is_zero(self) -> bool {
        self.v == rzero::<R>()
    }

    fn block_len() -> usize {
        1
    }

    fn zeros() -> Self {
        Single { v: zero::<R>() }
    }

    fn decode_into(&self, ys: &mut [R], at: usize) {
        ys[at] = <Single<R> as Carrier<R>>::widened(self);
    }

    fn encode_block(x: &[R]) -> Self {
        Single { v: x[0] }
    }
}

impl<R: Real> BlockFormat<R> for Single<R> {
    type ActivationBlock = Single<R>;

    open spec fn dtype_of() -> GgmlDType {
        GgmlDType::F32
    }

    open spec fn dot_of(xs: Seq<Self>, ys: Seq<Single<R>>) -> R {
        carrier_dot::<R, Single<R>>(xs, ys, shared(xs.len(), ys.len()))
    }

    open spec fn dot_scalar_of(xs: Seq<Self>, ys: Seq<Single<R>>) -> R {
        carrier_dot::<R, Single<R>>(xs, ys, shared(xs.len(), ys.len()))
    }

    fn dtype() -> GgmlDType {
        GgmlDType::F32
    }

    fn dot(xs: &[Self], ys: &[Single<R>]) -> R {
        vec_dot_f32(xs, ys)
    }

    fn dot_scalar(xs: &[Self], ys: &[Single<R>]) -> R {
        vec_dot_f32(xs, ys)
    }
}

impl<R: Real> Quantized<R> for Half {
    open spec fn width() -> nat {
        1
    }

    open spec fn value(self, e: int) -> R {
        <Half as Carrier<R>>::stands_for(self)
    }

    open spec fn encodes(x: Seq<R>, b: Self) -> bool {
        b == rto_half(x[0])
    }

    open spec fn is_zero(self) -> bool {
        self.bits == 0
    }

    fn block_len() -> usize {
        1
    }

    fn zeros() -> Self {
        Half { bits: 0 }
    }

    fn decode_into(&self, ys: &mut [R], at: usize) {
        ys[at] = <Half as Carrier<R>>::widened(self);
    }

    fn encode_block(x: &[R]) -> Self {
        narrow(x[0])
    }
}

impl<R: Real> BlockFormat<R> for Half {
    type ActivationBlock = Half;

    open spec fn dtype_of() -> GgmlDType {
        GgmlDType::F16
    }

    open spec fn dot_of(xs: Seq<Self>, ys: Seq<Half>) -> R {
        carrier_dot::<R, Half>(xs, ys, shared(xs.len(), ys.len()))
    }

    open spec fn dot_scalar_of(xs: Seq<Self>, ys: Seq<Half>) -> R {
        carrier_dot::<R, Half>(xs, ys, shared(xs.len(), ys.len()))
    }

    fn dtype() -> GgmlDType {
        GgmlDType::F16
    }

    fn dot(xs: &[Self], ys: &[Half]) -> R {
        vec_dot_f16(xs, ys)
    }

    fn dot_scalar(xs: &[Self], ys: &[Half]) -> R {
        vec_dot_f16(xs, ys)
    }
}

impl<R: Real> Quantized<R> for Brain {
    open spec fn width() -> nat {
        1
    }

    open spec fn value(self, e: int) -> R {
        <Brain as Carrier<R>>::stands_for(self)
    }

    open spec fn encodes(x: Seq<R>, b: Self) -> bool {
        b == rto_brain(x[0])
    }

    open spec fn is_zero(self) -> bool {
        self.bits == 0
    }

    fn block_len() -> usize {
        1
    }

    fn zeros() -> Self {
        Brain { bits: 0 }
    }

    fn decode_into(&self, ys: &mut [R], at: usize) {
        ys[at] = <Brain as Carrier<R>>::widened(self);
    }

    fn encode_block(x: &[R]) -> Self {
        narrow_brain(x[0])
    }
}

impl<R: Real> BlockFormat<R> for Brain {
    type ActivationBlock = Brain;

    open spec fn dtype_of() -> GgmlDType {
        GgmlDType::BF16
    }

    open spec fn dot_of(xs: Seq<Self>, ys: Seq<Brain>) -> R {
        carrier_dot::<R, Brain>(xs, ys, shared(xs.len(), ys.len()))
    }

    open spec fn dot_scalar_of(xs: Seq<Self>, ys: Seq<Brain>) -> R {
        carrier_dot::<R, Brain>(xs, ys, shared(xs.len(), ys.len()))
    }

    fn dtype() -> GgmlDType {
        GgmlDType::BF16
    }

    fn dot(xs: &[Self], ys: &[Brain]) -> R {
        vec_dot_bf16(xs, ys)
    }

    fn dot_scalar(xs: &[Self], ys: &[Brain]) -> R {
        vec_dot_bf16(xs, ys)
    }
}

} // verus!
