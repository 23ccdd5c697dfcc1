//! Pickles as they are written: what is written for a value reads back as the value, in each
//! spelling a writer may choose.
use vstd::prelude::*;
use crate::pth::fault::Fault;
use crate::pth::object::Value;
use crate::pth::pickle::{
    Outcome, State, last_mark, le_run, newline, paired, pickled, run, setitems,
    step,
};
use crate::pth::text::utf8_lossy;

verus! {

/// Something to be written, with the spelling it is written in.
pub enum Doc {
    Nothing,
    Truth(bool),
    /// One byte.
    Byte(u8),
    /// Two bytes.
    Short(u16),
    /// Four bytes, two's complement.
    Int(i32),
    /// Eight bytes behind their count, two's complement.
    Long(i64),
    /// The bits of a double, highest byte first.
    Float(u64),
    /// Text under a one-byte length.
    Name(Seq<u8>),
    /// Text under a four-byte length.
    Text(Seq<u8>),
    /// A module and a class, a line each.
    Class(Seq<u8>, Seq<u8>),
    /// A module and a class, as two texts before.
    Named(Seq<u8>, Seq<u8>),
    NoTuple,
    One(Box<Doc>),
    Two(Box<Doc>, Box<Doc>),
    Three(Box<Doc>, Box<Doc>, Box<Doc>),
    /// A tuple behind a mark.
    Tuple(Seq<Doc>),
    /// A list filled behind a mark.
    List(Seq<Doc>),
    /// A list filled one by one.
    Grown(Seq<Doc>),
    /// A dictionary filled behind a mark, keys and values in turn.
    Dict(Seq<(Doc, Doc)>),
    /// A dictionary filled pair by pair.
    Entered(Seq<(Doc, Doc)>),
    PersId(Box<Doc>),
    Reduce(Box<Doc>, Box<Doc>),
    NewObj(Box<Doc>, Box<Doc>),
    Build(Box<Doc>, Box<Doc>),
    /// Remembered under a one-byte number.
    Kept(u8, Box<Doc>),
    /// Remembered under a four-byte number.
    KeptFar(u32, Box<Doc>),
    /// Remembered under the next number.
    Memoized(Box<Doc>),
}

/// A number's four bytes, lowest first.
pub open spec fn four(u: int) -> Seq<u8> {
    seq![
        (u % 256) as u8,
        ((u / 256) % 256) as u8,
        ((u / 65536) % 256) as u8,
        ((u / 16777216) % 256) as u8,
    ]
}

/// A number's eight bytes, lowest first.
pub open spec fn eight(u: int) -> Seq<u8> {
    four(u % 4294967296) + four(u / 4294967296)
}

/// A number's eight bytes, highest first.
pub open spec fn eight_back(u: int) -> Seq<u8> {
    eight(u).reverse()
}

impl Doc {
    /// What can be written at all: texts whose length fits, lines without line feeds, as many keys
    /// as values.
    pub open spec fn fits(self) -> bool
        decreases self,
    {
        match self {
            Doc::Name(t) => t.len() < 256,
            Doc::Text(t) => t.len() < 4294967296,
            Doc::Class(m, c) => !m.contains(10) && !c.contains(10),
            Doc::Named(m, c) => m.len() < 256 && c.len() < 256,
            Doc::One(a) => a.fits(),
            Doc::Two(a, b) => a.fits() && b.fits(),
            Doc::Three(a, b, c) => a.fits() && b.fits() && c.fits(),
            Doc::Tuple(v) => forall|i: int| 0 <= i < v.len() ==> (#[trigger] v[i]).fits(),
            Doc::List(v) => forall|i: int| 0 <= i < v.len() ==> (#[trigger] v[i]).fits(),
            Doc::Grown(v) => forall|i: int| 0 <= i < v.len() ==> (#[trigger] v[i]).fits(),
            Doc::Dict(v) => forall|i: int|
                0 <= i < v.len() ==> (#[trigger] v[i]).0.fits() && v[i].1.fits(),
            Doc::Entered(v) => forall|i: int|
                0 <= i < v.len() ==> (#[trigger] v[i]).0.fits() && v[i].1.fits(),
            Doc::PersId(a) => a.fits(),
            Doc::Reduce(a, b) => a.fits() && b.fits(),
            Doc::NewObj(a, b) => a.fits() && b.fits(),
            Doc::Build(a, b) => a.fits() && b.fits(),
            Doc::Kept(_, a) => a.fits(),
            Doc::KeptFar(_, a) => a.fits(),
            Doc::Memoized(a) => a.fits(),
            _ => true,
        }
    }

    /// The bytes that are written.
    pub open spec fn bytes(self) -> Seq<u8>
        decreases self,
    {
        match self {
            Doc::Nothing => seq![0x4eu8],
            Doc::Truth(t) => seq![if t {
                0x88u8
            } else {
                0x89u8
            }],
            Doc::Byte(n) => seq![0x4bu8, n],
            Doc::Short(n) => seq![0x4du8, (n % 256) as u8, (n / 256) as u8],
            Doc::Int(n) => seq![0x4au8] + four(if n < 0 {
                n + 4294967296
            } else {
                n as int
            }),
            Doc::Long(n) => seq![0x8au8, 8u8] + eight(if n < 0 {
                n + 18446744073709551616
            } else {
                n as int
            }),
            Doc::Float(n) => seq![0x47u8] + eight_back(n as int),
            Doc::Name(t) => seq![0x8cu8, t.len() as u8] + t,
            Doc::Text(t) => seq![0x58u8] + four(t.len() as int) + t,
            Doc::Class(m, c) => seq![0x63u8] + m + seq![10u8] + c + seq![10u8],
            Doc::Named(m, c) => seq![0x8cu8, m.len() as u8] + m + seq![0x8cu8, c.len() as u8] + c
                + seq![0x93u8],
            Doc::NoTuple => seq![0x29u8],
            Doc::One(a) => a.bytes() + seq![0x85u8],
            Doc::Two(a, b) => a.bytes() + b.bytes() + seq![0x86u8],
            Doc::Three(a, b, c) => a.bytes() + b.bytes() + c.bytes() + seq![0x87u8],
            Doc::Tuple(v) => seq![0x28u8] + Self::run_bytes(v) + seq![0x74u8],
            Doc::List(v) => seq![0x5du8, 0x28u8] + Self::run_bytes(v) + seq![0x65u8],
            Doc::Grown(v) => seq![0x5du8] + Self::grown_bytes(v),
            Doc::Dict(v) => seq![0x7du8, 0x28u8] + Self::pair_bytes(v) + seq![0x75u8],
            Doc::Entered(v) => seq![0x7du8] + Self::entered_bytes(v),
            Doc::PersId(a) => a.bytes() + seq![0x51u8],
            Doc::Reduce(a, b) => a.bytes() + b.bytes() + seq![0x52u8],
            Doc::NewObj(a, b) => a.bytes() + b.bytes() + seq![0x81u8],
            Doc::Build(a, b) => a.bytes() + b.bytes() + seq![0x62u8],
            Doc::Kept(k, a) => a.bytes() + seq![0x71u8, k],
            Doc::KeptFar(k, a) => a.bytes() + seq![0x72u8] + four(k as int),
            Doc::Memoized(a) => a.bytes() + seq![0x94u8],
        }
    }

    /// One after another.
    pub open spec fn run_bytes(v: Seq<Doc>) -> Seq<u8>
        decreases v,
    {
        if v.len() == 0 {
            Seq::empty()
        } else {
            Self::run_bytes(v.drop_last()) + v[v.len() - 1].bytes()
        }
    }

    /// Each followed by its own opcode.
    pub open spec fn grown_bytes(v: Seq<Doc>) -> Seq<u8>
        decreases v,
    {
        if v.len() == 0 {
            Seq::empty()
        } else {
            Self::grown_bytes(v.drop_last()) + v[v.len() - 1].bytes() + seq![0x61u8]
        }
    }

    /// Keys and values in turn.
    pub open spec fn pair_bytes(v: Seq<(Doc, Doc)>) -> Seq<u8>
        decreases v,
    {
        if v.len() == 0 {
            Seq::empty()
        } else {
            Self::pair_bytes(v.drop_last()) + v[v.len() - 1].0.bytes() + v[v.len() - 1].1.bytes()
        }
    }

    /// Keys and values in turn, each pair followed by its own opcode.
    pub open spec fn entered_bytes(v: Seq<(Doc, Doc)>) -> Seq<u8>
        decreases v,
    {
        if v.len() == 0 {
            Seq::empty()
        } else {
            Self::entered_bytes(v.drop_last()) + v[v.len() - 1].0.bytes() + v[v.len() - 1].1.bytes()
                + seq![0x73u8]
        }
    }

    /// The value that is meant.
    pub open spec fn means(self) -> Value
        decreases self,
    {
        match self {
            Doc::Nothing => Value::Nothing,
            Doc::Truth(t) => Value::Bool(t),
            Doc::Byte(n) => Value::Int(n as i64),
            Doc::Short(n) => Value::Int(n as i64),
            Doc::Int(n) => Value::Int(n as i64),
            Doc::Long(n) => Value::Int(n),
            Doc::Float(n) => Value::Float(n),
            Doc::Name(t) => Value::Str(utf8_lossy(t)),
            Doc::Text(t) => Value::Str(utf8_lossy(t)),
            Doc::Class(m, c) => Value::Class(utf8_lossy(m), utf8_lossy(c)),
            Doc::Named(m, c) => Value::Class(utf8_lossy(m), utf8_lossy(c)),
            Doc::NoTuple => Value::Tuple(Seq::empty()),
            Doc::One(a) => Value::Tuple(seq![a.means()]),
            Doc::Two(a, b) => Value::Tuple(seq![a.means(), b.means()]),
            Doc::Three(a, b, c) => Value::Tuple(seq![a.means(), b.means(), c.means()]),
            Doc::Tuple(v) => Value::Tuple(Self::run_means(v)),
            Doc::List(v) => Value::List(Self::run_means(v)),
            Doc::Grown(v) => Value::List(Self::run_means(v)),
            Doc::Dict(v) => Value::Dict(Self::pair_means(v)),
            Doc::Entered(v) => Value::Dict(Self::pair_means(v)),
            Doc::PersId(a) => Value::PersId(Box::new(a.means())),
            Doc::Reduce(a, b) => match a.means() {
                Value::Class(m, c) => if m == "collections"@ && (c == "OrderedDict"@ || c
                    == "defaultdict"@) {
                    Value::Dict(Seq::empty())
                } else {
                    Value::Reduce(Box::new(a.means()), Box::new(b.means()))
                },
                _ => Value::Reduce(Box::new(a.means()), Box::new(b.means())),
            },
            Doc::NewObj(a, b) => Value::Reduce(Box::new(a.means()), Box::new(b.means())),
            Doc::Build(a, b) => match (a.means(), b.means()) {
                (Value::Dict(d), Value::Dict(more)) => Value::Dict(d + more),
                _ => Value::Build(Box::new(a.means()), Box::new(b.means())),
            },
            Doc::Kept(_, a) => a.means(),
            Doc::KeptFar(_, a) => a.means(),
            Doc::Memoized(a) => a.means(),
        }
    }

    /// The values that are meant, in order.
    pub open spec fn run_means(v: Seq<Doc>) -> Seq<Value>
        decreases v,
    {
        if v.len() == 0 {
            Seq::empty()
        } else {
            Self::run_means(v.drop_last()).push(v[v.len() - 1].means())
        }
    }

    /// The pairs that are meant, in order.
    pub open spec fn pair_means(v: Seq<(Doc, Doc)>) -> Seq<(Value, Value)>
        decreases v,
    {
        if v.len() == 0 {
            Seq::empty()
        } else {
            Self::pair_means(v.drop_last()).push(
                (v[v.len() - 1].0.means(), v[v.len() - 1].1.means()),
            )
        }
    }
}

/// `w` stands at `p` in the stream.
pub open spec fn stands(b: Seq<u8>, p: int, w: Seq<u8>) -> bool {
    &&& 0 <= p
    &&& p + w.len() <= b.len()
    &&& forall|i: int| 0 <= i < w.len() ==> #[trigger] b[p + i] == w[i]
}

/// Two parts stand one behind the other.
proof fn lemma_stands(b: Seq<u8>, p: int, u: Seq<u8>, w: Seq<u8>)
    requires
        stands(b, p, u + w),
    ensures
        stands(b, p, u),
        stands(b, p + u.len(), w),
{
    assert forall|i: int| 0 <= i < u.len() implies #[trigger] b[p + i] == u[i] by {
        assert(b[p + i] == (u + w)[i]);
    }
    assert forall|i: int| 0 <= i < w.len() implies #[trigger] b[p + u.len() + i] == w[i] by {
        assert(b[p + (u.len() + i)] == (u + w)[u.len() + i]);
    }
}

/// The state further on.
pub open spec fn further(s: State, n: int, stack: Seq<Value>, memo: Map<u32, Value>) -> State {
    State { p: s.p + n, stack, memo }
}

/// What stands at a place is the piece of the stream there.
pub(crate) proof fn lemma_piece(b: Seq<u8>, p: int, w: Seq<u8>)
    requires
        stands(b, p, w),
    ensures
        b.subrange(p, p + w.len()) == w,
{
    let x = b.subrange(p, p + w.len());
    assert forall|i: int| 0 <= i < w.len() implies #[trigger] x[i] == w[i] by {
        assert(b[p + i] == w[i]);
    }
    assert(x =~= w);
}

/// What the machine comes to from a state on.
#[verifier::opaque]
pub open spec fn from(b: Seq<u8>, s: State) -> Result<Value, Fault> {
    run(b, s)
}

/// An opcode that goes on leaves the rest of the stream to be run.
proof fn lemma_on(b: Seq<u8>, s: State, t: State)
    requires
        step(b, s) == Outcome::On(t),
        s.p < t.p <= b.len(),
    ensures
        from(b, s) == from(b, t),
{
    reveal(from);
}

/// Opcode `op` stands next.
pub open spec fn next_is(b: Seq<u8>, s: State, op: u8) -> bool {
    0 <= s.p < b.len() && b[s.p] == op
}

/// An opcode that stands for a value pushes it.
pub proof fn constants_are_pushed(b: Seq<u8>, s: State, op: u8)
    requires
        next_is(b, s, op),
    ensures
        op == 0x4e ==> from(b, s) == from(b, further(s, 1, s.stack.push(Value::Nothing), s.memo)),
        op == 0x88 ==> from(b, s) == from(
            b,
            further(s, 1, s.stack.push(Value::Bool(true)), s.memo),
        ),
        op == 0x89 ==> from(b, s) == from(
            b,
            further(s, 1, s.stack.push(Value::Bool(false)), s.memo),
        ),
        op == 0x28 ==> from(b, s) == from(b, further(s, 1, s.stack.push(Value::Mark), s.memo)),
        op == 0x29 ==> from(b, s) == from(
            b,
            further(s, 1, s.stack.push(Value::Tuple(Seq::empty())), s.memo),
        ),
        op == 0x5d ==> from(b, s) == from(
            b,
            further(s, 1, s.stack.push(Value::List(Seq::empty())), s.memo),
        ),
        op == 0x7d ==> from(b, s) == from(
            b,
            further(s, 1, s.stack.push(Value::Dict(Seq::empty())), s.memo),
        ),
{
    if op == 0x4e || op == 0x88 || op == 0x89 || op == 0x28 || op == 0x29 || op == 0x5d || op
        == 0x7d {
        lemma_on(
            b,
            s,
            further(s, 1, s.stack.push(crate::pth::pickle::constant(op)->0), s.memo),
        );
    }
}

/// The one, two or three topmost values become a tuple of them, in the order they were pushed.
pub proof fn topmost_values_become_a_tuple(
    b: Seq<u8>,
    s: State,
    op: u8,
    base: Seq<Value>,
    items: Seq<Value>,
)
    requires
        next_is(b, s, op),
        s.stack == base + items,
        items.len() == 1 && op == 0x85 || items.len() == 2 && op == 0x86 || items.len() == 3 && op
            == 0x87,
    ensures
        from(b, s) == from(b, further(s, 1, base.push(Value::Tuple(items)), s.memo)),
{
    let n = s.stack.len() - items.len();
    assert(s.stack.take(n) =~= base);
    assert(s.stack.skip(n) =~= items);
    lemma_on(b, s, further(s, 1, base.push(Value::Tuple(items)), s.memo));
}

/// Everything above the topmost mark becomes a tuple, and the mark is gone.
#[verifier::rlimit(60)]
#[verifier::spinoff_prover]
pub proof fn marked_values_become_a_tuple(
    b: Seq<u8>,
    s: State,
    base: Seq<Value>,
    items: Seq<Value>,
)
    requires
        next_is(b, s, 0x74),
        s.stack == base.push(Value::Mark) + items,
        forall|i: int| 0 <= i < items.len() ==> #[trigger] items[i] != Value::Mark,
    ensures
        from(b, s) == from(b, further(s, 1, base.push(Value::Tuple(items)), s.memo)),
{
    lemma_mark(base, items, items.len() as int);
    assert(s.stack.take(base.len() as int) =~= base);
    assert(s.stack.skip(base.len() as int + 1) =~= items);
    lemma_on(b, s, further(s, 1, base.push(Value::Tuple(items)), s.memo));
}

/// Everything above the topmost mark goes to the end of the list below it.
#[verifier::rlimit(60)]
#[verifier::spinoff_prover]
pub proof fn marked_values_extend_a_list(
    b: Seq<u8>,
    s: State,
    base: Seq<Value>,
    list: Seq<Value>,
    items: Seq<Value>,
)
    requires
        next_is(b, s, 0x65),
        s.stack == base.push(Value::List(list)).push(Value::Mark) + items,
        forall|i: int| 0 <= i < items.len() ==> #[trigger] items[i] != Value::Mark,
    ensures
        from(b, s) == from(b, further(s, 1, base.push(Value::List(list + items)), s.memo)),
{
    let open = base.push(Value::List(list));
    lemma_mark(open, items, items.len() as int);
    assert(s.stack.take(open.len() as int) =~= open);
    assert(s.stack.skip(open.len() as int + 1) =~= items);
    assert(open.drop_last() =~= base);
    lemma_on(b, s, further(s, 1, base.push(Value::List(list + items)), s.memo));
}

/// The topmost value goes to the end of the list below it.
pub proof fn a_value_extends_a_list(
    b: Seq<u8>,
    s: State,
    base: Seq<Value>,
    list: Seq<Value>,
    x: Value,
)
    requires
        next_is(b, s, 0x61),
        s.stack == base.push(Value::List(list)).push(x),
    ensures
        from(b, s) == from(b, further(s, 1, base.push(Value::List(list.push(x))), s.memo)),
{
    let open = base.push(Value::List(list));
    assert(s.stack.drop_last() =~= open);
    assert(open.drop_last() =~= base);
    assert(list + seq![x] =~= list.push(x));
    lemma_on(b, s, further(s, 1, base.push(Value::List(list.push(x))), s.memo));
}

/// Everything above the topmost mark, keys and values in turn, goes into the dictionary below it.
#[verifier::rlimit(60)]
#[verifier::spinoff_prover]
pub proof fn marked_pairs_enter_a_dictionary(
    b: Seq<u8>,
    s: State,
    base: Seq<Value>,
    dict: Seq<(Value, Value)>,
    more: Seq<(Value, Value)>,
)
    requires
        next_is(b, s, 0x75),
        s.stack == base.push(Value::Dict(dict)).push(Value::Mark) + flat(more),
        forall|i: int| 0 <= i < 2 * more.len() ==> #[trigger] flat(more)[i] != Value::Mark,
    ensures
        from(b, s) == from(b, further(s, 1, base.push(Value::Dict(dict + more)), s.memo)),
{
    let open = base.push(Value::Dict(dict));
    let items = flat(more);
    lemma_mark(open, items, items.len() as int);
    assert(s.stack.take(open.len() as int) =~= open);
    assert(s.stack.skip(open.len() as int + 1) =~= items);
    assert(open.drop_last() =~= base);
    lemma_paired(more);
    lemma_setitems(s, base, dict, more);
    lemma_on(b, s, further(s, 1, base.push(Value::Dict(dict + more)), s.memo));
}

/// Keys and values in turn are the pairs.
proof fn lemma_paired(more: Seq<(Value, Value)>)
    ensures
        paired(flat(more)) == more,
        flat(more).len() == 2 * more.len(),
{
    let x = paired(flat(more));
    assert forall|i: int| 0 <= i < more.len() implies #[trigger] x[i] == more[i] by {
        assert(x[i] == (flat(more)[2 * i], flat(more)[2 * i + 1]));
    }
    assert(x =~= more);
}

/// What the opcode leaves, once the mark is found.
proof fn lemma_setitems(
    s: State,
    base: Seq<Value>,
    dict: Seq<(Value, Value)>,
    more: Seq<(Value, Value)>,
)
    requires
        ({
            let open = base.push(Value::Dict(dict));
            &&& last_mark(s.stack, s.stack.len() as int) == Some(open.len() as int)
            &&& s.stack.take(open.len() as int) == open
            &&& s.stack.skip(open.len() as int + 1) == flat(more)
            &&& open.drop_last() == base
        }),
        paired(flat(more)) == more,
        flat(more).len() == 2 * more.len(),
    ensures
        setitems(s, s.p + 1) == Outcome::On(
            further(s, 1, base.push(Value::Dict(dict + more)), s.memo),
        ),
{
}

/// The two topmost values, a key and its value, go into the dictionary below them.
#[verifier::rlimit(60)]
#[verifier::spinoff_prover]
pub proof fn a_pair_enters_a_dictionary(
    b: Seq<u8>,
    s: State,
    base: Seq<Value>,
    dict: Seq<(Value, Value)>,
    k: Value,
    x: Value,
)
    requires
        next_is(b, s, 0x73),
        s.stack == base.push(Value::Dict(dict)).push(k).push(x),
    ensures
        from(b, s) == from(b, further(s, 1, base.push(Value::Dict(dict.push((k, x)))), s.memo)),
{
    let open = base.push(Value::Dict(dict));
    assert(s.stack.take(s.stack.len() - 2) =~= open);
    assert(open.drop_last() =~= base);
    assert(dict + seq![(k, x)] =~= dict.push((k, x)));
    lemma_on(b, s, further(s, 1, base.push(Value::Dict(dict.push((k, x)))), s.memo));
}

/// The topmost value becomes a persistent id.
pub proof fn a_value_becomes_a_persistent_id(b: Seq<u8>, s: State, base: Seq<Value>, x: Value)
    requires
        next_is(b, s, 0x51),
        s.stack == base.push(x),
    ensures
        from(b, s) == from(b, further(s, 1, base.push(Value::PersId(Box::new(x))), s.memo)),
{
    assert(s.stack.drop_last() =~= base);
    lemma_on(b, s, further(s, 1, base.push(Value::PersId(Box::new(x))), s.memo));
}

/// What the call of `f` with `args` is: a dictionary of the standard kinds starts empty; any other
/// call is carried.
pub open spec fn reduction(f: Value, args: Value) -> Value {
    match f {
        Value::Class(m, c) => if m == "collections"@ && (c == "OrderedDict"@ || c
            == "defaultdict"@) {
            Value::Dict(Seq::empty())
        } else {
            Value::Reduce(Box::new(f), Box::new(args))
        },
        _ => Value::Reduce(Box::new(f), Box::new(args)),
    }
}

/// What an object is once its state is set: two dictionaries are joined; anything else is carried.
pub open spec fn with_state(o: Value, state: Value) -> Value {
    match (o, state) {
        (Value::Dict(d), Value::Dict(more)) => Value::Dict(d + more),
        _ => Value::Build(Box::new(o), Box::new(state)),
    }
}

/// The two topmost values are called, made or built.
pub proof fn two_values_are_called(
    b: Seq<u8>,
    s: State,
    op: u8,
    base: Seq<Value>,
    x: Value,
    y: Value,
)
    requires
        next_is(b, s, op),
        s.stack == base.push(x).push(y),
    ensures
        op == 0x52 ==> from(b, s) == from(b, further(s, 1, base.push(reduction(x, y)), s.memo)),
        op == 0x81 ==> from(b, s) == from(
            b,
            further(s, 1, base.push(Value::Reduce(Box::new(x), Box::new(y))), s.memo),
        ),
        op == 0x62 ==> from(b, s) == from(b, further(s, 1, base.push(with_state(x, y)), s.memo)),
{
    assert(s.stack.take(s.stack.len() - 2) =~= base);
    if op == 0x52 {
        lemma_on(b, s, further(s, 1, base.push(reduction(x, y)), s.memo));
    } else if op == 0x81 {
        lemma_on(
            b,
            s,
            further(s, 1, base.push(Value::Reduce(Box::new(x), Box::new(y))), s.memo),
        );
    } else if op == 0x62 {
        lemma_on(b, s, further(s, 1, base.push(with_state(x, y)), s.memo));
    }
}

/// Two texts become the class they name, the module first.
pub proof fn two_texts_become_a_class(
    b: Seq<u8>,
    s: State,
    base: Seq<Value>,
    m: Seq<char>,
    c: Seq<char>,
)
    requires
        next_is(b, s, 0x93),
        s.stack == base.push(Value::Str(m)).push(Value::Str(c)),
    ensures
        from(b, s) == from(b, further(s, 1, base.push(Value::Class(m, c)), s.memo)),
{
    assert(s.stack.take(s.stack.len() - 2) =~= base);
    lemma_on(b, s, further(s, 1, base.push(Value::Class(m, c)), s.memo));
}

/// The topmost value is remembered under the number that follows, or the next one, and stays.
pub proof fn the_topmost_value_is_remembered(b: Seq<u8>, s: State, op: u8)
    requires
        next_is(b, s, op),
        s.stack.len() > 0,
    ensures
        op == 0x71 && s.p + 2 <= b.len() ==> from(b, s) == from(
            b,
            further(s, 2, s.stack, s.memo.insert(b[s.p + 1] as u32, s.stack.last())),
        ),
        op == 0x72 && s.p + 5 <= b.len() ==> from(b, s) == from(
            b,
            further(
                s,
                5,
                s.stack,
                s.memo.insert(crate::pth::zip::le32(b, s.p + 1) as u32, s.stack.last()),
            ),
        ),
        op == 0x94 ==> from(b, s) == from(
            b,
            further(
                s,
                1,
                s.stack,
                s.memo.insert((s.memo.dom().len() % 4294967296) as u32, s.stack.last()),
            ),
        ),
{
    if op == 0x71 && s.p + 2 <= b.len() {
        lemma_on(
            b,
            s,
            further(s, 2, s.stack, s.memo.insert(b[s.p + 1] as u32, s.stack.last())),
        );
    } else if op == 0x72 && s.p + 5 <= b.len() {
        lemma_on(
            b,
            s,
            further(
                s,
                5,
                s.stack,
                s.memo.insert(crate::pth::zip::le32(b, s.p + 1) as u32, s.stack.last()),
            ),
        );
    } else if op == 0x94 {
        lemma_on(
            b,
            s,
            further(
                s,
                1,
                s.stack,
                s.memo.insert((s.memo.dom().len() % 4294967296) as u32, s.stack.last()),
            ),
        );
    }
}

/// What is remembered under a number is pushed when it is asked for.
pub proof fn what_is_remembered_comes_back(b: Seq<u8>, s: State, op: u8, k: u32)
    requires
        next_is(b, s, op),
        s.memo.contains_key(k),
        op == 0x68 && s.p + 2 <= b.len() && k == b[s.p + 1] || op == 0x6a && s.p + 5 <= b.len()
            && stands(b, s.p + 1, four(k as int)),
    ensures
        from(b, s) == from(
            b,
            further(
                s,
                if op == 0x68 {
                    2
                } else {
                    5
                },
                s.stack.push(s.memo[k]),
                s.memo,
            ),
        ),
{
    if op == 0x68 {
        lemma_on(b, s, further(s, 2, s.stack.push(s.memo[k]), s.memo));
    } else {
        lemma_four(b, s.p + 1, k as int);
        lemma_on(b, s, further(s, 5, s.stack.push(s.memo[k]), s.memo));
    }
}

/// The mark of the protocol and of a frame say nothing of the value.
pub proof fn framing_changes_nothing(b: Seq<u8>, s: State, op: u8)
    requires
        next_is(b, s, op),
    ensures
        op == 0x80 && s.p + 2 <= b.len() ==> from(b, s) == from(
            b,
            further(s, 2, s.stack, s.memo),
        ),
        op == 0x95 && s.p + 9 <= b.len() ==> from(b, s) == from(
            b,
            further(s, 9, s.stack, s.memo),
        ),
{
    if op == 0x80 && s.p + 2 <= b.len() {
        lemma_on(b, s, further(s, 2, s.stack, s.memo));
    } else if op == 0x95 && s.p + 9 <= b.len() {
        lemma_on(b, s, further(s, 9, s.stack, s.memo));
    }
}

/// The machine stops with what is on top.
proof fn lemma_stop(b: Seq<u8>, s: State)
    requires
        next_is(b, s, 0x2e),
        s.stack.len() > 0,
    ensures
        from(b, s) == Ok::<Value, Fault>(s.stack.last()),
{
    reveal(from);
}

/// Four bytes spell their number.
proof fn lemma_four(b: Seq<u8>, p: int, u: int)
    requires
        stands(b, p, four(u)),
        0 <= u < 4294967296,
    ensures
        crate::pth::zip::le32(b, p) == u,
{
    assert(b[p + 0] == four(u)[0] && b[p + 1] == four(u)[1] && b[p + 2] == four(u)[2] && b[p + 3]
        == four(u)[3]);
    let (a, c, d, e) = (u % 256, (u / 256) % 256, (u / 65536) % 256, (u / 16777216) % 256);
    assert(u == a + 256 * c + 65536 * d + 16777216 * e);
}

/// Eight bytes spell their number.
proof fn lemma_eight(b: Seq<u8>, p: int, u: int)
    requires
        stands(b, p, eight(u)),
        0 <= u < 18446744073709551616,
    ensures
        le_run(b, p, 8) == u,
{
    let (lo, hi) = (u % 4294967296, u / 4294967296);
    lemma_stands(b, p, four(lo), four(hi));
    assert(0 <= hi < 4294967296);
    lemma_four(b, p, lo);
    lemma_four(b, p + 4, hi);
    reveal_with_fuel(le_run, 9);
}

/// Eight bytes, highest first, spell their number.
proof fn lemma_eight_back(b: Seq<u8>, p: int, u: int)
    requires
        stands(b, p, eight_back(u)),
        0 <= u < 18446744073709551616,
    ensures
        crate::pth::pickle::be64(b, p) == u,
{
    let (lo, hi) = (u % 4294967296, u / 4294967296);
    assert(0 <= hi < 4294967296);
    let w = eight_back(u);
    assert forall|i: int| 0 <= i < 4 implies #[trigger] b[p + i] == four(hi)[3 - i] && b[p + 4 + i]
        == four(lo)[3 - i] by {
        assert(b[p + i] == w[i]);
        assert(b[p + (4 + i)] == w[4 + i]);
    }
    assert(b[p + 0] == four(hi)[3] && b[p + 1] == four(hi)[2] && b[p + 2] == four(hi)[1] && b[p + 3]
        == four(hi)[0]);
    assert(b[p + 4 + 0] == four(lo)[3] && b[p + 4 + 1] == four(lo)[2] && b[p + 4 + 2] == four(
        lo,
    )[1] && b[p + 4 + 3] == four(lo)[0]);
    lemma_bytes_of(hi);
    lemma_bytes_of(lo);
}

/// A number is its four bytes.
proof fn lemma_bytes_of(u: int)
    requires
        0 <= u < 4294967296,
    ensures
        u == four(u)[0] + 256 * four(u)[1] + 65536 * four(u)[2] + 16777216 * four(u)[3],
{
    let (a, c, d, e) = (u % 256, (u / 256) % 256, (u / 65536) % 256, (u / 16777216) % 256);
    assert(u == a + 256 * c + 65536 * d + 16777216 * e);
}

/// A line is found by the line feed that ends it.
proof fn lemma_line(b: Seq<u8>, p: int, m: Seq<u8>, i: int)
    requires
        stands(b, p, m + seq![10u8]),
        !m.contains(10),
        0 <= i <= m.len(),
    ensures
        newline(b, p + i) == Some(p + m.len()),
    decreases m.len() - i,
{
    assert(b[p + i] == (m + seq![10u8])[i]);
    if i < m.len() {
        assert(m.contains(m[i]));
        lemma_line(b, p, m, i + 1);
    }
}

/// No value that is written is a mark.
proof fn lemma_no_mark(d: Doc)
    ensures
        d.means() != Value::Mark,
    decreases d,
{
    match d {
        Doc::Kept(_, a) => lemma_no_mark(*a),
        Doc::KeptFar(_, a) => lemma_no_mark(*a),
        Doc::Memoized(a) => lemma_no_mark(*a),
        _ => {},
    }
}

/// The mark below values that are none.
proof fn lemma_mark(base: Seq<Value>, items: Seq<Value>, n: int)
    requires
        0 <= n <= items.len(),
        forall|i: int| 0 <= i < items.len() ==> #[trigger] items[i] != Value::Mark,
    ensures
        last_mark(base.push(Value::Mark) + items, base.len() + 1 + n) == Some(base.len() as int),
    decreases n,
{
    let s = base.push(Value::Mark) + items;
    if n > 0 {
        assert(s[base.len() + n] == items[n - 1]);
        lemma_mark(base, items, n - 1);
    } else {
        assert(s[base.len() as int] == Value::Mark);
    }
}

/// One opcode at the end of what was written.
proof fn lemma_op(b: Seq<u8>, p: int, op: u8)
    requires
        stands(b, p, seq![op]),
    ensures
        0 <= p < b.len(),
        b[p] == op,
{
    assert(b[p + 0] == seq![op][0]);
}

// -- values written whole --

proof fn lemma_byte(b: Seq<u8>, s: State, n: u8)
    requires
        (Doc::Byte(n)).fits(),
        stands(b, s.p, (Doc::Byte(n)).bytes()),
    ensures
        from(b, s) == from(
            b,
            further(s, (Doc::Byte(n)).bytes().len() as int, s.stack.push((Doc::Byte(n)).means()), s.memo),
        ),
{
    let d = Doc::Byte(n);
    let w = d.bytes();
    let p = s.p;
    assert(w.len() > 0 && b[p + 0] == w[0]);
    assert(b[p + 1] == w[1]);
    lemma_on(b, s, further(s, w.len() as int, s.stack.push(d.means()), s.memo));
}

proof fn lemma_short(b: Seq<u8>, s: State, n: u16)
    requires
        (Doc::Short(n)).fits(),
        stands(b, s.p, (Doc::Short(n)).bytes()),
    ensures
        from(b, s) == from(
            b,
            further(s, (Doc::Short(n)).bytes().len() as int, s.stack.push((Doc::Short(n)).means()), s.memo),
        ),
{
    let d = Doc::Short(n);
    let w = d.bytes();
    let p = s.p;
    assert(w.len() > 0 && b[p + 0] == w[0]);
    assert(b[p + 1] == w[1] && b[p + 2] == w[2]);
    assert(n == (n % 256) + 256 * (n / 256));
    lemma_on(b, s, further(s, w.len() as int, s.stack.push(d.means()), s.memo));
}

proof fn lemma_int(b: Seq<u8>, s: State, n: i32)
    requires
        (Doc::Int(n)).fits(),
        stands(b, s.p, (Doc::Int(n)).bytes()),
    ensures
        from(b, s) == from(
            b,
            further(s, (Doc::Int(n)).bytes().len() as int, s.stack.push((Doc::Int(n)).means()), s.memo),
        ),
{
    let d = Doc::Int(n);
    let w = d.bytes();
    let p = s.p;
    assert(w.len() > 0 && b[p + 0] == w[0]);
    let u = if n < 0 {
        n + 4294967296
    } else {
        n as int
    };
    lemma_stands(b, p, seq![0x4au8], four(u));
    lemma_four(b, p + 1, u);
    lemma_on(b, s, further(s, w.len() as int, s.stack.push(d.means()), s.memo));
}

proof fn lemma_long(b: Seq<u8>, s: State, n: i64)
    requires
        (Doc::Long(n)).fits(),
        stands(b, s.p, (Doc::Long(n)).bytes()),
    ensures
        from(b, s) == from(
            b,
            further(s, (Doc::Long(n)).bytes().len() as int, s.stack.push((Doc::Long(n)).means()), s.memo),
        ),
{
    let d = Doc::Long(n);
    let w = d.bytes();
    let p = s.p;
    assert(w.len() > 0 && b[p + 0] == w[0]);
    let u = if n < 0 {
        n + 18446744073709551616
    } else {
        n as int
    };
    assert(b[p + 1] == w[1]);
    lemma_stands(b, p, seq![0x8au8, 8u8], eight(u));
    lemma_eight(b, p + 2, u);
    lemma_on(b, s, further(s, w.len() as int, s.stack.push(d.means()), s.memo));
}

proof fn lemma_float(b: Seq<u8>, s: State, n: u64)
    requires
        (Doc::Float(n)).fits(),
        stands(b, s.p, (Doc::Float(n)).bytes()),
    ensures
        from(b, s) == from(
            b,
            further(s, (Doc::Float(n)).bytes().len() as int, s.stack.push((Doc::Float(n)).means()), s.memo),
        ),
{
    let d = Doc::Float(n);
    let w = d.bytes();
    let p = s.p;
    assert(w.len() > 0 && b[p + 0] == w[0]);
    lemma_stands(b, p, seq![0x47u8], eight_back(n as int));
    lemma_eight_back(b, p + 1, n as int);
    lemma_on(b, s, further(s, w.len() as int, s.stack.push(d.means()), s.memo));
}

proof fn lemma_name(b: Seq<u8>, s: State, x: Seq<u8>)
    requires
        (Doc::Name(x)).fits(),
        stands(b, s.p, (Doc::Name(x)).bytes()),
    ensures
        from(b, s) == from(
            b,
            further(s, (Doc::Name(x)).bytes().len() as int, s.stack.push((Doc::Name(x)).means()), s.memo),
        ),
{
    let d = Doc::Name(x);
    let w = d.bytes();
    let p = s.p;
    assert(w.len() > 0 && b[p + 0] == w[0]);
    assert(b[p + 1] == w[1]);
    lemma_stands(b, p, seq![0x8cu8, x.len() as u8], x);
    lemma_piece(b, p + 2, x);
    lemma_on(b, s, further(s, w.len() as int, s.stack.push(d.means()), s.memo));
}

proof fn lemma_text(b: Seq<u8>, s: State, x: Seq<u8>)
    requires
        (Doc::Text(x)).fits(),
        stands(b, s.p, (Doc::Text(x)).bytes()),
    ensures
        from(b, s) == from(
            b,
            further(s, (Doc::Text(x)).bytes().len() as int, s.stack.push((Doc::Text(x)).means()), s.memo),
        ),
{
    let d = Doc::Text(x);
    let w = d.bytes();
    let p = s.p;
    assert(w.len() > 0 && b[p + 0] == w[0]);
    let n = x.len() as int;
    lemma_stands(b, p, seq![0x58u8] + four(n), x);
    lemma_stands(b, p, seq![0x58u8], four(n));
    lemma_four(b, p + 1, n);
    lemma_piece(b, p + 5, x);
    lemma_on(b, s, further(s, w.len() as int, s.stack.push(d.means()), s.memo));
}

proof fn lemma_class(b: Seq<u8>, s: State, m: Seq<u8>, c: Seq<u8>)
    requires
        (Doc::Class(m, c)).fits(),
        stands(b, s.p, (Doc::Class(m, c)).bytes()),
    ensures
        from(b, s) == from(
            b,
            further(s, (Doc::Class(m, c)).bytes().len() as int, s.stack.push((Doc::Class(m, c)).means()), s.memo),
        ),
{
    let d = Doc::Class(m, c);
    let w = d.bytes();
    let p = s.p;
    assert(w.len() > 0 && b[p + 0] == w[0]);
    let head = seq![0x63u8] + m + seq![10u8];
    assert(w =~= head + (c + seq![10u8]));
    lemma_stands(b, p, head, c + seq![10u8]);
    assert(head =~= seq![0x63u8] + (m + seq![10u8]));
    lemma_stands(b, p, seq![0x63u8], m + seq![10u8]);
    lemma_line(b, p + 1, m, 0);
    lemma_line(b, p + head.len(), c, 0);
    lemma_stands(b, p + 1, m, seq![10u8]);
    lemma_stands(b, p + head.len(), c, seq![10u8]);
    lemma_piece(b, p + 1, m);
    lemma_piece(b, p + head.len(), c);
    lemma_on(b, s, further(s, w.len() as int, s.stack.push(d.means()), s.memo));
}

/// What stands next is read: the machine goes on behind it, with the value on its stack.
#[verifier::rlimit(60)]
#[verifier::spinoff_prover]
proof fn lemma_read(b: Seq<u8>, s: State, d: Doc) -> (memo: Map<u32, Value>)
    requires
        d.fits(),
        stands(b, s.p, d.bytes()),
    ensures
        from(b, s) == from(b, further(s, d.bytes().len() as int, s.stack.push(d.means()), memo)),
    decreases d,
{
    let base = s.stack;
    match d {
        Doc::Byte(n) => {
            lemma_byte(b, s, n);
            s.memo
        },
        Doc::Short(n) => {
            lemma_short(b, s, n);
            s.memo
        },
        Doc::Int(n) => {
            lemma_int(b, s, n);
            s.memo
        },
        Doc::Long(n) => {
            lemma_long(b, s, n);
            s.memo
        },
        Doc::Float(n) => {
            lemma_float(b, s, n);
            s.memo
        },
        Doc::Name(x) => {
            lemma_name(b, s, x);
            s.memo
        },
        Doc::Text(x) => {
            lemma_text(b, s, x);
            s.memo
        },
        Doc::Class(m, c) => {
            lemma_class(b, s, m, c);
            s.memo
        },
        Doc::Named(m, c) => {
            lemma_named(b, s, m, c);
            s.memo
        },
        Doc::Nothing => {
            lemma_op(b, s.p, 0x4e);
            constants_are_pushed(b, s, 0x4e);
            s.memo
        },
        Doc::Truth(t) => {
            let op = if t {
                0x88u8
            } else {
                0x89u8
            };
            lemma_op(b, s.p, op);
            constants_are_pushed(b, s, op);
            s.memo
        },
        Doc::NoTuple => {
            lemma_op(b, s.p, 0x29);
            constants_are_pushed(b, s, 0x29);
            s.memo
        },
        Doc::One(x) => {
            lemma_stands(b, s.p, x.bytes(), seq![0x85u8]);
            let memo = lemma_read(b, s, *x);
            let u = further(s, x.bytes().len() as int, base.push(x.means()), memo);
            lemma_op(b, u.p, 0x85);
            assert(u.stack =~= base + seq![x.means()]);
            topmost_values_become_a_tuple(b, u, 0x85, base, seq![x.means()]);
            memo
        },
        Doc::Two(x, y) => {
            lemma_stands(b, s.p, x.bytes() + y.bytes(), seq![0x86u8]);
            lemma_stands(b, s.p, x.bytes(), y.bytes());
            let m1 = lemma_read(b, s, *x);
            let t = further(s, x.bytes().len() as int, base.push(x.means()), m1);
            let memo = lemma_read(b, t, *y);
            let u = further(t, y.bytes().len() as int, t.stack.push(y.means()), memo);
            lemma_op(b, u.p, 0x86);
            assert(u.stack =~= base + seq![x.means(), y.means()]);
            topmost_values_become_a_tuple(b, u, 0x86, base, seq![x.means(), y.means()]);
            memo
        },
        Doc::Reduce(x, y) => {
            lemma_stands(b, s.p, x.bytes() + y.bytes(), seq![0x52u8]);
            lemma_stands(b, s.p, x.bytes(), y.bytes());
            let m1 = lemma_read(b, s, *x);
            let t = further(s, x.bytes().len() as int, base.push(x.means()), m1);
            let memo = lemma_read(b, t, *y);
            let u = further(t, y.bytes().len() as int, t.stack.push(y.means()), memo);
            lemma_op(b, u.p, 0x52);
            two_values_are_called(b, u, 0x52, base, x.means(), y.means());
            memo
        },
        Doc::NewObj(x, y) => {
            lemma_stands(b, s.p, x.bytes() + y.bytes(), seq![0x81u8]);
            lemma_stands(b, s.p, x.bytes(), y.bytes());
            let m1 = lemma_read(b, s, *x);
            let t = further(s, x.bytes().len() as int, base.push(x.means()), m1);
            let memo = lemma_read(b, t, *y);
            let u = further(t, y.bytes().len() as int, t.stack.push(y.means()), memo);
            lemma_op(b, u.p, 0x81);
            two_values_are_called(b, u, 0x81, base, x.means(), y.means());
            memo
        },
        Doc::Build(x, y) => {
            lemma_stands(b, s.p, x.bytes() + y.bytes(), seq![0x62u8]);
            lemma_stands(b, s.p, x.bytes(), y.bytes());
            let m1 = lemma_read(b, s, *x);
            let t = further(s, x.bytes().len() as int, base.push(x.means()), m1);
            let memo = lemma_read(b, t, *y);
            let u = further(t, y.bytes().len() as int, t.stack.push(y.means()), memo);
            lemma_op(b, u.p, 0x62);
            two_values_are_called(b, u, 0x62, base, x.means(), y.means());
            memo
        },
        Doc::Three(x, y, z) => {
            let w = x.bytes() + y.bytes();
            assert(d.bytes() =~= w + (z.bytes() + seq![0x87u8]));
            lemma_stands(b, s.p, w, z.bytes() + seq![0x87u8]);
            lemma_stands(b, s.p, x.bytes(), y.bytes());
            lemma_stands(b, s.p + w.len(), z.bytes(), seq![0x87u8]);
            let m1 = lemma_read(b, s, *x);
            let t = further(s, x.bytes().len() as int, base.push(x.means()), m1);
            let m2 = lemma_read(b, t, *y);
            let u = further(t, y.bytes().len() as int, t.stack.push(y.means()), m2);
            let m3 = lemma_read(b, u, *z);
            let v = further(u, z.bytes().len() as int, u.stack.push(z.means()), m3);
            lemma_op(b, v.p, 0x87);
            let items = seq![x.means(), y.means(), z.means()];
            assert(v.stack =~= base + items);
            topmost_values_become_a_tuple(b, v, 0x87, base, items);
            m3
        },
        Doc::Tuple(v) => {
            let body = Doc::run_bytes(v);
            lemma_stands(b, s.p, seq![0x28u8] + body, seq![0x74u8]);
            lemma_stands(b, s.p, seq![0x28u8], body);
            lemma_op(b, s.p, 0x28);
            constants_are_pushed(b, s, 0x28);
            let t = further(s, 1, base.push(Value::Mark), s.memo);
            let memo = lemma_read_run(b, t, v);
            let items = Doc::run_means(v);
            let u = further(t, body.len() as int, t.stack + items, memo);
            lemma_op(b, u.p, 0x74);
            marked_values_become_a_tuple(b, u, base, items);
            memo
        },
        Doc::List(v) => {
            let body = Doc::run_bytes(v);
            lemma_stands(b, s.p, seq![0x5du8, 0x28u8] + body, seq![0x65u8]);
            lemma_stands(b, s.p, seq![0x5du8, 0x28u8], body);
            let t = lemma_opened(b, s, 0x5d);
            let memo = lemma_read_run(b, t, v);
            let items = Doc::run_means(v);
            let u = further(t, body.len() as int, t.stack + items, memo);
            lemma_op(b, u.p, 0x65);
            marked_values_extend_a_list(b, u, base, Seq::empty(), items);
            assert(Seq::<Value>::empty() + items =~= items);
            memo
        },
        Doc::Grown(v) => {
            let body = Doc::grown_bytes(v);
            lemma_stands(b, s.p, seq![0x5du8], body);
            lemma_op(b, s.p, 0x5d);
            constants_are_pushed(b, s, 0x5d);
            let t = further(s, 1, base.push(Value::List(Seq::empty())), s.memo);
            lemma_read_grown(b, t, base, v)
        },
        Doc::Dict(v) => {
            let body = Doc::pair_bytes(v);
            lemma_stands(b, s.p, seq![0x7du8, 0x28u8] + body, seq![0x75u8]);
            lemma_stands(b, s.p, seq![0x7du8, 0x28u8], body);
            let t = lemma_opened(b, s, 0x7d);
            let memo = lemma_read_pairs(b, t, v);
            let items = flat(Doc::pair_means(v));
            let u = further(t, body.len() as int, t.stack + items, memo);
            lemma_op(b, u.p, 0x75);
            marked_pairs_enter_a_dictionary(b, u, base, Seq::empty(), Doc::pair_means(v));
            assert(Seq::<(Value, Value)>::empty() + Doc::pair_means(v) =~= Doc::pair_means(v));
            memo
        },
        Doc::Entered(v) => {
            let body = Doc::entered_bytes(v);
            lemma_stands(b, s.p, seq![0x7du8], body);
            lemma_op(b, s.p, 0x7d);
            constants_are_pushed(b, s, 0x7d);
            let t = further(s, 1, base.push(Value::Dict(Seq::empty())), s.memo);
            lemma_read_entered(b, t, base, v)
        },
        Doc::PersId(x) => {
            lemma_stands(b, s.p, x.bytes(), seq![0x51u8]);
            let memo = lemma_read(b, s, *x);
            let u = further(s, x.bytes().len() as int, base.push(x.means()), memo);
            lemma_op(b, u.p, 0x51);
            a_value_becomes_a_persistent_id(b, u, base, x.means());
            memo
        },
        Doc::Kept(k, x) => {
            lemma_stands(b, s.p, x.bytes(), seq![0x71u8, k]);
            let memo = lemma_read(b, s, *x);
            let u = further(s, x.bytes().len() as int, base.push(x.means()), memo);
            assert(b[u.p + 0] == seq![0x71u8, k][0] && b[u.p + 1] == seq![0x71u8, k][1]);
            the_topmost_value_is_remembered(b, u, 0x71);
            memo.insert(k as u32, x.means())
        },
        Doc::KeptFar(k, x) => {
            assert(d.bytes() =~= x.bytes() + (seq![0x72u8] + four(k as int)));
            lemma_stands(b, s.p, x.bytes(), seq![0x72u8] + four(k as int));
            let memo = lemma_read(b, s, *x);
            let u = further(s, x.bytes().len() as int, base.push(x.means()), memo);
            lemma_stands(b, u.p, seq![0x72u8], four(k as int));
            lemma_op(b, u.p, 0x72);
            lemma_four(b, u.p + 1, k as int);
            the_topmost_value_is_remembered(b, u, 0x72);
            memo.insert(k, x.means())
        },
        Doc::Memoized(x) => {
            lemma_stands(b, s.p, x.bytes(), seq![0x94u8]);
            let memo = lemma_read(b, s, *x);
            let u = further(s, x.bytes().len() as int, base.push(x.means()), memo);
            lemma_op(b, u.p, 0x94);
            the_topmost_value_is_remembered(b, u, 0x94);
            memo.insert((memo.dom().len() % 4294967296) as u32, x.means())
        },
    }
}

/// An empty list or dictionary, and a mark above it.
proof fn lemma_opened(b: Seq<u8>, s: State, op: u8) -> (t: State)
    requires
        stands(b, s.p, seq![op, 0x28u8]),
        op == 0x5d || op == 0x7d,
    ensures
        t == further(
            s,
            2,
            s.stack.push(
                if op == 0x5d {
                    Value::List(Seq::empty())
                } else {
                    Value::Dict(Seq::empty())
                },
            ).push(Value::Mark),
            s.memo,
        ),
        from(b, s) == from(b, t),
{
    let w = seq![op, 0x28u8];
    assert(b[s.p + 0] == w[0] && b[s.p + 1] == w[1]);
    constants_are_pushed(b, s, op);
    let x = if op == 0x5d {
        Value::List(Seq::empty())
    } else {
        Value::Dict(Seq::empty())
    };
    let u = further(s, 1, s.stack.push(x), s.memo);
    constants_are_pushed(b, u, 0x28);
    further(u, 1, u.stack.push(Value::Mark), s.memo)
}

/// A class named by two texts.
proof fn lemma_named(b: Seq<u8>, s: State, m: Seq<u8>, c: Seq<u8>)
    requires
        m.len() < 256,
        c.len() < 256,
        stands(b, s.p, Doc::Named(m, c).bytes()),
    ensures
        from(b, s) == from(
            b,
            further(
                s,
                Doc::Named(m, c).bytes().len() as int,
                s.stack.push(Doc::Named(m, c).means()),
                s.memo,
            ),
        ),
{
    let (x, y) = (Doc::Name(m), Doc::Name(c));
    assert(Doc::Named(m, c).bytes() =~= (x.bytes() + y.bytes()) + seq![0x93u8]);
    lemma_stands(b, s.p, x.bytes() + y.bytes(), seq![0x93u8]);
    lemma_stands(b, s.p, x.bytes(), y.bytes());
    lemma_name(b, s, m);
    let t = further(s, x.bytes().len() as int, s.stack.push(x.means()), s.memo);
    lemma_name(b, t, c);
    let u = further(t, y.bytes().len() as int, t.stack.push(y.means()), s.memo);
    lemma_op(b, u.p, 0x93);
    two_texts_become_a_class(b, u, s.stack, utf8_lossy(m), utf8_lossy(c));
}

/// Values one after another.
proof fn lemma_read_run(b: Seq<u8>, s: State, v: Seq<Doc>) -> (memo: Map<u32, Value>)
    requires
        forall|i: int| 0 <= i < v.len() ==> (#[trigger] v[i]).fits(),
        stands(b, s.p, Doc::run_bytes(v)),
    ensures
        from(b, s) == from(
            b,
            further(s, Doc::run_bytes(v).len() as int, s.stack + Doc::run_means(v), memo),
        ),
        Doc::run_means(v).len() == v.len(),
        forall|i: int|
            0 <= i < v.len() ==> #[trigger] Doc::run_means(v)[i] != Value::Mark,
    decreases v,
{
    if v.len() == 0 {
        assert(s.stack + Doc::run_means(v) =~= s.stack);
        s.memo
    } else {
        let (init, last) = (v.drop_last(), v[v.len() - 1]);
        assert forall|i: int| 0 <= i < init.len() implies (#[trigger] init[i]).fits() by {
            assert(init[i] == v[i]);
        }
        lemma_stands(b, s.p, Doc::run_bytes(init), last.bytes());
        let m1 = lemma_read_run(b, s, init);
        let t = further(
            s,
            Doc::run_bytes(init).len() as int,
            s.stack + Doc::run_means(init),
            m1,
        );
        let m2 = lemma_read(b, t, last);
        lemma_no_mark(last);
        assert(t.stack.push(last.means()) =~= s.stack + Doc::run_means(v));
        m2
    }
}

/// Values appended to a list one by one.
proof fn lemma_read_grown(b: Seq<u8>, s: State, base: Seq<Value>, v: Seq<Doc>) -> (memo: Map<
    u32,
    Value,
>)
    requires
        forall|i: int| 0 <= i < v.len() ==> (#[trigger] v[i]).fits(),
        stands(b, s.p, Doc::grown_bytes(v)),
        s.stack == base.push(Value::List(Seq::empty())),
    ensures
        from(b, s) == from(
            b,
            further(
                s,
                Doc::grown_bytes(v).len() as int,
                base.push(Value::List(Doc::run_means(v))),
                memo,
            ),
        ),
    decreases v,
{
    if v.len() == 0 {
        s.memo
    } else {
        let (init, last) = (v.drop_last(), v[v.len() - 1]);
        assert forall|i: int| 0 <= i < init.len() implies (#[trigger] init[i]).fits() by {
            assert(init[i] == v[i]);
        }
        let head = Doc::grown_bytes(init);
        assert(Doc::grown_bytes(v) =~= head + (last.bytes() + seq![0x61u8]));
        lemma_stands(b, s.p, head, last.bytes() + seq![0x61u8]);
        lemma_stands(b, s.p + head.len(), last.bytes(), seq![0x61u8]);
        let m1 = lemma_read_grown(b, s, base, init);
        let t = further(
            s,
            head.len() as int,
            base.push(Value::List(Doc::run_means(init))),
            m1,
        );
        let m2 = lemma_read(b, t, last);
        let u = further(t, last.bytes().len() as int, t.stack.push(last.means()), m2);
        lemma_op(b, u.p, 0x61);
        a_value_extends_a_list(b, u, base, Doc::run_means(init), last.means());
        m2
    }
}

/// Pairs, one value after the other.
pub open spec fn flat(p: Seq<(Value, Value)>) -> Seq<Value> {
    Seq::new(
        2 * p.len(),
        |i: int|
            if i % 2 == 0 {
                p[i / 2].0
            } else {
                p[i / 2].1
            },
    )
}

/// Keys and values in turn.
proof fn lemma_read_pairs(b: Seq<u8>, s: State, v: Seq<(Doc, Doc)>) -> (memo: Map<u32, Value>)
    requires
        forall|i: int| 0 <= i < v.len() ==> (#[trigger] v[i]).0.fits() && v[i].1.fits(),
        stands(b, s.p, Doc::pair_bytes(v)),
    ensures
        from(b, s) == from(
            b,
            further(s, Doc::pair_bytes(v).len() as int, s.stack + flat(Doc::pair_means(v)), memo),
        ),
        Doc::pair_means(v).len() == v.len(),
        forall|i: int|
            0 <= i < 2 * v.len() ==> #[trigger] flat(Doc::pair_means(v))[i] != Value::Mark,
    decreases v,
{
    if v.len() == 0 {
        assert(s.stack + flat(Doc::pair_means(v)) =~= s.stack);
        s.memo
    } else {
        let (init, last) = (v.drop_last(), v[v.len() - 1]);
        assert forall|i: int| 0 <= i < init.len() implies (#[trigger] init[i]).0.fits()
            && init[i].1.fits() by {
            assert(init[i] == v[i]);
        }
        let (head, k, x) = (Doc::pair_bytes(init), last.0, last.1);
        lemma_stands(b, s.p, head + k.bytes(), x.bytes());
        lemma_stands(b, s.p, head, k.bytes());
        let m1 = lemma_read_pairs(b, s, init);
        let t = further(s, head.len() as int, s.stack + flat(Doc::pair_means(init)), m1);
        let m2 = lemma_read(b, t, k);
        let u = further(t, k.bytes().len() as int, t.stack.push(k.means()), m2);
        let m3 = lemma_read(b, u, x);
        lemma_no_mark(k);
        lemma_no_mark(x);
        let (p, q) = (Doc::pair_means(v), Doc::pair_means(init));
        let n = q.len() as int;
        assert(flat(p).len() == 2 * n + 2);
        assert forall|i: int| 0 <= i < 2 * n + 2 implies #[trigger] flat(p)[i] == (if i < 2 * n {
            flat(q)[i]
        } else if i == 2 * n {
            k.means()
        } else {
            x.means()
        }) by {
            if i < 2 * n {
                assert(p[i / 2] == q[i / 2]);
            }
        }
        assert(u.stack.push(x.means()) =~= s.stack + flat(p));
        assert forall|i: int| 0 <= i < 2 * v.len() implies #[trigger] flat(p)[i]
            != Value::Mark by {
            if i < 2 * n {
                assert(flat(q)[i] != Value::Mark);
            }
        }
        m3
    }
}

/// Pairs set one by one.
proof fn lemma_read_entered(
    b: Seq<u8>,
    s: State,
    base: Seq<Value>,
    v: Seq<(Doc, Doc)>,
) -> (memo: Map<u32, Value>)
    requires
        forall|i: int| 0 <= i < v.len() ==> (#[trigger] v[i]).0.fits() && v[i].1.fits(),
        stands(b, s.p, Doc::entered_bytes(v)),
        s.stack == base.push(Value::Dict(Seq::empty())),
    ensures
        from(b, s) == from(
            b,
            further(
                s,
                Doc::entered_bytes(v).len() as int,
                base.push(Value::Dict(Doc::pair_means(v))),
                memo,
            ),
        ),
    decreases v,
{
    if v.len() == 0 {
        s.memo
    } else {
        let (init, last) = (v.drop_last(), v[v.len() - 1]);
        assert forall|i: int| 0 <= i < init.len() implies (#[trigger] init[i]).0.fits()
            && init[i].1.fits() by {
            assert(init[i] == v[i]);
        }
        let (head, k, x) = (Doc::entered_bytes(init), last.0, last.1);
        assert(Doc::entered_bytes(v) =~= (head + k.bytes()) + (x.bytes() + seq![0x73u8]));
        lemma_stands(b, s.p, head + k.bytes(), x.bytes() + seq![0x73u8]);
        lemma_stands(b, s.p, head, k.bytes());
        lemma_stands(b, s.p + (head + k.bytes()).len(), x.bytes(), seq![0x73u8]);
        let m1 = lemma_read_entered(b, s, base, init);
        let t = further(
            s,
            head.len() as int,
            base.push(Value::Dict(Doc::pair_means(init))),
            m1,
        );
        let m2 = lemma_read(b, t, k);
        let u = further(t, k.bytes().len() as int, t.stack.push(k.means()), m2);
        let m3 = lemma_read(b, u, x);
        let z = further(u, x.bytes().len() as int, u.stack.push(x.means()), m3);
        lemma_op(b, z.p, 0x73);
        a_pair_enters_a_dictionary(b, z, base, Doc::pair_means(init), k.means(), x.means());
        m3
    }
}

/// What is written is read: a pickle of any value, in any of the spellings, holds that value.
#[verifier::rlimit(40)]
#[verifier::spinoff_prover]
pub proof fn written_values_read_back(d: Doc, proto: u8)
    requires
        d.fits(),
    ensures
        pickled(d.bytes() + seq![0x2eu8]) == Ok::<Value, Fault>(d.means()),
        pickled(seq![0x80u8, proto] + d.bytes() + seq![0x2eu8]) == Ok::<Value, Fault>(d.means()),
{
    let b = d.bytes() + seq![0x2eu8];
    let s = State { p: 0, stack: Seq::empty(), memo: Map::empty() };
    assert(b.skip(0) =~= b);
    lemma_whole(d, b, s, 0);
    reveal(from);
    let c = seq![0x80u8, proto] + d.bytes() + seq![0x2eu8];
    assert(c[0] == 0x80u8);
    let t = State { p: 2, stack: Seq::empty(), memo: Map::empty() };
    framing_changes_nothing(c, s, 0x80);
    assert(c.skip(2) =~= b);
    lemma_whole(d, c, t, 2);
}

proof fn lemma_whole(d: Doc, b: Seq<u8>, s: State, n: int)
    requires
        d.fits(),
        s == (State { p: n, stack: Seq::empty(), memo: Map::empty() }),
        0 <= n,
        b.len() == n + d.bytes().len() + 1,
        b.skip(n) == d.bytes() + seq![0x2eu8],
    ensures
        from(b, s) == Ok::<Value, Fault>(d.means()),
{
    let w = d.bytes() + seq![0x2eu8];
    assert forall|i: int| 0 <= i < w.len() implies #[trigger] b[n + i] == w[i] by {
        assert(b.skip(n)[i] == w[i]);
    }
    assert(stands(b, n, w));
    lemma_stands(b, n, d.bytes(), seq![0x2eu8]);
    let memo = lemma_read(b, s, d);
    let u = further(s, d.bytes().len() as int, s.stack.push(d.means()), memo);
    lemma_op(b, u.p, 0x2e);
    lemma_stop(b, u);
}

/// The pickle `b` is read, and holds the value `v`.
#[verifier::opaque]
pub open spec fn holds(b: Seq<u8>, v: Value) -> bool {
    pickled(b) == Ok::<Value, Fault>(v)
}

proof fn lemma_holds(d: Doc)
    requires
        d.fits(),
    ensures
        holds(d.bytes() + seq![0x2eu8], d.means()),
{
    reveal(holds);
    written_values_read_back(d, 2);
}

/// A value and the opcode for a tuple of one: the tuple of that value.
pub proof fn a_tuple_of_one_holds_it(a: Doc)
    requires
        a.fits(),
    ensures
        holds(a.bytes() + seq![0x85u8, 0x2eu8], Value::Tuple(seq![a.means()])),
{
    let d = Doc::One(Box::new(a));
    lemma_holds(d);
    assert(d.bytes() + seq![0x2eu8] =~= a.bytes() + seq![0x85u8, 0x2eu8]);
}

/// Two values and the opcode for a tuple of two: the tuple of both, in the order they were pushed.
pub proof fn a_tuple_of_two_keeps_their_order(a: Doc, b: Doc)
    requires
        a.fits(),
        b.fits(),
    ensures
        holds(
            a.bytes() + b.bytes() + seq![0x86u8, 0x2eu8],
            Value::Tuple(seq![a.means(), b.means()]),
        ),
{
    let d = Doc::Two(Box::new(a), Box::new(b));
    lemma_holds(d);
    assert(d.bytes() + seq![0x2eu8] =~= a.bytes() + b.bytes() + seq![0x86u8, 0x2eu8]);
}

/// Three values and the opcode for a tuple of three: the tuple of all, in the order they were
/// pushed.
pub proof fn a_tuple_of_three_keeps_their_order(a: Doc, b: Doc, c: Doc)
    requires
        a.fits(),
        b.fits(),
        c.fits(),
    ensures
        holds(
            a.bytes() + b.bytes() + c.bytes() + seq![0x87u8, 0x2eu8],
            Value::Tuple(seq![a.means(), b.means(), c.means()]),
        ),
{
    let d = Doc::Three(Box::new(a), Box::new(b), Box::new(c));
    lemma_holds(d);
    assert(d.bytes() + seq![0x2eu8] =~= a.bytes() + b.bytes() + c.bytes() + seq![0x87u8, 0x2eu8]);
}

/// A run of values between a mark and the tuple opcode is the tuple of its members in order, however
/// many there are.
pub proof fn marked_tuples_keep_their_order(v: Seq<Doc>)
    requires
        forall|i: int| 0 <= i < v.len() ==> (#[trigger] v[i]).fits(),
    ensures
        holds(
            seq![0x28u8] + Doc::run_bytes(v) + seq![0x74u8, 0x2eu8],
            Value::Tuple(Seq::new(v.len(), |i: int| v[i].means())),
        ),
{
    let d = Doc::Tuple(v);
    lemma_holds(d);
    lemma_run_means(v);
    assert(d.bytes() + seq![0x2eu8] =~= seq![0x28u8] + Doc::run_bytes(v) + seq![0x74u8, 0x2eu8]);
}

proof fn lemma_run_means(v: Seq<Doc>)
    ensures
        Doc::run_means(v) == Seq::new(v.len(), |i: int| v[i].means()),
    decreases v.len(),
{
    if v.len() > 0 {
        lemma_run_means(v.drop_last());
    }
    assert(Doc::run_means(v) =~= Seq::new(v.len(), |i: int| v[i].means()));
}

/// The two spellings of a tuple of one, two or three read as the same value.
pub proof fn tuples_have_one_reading(a: Doc, b: Doc, c: Doc)
    requires
        a.fits(),
        b.fits(),
        c.fits(),
    ensures
        ({
            let t = Value::Tuple(seq![a.means()]);
            &&& holds(a.bytes() + seq![0x85u8, 0x2eu8], t)
            &&& holds(seq![0x28u8] + a.bytes() + seq![0x74u8, 0x2eu8], t)
        }),
        ({
            let t = Value::Tuple(seq![a.means(), b.means()]);
            &&& holds(a.bytes() + b.bytes() + seq![0x86u8, 0x2eu8], t)
            &&& holds(seq![0x28u8] + (a.bytes() + b.bytes()) + seq![0x74u8, 0x2eu8], t)
        }),
        ({
            let t = Value::Tuple(seq![a.means(), b.means(), c.means()]);
            &&& holds(a.bytes() + b.bytes() + c.bytes() + seq![0x87u8, 0x2eu8], t)
            &&& holds(
                seq![0x28u8] + (a.bytes() + b.bytes() + c.bytes()) + seq![0x74u8, 0x2eu8],
                t,
            )
        }),
{
    a_tuple_of_one_holds_it(a);
    a_tuple_of_two_keeps_their_order(a, b);
    a_tuple_of_three_keeps_their_order(a, b, c);
    lemma_run_of(a, b, c);
    marked_tuples_keep_their_order(seq![a]);
    marked_tuples_keep_their_order(seq![a, b]);
    marked_tuples_keep_their_order(seq![a, b, c]);
    assert(Seq::new(1, |i: int| seq![a][i].means()) =~= seq![a.means()]);
    assert(Seq::new(2, |i: int| seq![a, b][i].means()) =~= seq![a.means(), b.means()]);
    assert(Seq::new(3, |i: int| seq![a, b, c][i].means()) =~= seq![
        a.means(),
        b.means(),
        c.means(),
    ]);
}

proof fn lemma_run_of(a: Doc, b: Doc, c: Doc)
    ensures
        Doc::run_bytes(seq![a]) == a.bytes(),
        Doc::run_bytes(seq![a, b]) == a.bytes() + b.bytes(),
        Doc::run_bytes(seq![a, b, c]) == a.bytes() + b.bytes() + c.bytes(),
{
    assert(seq![a, b, c].drop_last() =~= seq![a, b]);
    assert(seq![a, b].drop_last() =~= seq![a]);
    assert(seq![a].drop_last() =~= Seq::<Doc>::empty());
    assert(Doc::run_bytes(Seq::<Doc>::empty()) =~= Seq::<u8>::empty());
    assert(Doc::run_bytes(seq![a]) =~= a.bytes());
    assert(Doc::run_bytes(seq![a, b]) =~= a.bytes() + b.bytes());
    assert(Doc::run_bytes(seq![a, b, c]) =~= a.bytes() + b.bytes() + c.bytes());
}

} // verus!
