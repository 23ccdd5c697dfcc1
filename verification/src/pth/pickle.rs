//! The pickle machine, as far as a checkpoint needs it.
use vstd::prelude::*;
use std::collections::HashMap;
use crate::pth::fault::Fault;
use crate::pth::object::{Obj, Value, lemma_members, pair_values, values};
use crate::pth::text::{is_named, lossy, utf8_lossy};
use crate::pth::zip::{le16, le32, u16le, u32le};

verus! {

broadcast use vstd::std_specs::hash::group_hash_axioms;

// -- the opcodes --

pub const PROTO: u8 = 0x80;

pub const FRAME: u8 = 0x95;

pub const GLOBAL: u8 = 0x63;

pub const STACK_GLOBAL: u8 = 0x93;

pub const BINPUT: u8 = 0x71;

pub const LONG_BINPUT: u8 = 0x72;

pub const MEMOIZE: u8 = 0x94;

pub const BINGET: u8 = 0x68;

pub const LONG_BINGET: u8 = 0x6a;

pub const BININT1: u8 = 0x4b;

pub const BININT2: u8 = 0x4d;

pub const BININT: u8 = 0x4a;

pub const LONG1: u8 = 0x8a;

pub const BINFLOAT: u8 = 0x47;

pub const BINUNICODE: u8 = 0x58;

pub const SHORT_BINUNICODE: u8 = 0x8c;

pub const NONE: u8 = 0x4e;

pub const NEWTRUE: u8 = 0x88;

pub const NEWFALSE: u8 = 0x89;

pub const MARK: u8 = 0x28;

pub const EMPTY_TUPLE: u8 = 0x29;

pub const TUPLE1: u8 = 0x85;

pub const TUPLE2: u8 = 0x86;

pub const TUPLE3: u8 = 0x87;

pub const TUPLE: u8 = 0x74;

pub const EMPTY_LIST: u8 = 0x5d;

pub const APPENDS: u8 = 0x65;

pub const APPEND: u8 = 0x61;

pub const EMPTY_DICT: u8 = 0x7d;

pub const SETITEM: u8 = 0x73;

pub const SETITEMS: u8 = 0x75;

pub const BINPERSID: u8 = 0x51;

pub const REDUCE: u8 = 0x52;

pub const NEWOBJ: u8 = 0x81;

pub const BUILD: u8 = 0x62;

pub const STOP: u8 = 0x2e;

// -- what the machine does --

/// Where the machine is: its place in the stream, its stack, its memo.
pub struct State {
    pub p: int,
    pub stack: Seq<Value>,
    pub memo: Map<u32, Value>,
}

/// What one opcode leads to.
pub enum Outcome {
    On(State),
    Done,
    Fail(Fault),
}

/// Go on at `q` with this stack.
pub open spec fn on(s: State, q: int, stack: Seq<Value>) -> Outcome {
    Outcome::On(State { p: q, stack, memo: s.memo })
}

/// Go on at `q` with `v` on the stack.
pub open spec fn push(s: State, q: int, v: Value) -> Outcome {
    on(s, q, s.stack.push(v))
}

/// The first line feed from `i` on.
pub open spec fn newline(b: Seq<u8>, i: int) -> Option<int>
    decreases b.len() - i,
{
    if i < 0 || i >= b.len() {
        None
    } else if b[i] == 10 {
        Some(i)
    } else {
        newline(b, i + 1)
    }
}

/// Two lines, a module and a class.
pub open spec fn global(b: Seq<u8>, s: State, q: int) -> Outcome {
    match newline(b, q) {
        None => Outcome::Fail(Fault::Truncated),
        Some(e) => match newline(b, e + 1) {
            None => Outcome::Fail(Fault::Truncated),
            Some(f) => push(
                s,
                f + 1,
                Value::Class(utf8_lossy(b.subrange(q, e)), utf8_lossy(b.subrange(e + 1, f))),
            ),
        },
    }
}

/// A module and a class off the stack.
pub open spec fn stack_global(s: State, q: int) -> Outcome {
    let n = s.stack.len();
    if n < 2 {
        Outcome::Fail(Fault::Underflow { op: STACK_GLOBAL })
    } else {
        match (s.stack[n - 2], s.stack[n - 1]) {
            (Value::Str(m), Value::Str(c)) => on(
                s,
                q,
                s.stack.take(n - 2).push(Value::Class(m, c)),
            ),
            _ => Outcome::Fail(Fault::GlobalTypes),
        }
    }
}

/// Remember the top of the stack under `k`.
pub open spec fn put(s: State, q: int, k: u32, op: u8) -> Outcome {
    if s.stack.len() == 0 {
        Outcome::Fail(Fault::Underflow { op })
    } else {
        Outcome::On(
            State { p: q, stack: s.stack, memo: s.memo.insert(k, s.stack.last()) },
        )
    }
}

/// Push what is remembered under `k`.
pub open spec fn get(s: State, q: int, k: u32, op: u8) -> Outcome {
    if s.memo.contains_key(k) {
        push(s, q, s.memo[k])
    } else {
        Outcome::Fail(Fault::Memo { op })
    }
}

/// The number a memo of this size is extended under.
pub open spec fn next_key(memo: Map<u32, Value>) -> u32 {
    (memo.dom().len() % 4294967296) as u32
}

/// A 32-bit number, two's complement.
pub open spec fn signed32(u: int) -> int {
    if u < 2147483648 {
        u
    } else {
        u - 4294967296
    }
}

/// A 64-bit number, two's complement.
pub open spec fn signed64(u: int) -> int {
    if u < 9223372036854775808 {
        u
    } else {
        u - 18446744073709551616
    }
}

/// The little-endian number of `n` bytes from `o` on.
pub open spec fn le_run(b: Seq<u8>, o: int, n: nat) -> int
    decreases n,
{
    if n == 0 {
        0
    } else {
        b[o] + 256 * le_run(b, o + 1, (n - 1) as nat)
    }
}

/// The big-endian 64-bit number at `o`.
pub open spec fn be64(b: Seq<u8>, o: int) -> int {
    let hi = ((b[o] * 256 + b[o + 1]) * 256 + b[o + 2]) * 256 + b[o + 3];
    let lo = ((b[o + 4] * 256 + b[o + 5]) * 256 + b[o + 6]) * 256 + b[o + 7];
    hi * 4294967296 + lo
}

/// An integer of at most eight bytes.
pub open spec fn long1(b: Seq<u8>, s: State, q: int) -> Outcome {
    if q + 1 > b.len() {
        Outcome::Fail(Fault::Truncated)
    } else if b[q] > 8 {
        Outcome::Fail(Fault::LongInt)
    } else if q + 1 + b[q] > b.len() {
        Outcome::Fail(Fault::Truncated)
    } else {
        push(
            s,
            q + 1 + b[q],
            Value::Int(signed64(le_run(b, q + 1, b[q] as nat)) as i64),
        )
    }
}

/// Text of `n` bytes from `o` on.
pub open spec fn text(b: Seq<u8>, s: State, o: int, n: int) -> Outcome {
    if o + n > b.len() {
        Outcome::Fail(Fault::Truncated)
    } else {
        push(s, o + n, Value::Str(utf8_lossy(b.subrange(o, o + n))))
    }
}

/// The `n` topmost values as one tuple.
pub open spec fn tupled(s: State, q: int, n: int, op: u8) -> Outcome {
    let len = s.stack.len();
    if len < n {
        Outcome::Fail(Fault::Underflow { op })
    } else {
        on(s, q, s.stack.take(len - n).push(Value::Tuple(s.stack.skip(len - n))))
    }
}

/// The topmost mark among the first `n` values.
pub open spec fn last_mark(stack: Seq<Value>, n: int) -> Option<int>
    decreases n,
{
    if n <= 0 {
        None
    } else if stack[n - 1] == Value::Mark {
        Some(n - 1)
    } else {
        last_mark(stack, n - 1)
    }
}

/// Everything above the mark as one tuple.
pub open spec fn mark_tuple(s: State, q: int) -> Outcome {
    match last_mark(s.stack, s.stack.len() as int) {
        None => Outcome::Fail(Fault::NoMark),
        Some(i) => on(s, q, s.stack.take(i).push(Value::Tuple(s.stack.skip(i + 1)))),
    }
}

/// The list on top of a stack, extended; anything else stays.
pub open spec fn extended(stack: Seq<Value>, items: Seq<Value>) -> Seq<Value> {
    if stack.len() > 0 && stack.last() is List {
        stack.drop_last().push(Value::List(stack.last()->List_0 + items))
    } else {
        stack
    }
}

/// The dictionary on top of a stack, extended; anything else stays.
pub open spec fn entered(stack: Seq<Value>, items: Seq<(Value, Value)>) -> Seq<Value> {
    if stack.len() > 0 && stack.last() is Dict {
        stack.drop_last().push(Value::Dict(stack.last()->Dict_0 + items))
    } else {
        stack
    }
}

/// Everything above the mark into the list below it.
pub open spec fn appends(s: State, q: int) -> Outcome {
    match last_mark(s.stack, s.stack.len() as int) {
        None => Outcome::Fail(Fault::NoMark),
        Some(i) => on(s, q, extended(s.stack.take(i), s.stack.skip(i + 1))),
    }
}

/// The topmost value into the list below it.
pub open spec fn append(s: State, q: int) -> Outcome {
    if s.stack.len() == 0 {
        Outcome::Fail(Fault::Underflow { op: APPEND })
    } else {
        on(s, q, extended(s.stack.drop_last(), seq![s.stack.last()]))
    }
}

/// The two topmost values, a key and its value, into the dictionary below them.
pub open spec fn setitem(s: State, q: int) -> Outcome {
    let n = s.stack.len();
    if n < 2 {
        Outcome::Fail(Fault::Underflow { op: SETITEM })
    } else {
        on(s, q, entered(s.stack.take(n - 2), seq![(s.stack[n - 2], s.stack[n - 1])]))
    }
}

/// Neighbours paired.
pub open spec fn paired(items: Seq<Value>) -> Seq<(Value, Value)> {
    Seq::new((items.len() / 2) as nat, |i: int| (items[2 * i], items[2 * i + 1]))
}

/// Everything above the mark, keys and values in turn, into the dictionary below it.
pub open spec fn setitems(s: State, q: int) -> Outcome {
    match last_mark(s.stack, s.stack.len() as int) {
        None => Outcome::Fail(Fault::NoMark),
        Some(i) => {
            let (base, items) = (s.stack.take(i), s.stack.skip(i + 1));
            if base.len() > 0 && base.last() is Dict && items.len() % 2 != 0 {
                Outcome::Fail(Fault::OddItems)
            } else {
                on(s, q, entered(base, paired(items)))
            }
        },
    }
}

/// The topmost value as a persistent id.
pub open spec fn persid(s: State, q: int) -> Outcome {
    if s.stack.len() == 0 {
        Outcome::Fail(Fault::Underflow { op: BINPERSID })
    } else {
        on(s, q, s.stack.drop_last().push(Value::PersId(Box::new(s.stack.last()))))
    }
}

/// A call: a new dictionary where the class is one, a reduction otherwise.
pub open spec fn reduced(call: Value, args: Value) -> Value {
    match call {
        Value::Class(m, c) => if m == "collections"@ && (c == "OrderedDict"@ || c
            == "defaultdict"@) {
            Value::Dict(Seq::empty())
        } else {
            Value::Reduce(Box::new(call), Box::new(args))
        },
        _ => Value::Reduce(Box::new(call), Box::new(args)),
    }
}

/// A state set: two dictionaries joined, a build otherwise.
pub open spec fn built(obj: Value, args: Value) -> Value {
    match (obj, args) {
        (Value::Dict(d), Value::Dict(a)) => Value::Dict(d + a),
        _ => Value::Build(Box::new(obj), Box::new(args)),
    }
}

/// Which of the three calls.
pub enum Call {
    Reduce,
    Create,
    Build,
}

pub open spec fn called(how: Call, f: Value, args: Value) -> Value {
    match how {
        Call::Reduce => reduced(f, args),
        Call::Create => Value::Reduce(Box::new(f), Box::new(args)),
        Call::Build => built(f, args),
    }
}

/// The two topmost values, called.
pub open spec fn call(s: State, q: int, how: Call, op: u8) -> Outcome {
    let n = s.stack.len();
    if n < 2 {
        Outcome::Fail(Fault::Underflow { op })
    } else {
        on(s, q, s.stack.take(n - 2).push(called(how, s.stack[n - 2], s.stack[n - 1])))
    }
}

/// What the opcodes that read an operand do, `q` being where it starts.
pub open spec fn step_operand(b: Seq<u8>, s: State, op: u8, q: int) -> Outcome {
    let width: int = if op == FRAME || op == BINFLOAT {
        8
    } else if op == LONG_BINPUT || op == LONG_BINGET || op == BININT || op == BINUNICODE {
        4
    } else if op == BININT2 {
        2
    } else {
        1
    };
    if q + width > b.len() {
        Outcome::Fail(Fault::Truncated)
    } else if op == PROTO || op == FRAME {
        on(s, q + width, s.stack)
    } else if op == BINPUT {
        put(s, q + 1, b[q] as u32, op)
    } else if op == LONG_BINPUT {
        put(s, q + 4, le32(b, q) as u32, op)
    } else if op == BINGET {
        get(s, q + 1, b[q] as u32, op)
    } else if op == LONG_BINGET {
        get(s, q + 4, le32(b, q) as u32, op)
    } else if op == BININT1 {
        push(s, q + 1, Value::Int(b[q] as i64))
    } else if op == BININT2 {
        push(s, q + 2, Value::Int(le16(b, q) as i64))
    } else if op == BININT {
        push(s, q + 4, Value::Int(signed32(le32(b, q)) as i64))
    } else if op == BINFLOAT {
        push(s, q + 8, Value::Float(be64(b, q) as u64))
    } else if op == BINUNICODE {
        text(b, s, q + 4, le32(b, q))
    } else {
        text(b, s, q + 1, b[q] as int)
    }
}

/// An opcode that reads an operand of a fixed width first.
pub open spec fn has_operand(op: u8) -> bool {
    op == PROTO || op == FRAME || op == BINPUT || op == LONG_BINPUT || op == BINGET || op
        == LONG_BINGET || op == BININT1 || op == BININT2 || op == BININT || op == BINFLOAT || op
        == BINUNICODE || op == SHORT_BINUNICODE
}

/// What the opcodes that push one value do.
pub open spec fn constant(op: u8) -> Option<Value> {
    if op == NONE {
        Some(Value::Nothing)
    } else if op == NEWTRUE {
        Some(Value::Bool(true))
    } else if op == NEWFALSE {
        Some(Value::Bool(false))
    } else if op == MARK {
        Some(Value::Mark)
    } else if op == EMPTY_TUPLE {
        Some(Value::Tuple(Seq::empty()))
    } else if op == EMPTY_LIST {
        Some(Value::List(Seq::empty()))
    } else if op == EMPTY_DICT {
        Some(Value::Dict(Seq::empty()))
    } else {
        None
    }
}

/// One opcode.
pub open spec fn step(b: Seq<u8>, s: State) -> Outcome {
    if s.p >= b.len() {
        Outcome::Fail(Fault::Truncated)
    } else {
        let op = b[s.p];
        let q = s.p + 1;
        if has_operand(op) {
            step_operand(b, s, op, q)
        } else if constant(op) is Some {
            push(s, q, constant(op)->0)
        } else if op == GLOBAL {
            global(b, s, q)
        } else if op == STACK_GLOBAL {
            stack_global(s, q)
        } else if op == MEMOIZE {
            put(s, q, next_key(s.memo), op)
        } else if op == LONG1 {
            long1(b, s, q)
        } else if op == TUPLE1 {
            tupled(s, q, 1, op)
        } else if op == TUPLE2 {
            tupled(s, q, 2, op)
        } else if op == TUPLE3 {
            tupled(s, q, 3, op)
        } else if op == TUPLE {
            mark_tuple(s, q)
        } else if op == APPENDS {
            appends(s, q)
        } else if op == APPEND {
            append(s, q)
        } else if op == SETITEM {
            setitem(s, q)
        } else if op == SETITEMS {
            setitems(s, q)
        } else if op == BINPERSID {
            persid(s, q)
        } else if op == REDUCE {
            call(s, q, Call::Reduce, op)
        } else if op == NEWOBJ {
            call(s, q, Call::Create, op)
        } else if op == BUILD {
            call(s, q, Call::Build, op)
        } else if op == STOP {
            Outcome::Done
        } else {
            Outcome::Fail(Fault::Opcode { op })
        }
    }
}

/// What a stream leaves on top of the stack when it stops.
pub open spec fn run(b: Seq<u8>, s: State) -> Result<Value, Fault>
    decreases b.len() - s.p,
{
    match step(b, s) {
        Outcome::Fail(e) => Err(e),
        Outcome::Done => if s.stack.len() == 0 {
            Err(Fault::Underflow { op: STOP })
        } else {
            Ok(s.stack.last())
        },
        Outcome::On(t) => if s.p < t.p <= b.len() {
            run(b, t)
        } else {
            Err(Fault::Truncated)
        },
    }
}

/// What a pickle holds.
pub open spec fn pickled(b: Seq<u8>) -> Result<Value, Fault> {
    run(b, State { p: 0, stack: Seq::empty(), memo: Map::empty() })
}

/// An opcode moves the machine forward, and not past the end of the stream.
pub proof fn steps_move_forward(b: Seq<u8>, s: State)
    requires
        0 <= s.p <= b.len(),
    ensures
        step(b, s) matches Outcome::On(t) ==> s.p < t.p <= b.len(),
{
    if s.p < b.len() && b[s.p] == GLOBAL {
        let q = s.p + 1;
        lemma_newline_inside(b, q);
        if newline(b, q) is Some {
            lemma_newline_inside(b, newline(b, q)->0 + 1);
        }
    }
}

proof fn lemma_newline_inside(b: Seq<u8>, i: int)
    requires
        0 <= i,
    ensures
        newline(b, i) matches Some(e) ==> i <= e < b.len(),
    decreases b.len() - i,
{
    if i < b.len() && b[i] != 10 {
        lemma_newline_inside(b, i + 1);
    }
}

// -- the machine --

/// The values a memo of objects stands for.
pub open spec fn memo_values(m: Map<u32, Obj>) -> Map<u32, Value> {
    Map::new(|k: u32| m.contains_key(k), |k: u32| m[k].value())
}

struct Machine {
    p: usize,
    stack: Vec<Obj>,
    memo: HashMap<u32, Obj>,
}

/// The machine did what the opcode says.
spec fn went(o: Outcome, after: State, r: Result<(), Fault>) -> bool {
    match o {
        Outcome::On(t) => r is Ok && t == after,
        Outcome::Done => false,
        Outcome::Fail(e) => r == Err::<(), Fault>(e),
    }
}

/// Two states of the same parts are one.
proof fn lemma_same_state(a: State, b: State)
    requires
        a.p == b.p,
        a.stack =~= b.stack,
        a.memo =~= b.memo,
    ensures
        a == b,
{
}

/// The big-endian 64-bit number at `o`.
fn u64be(b: &[u8], o: usize) -> (r: u64)
    requires
        o + 8 <= b@.len(),
    ensures
        r == be64(b@, o as int),
{
    let size: usize = b.len();
    let hi: u64 = ((b[o] as u64 * 256 + b[o + 1] as u64) * 256 + b[o + 2] as u64) * 256 + b[o
        + 3] as u64;
    let lo: u64 = ((b[o + 4] as u64 * 256 + b[o + 5] as u64) * 256 + b[o + 6] as u64) * 256 + b[o
        + 7] as u64;
    hi * 4294967296 + lo
}

/// A power of 256.
spec fn byte_weight(n: nat) -> int
    decreases n,
{
    if n == 0 {
        1
    } else {
        256 * byte_weight((n - 1) as nat)
    }
}

/// A little-endian number is below the weight of its next byte.
proof fn lemma_le_run_bound(b: Seq<u8>, o: int, n: nat)
    requires
        0 <= o,
        o + n <= b.len(),
    ensures
        0 <= le_run(b, o, n) < byte_weight(n),
        n <= 8 ==> byte_weight(n) <= 18446744073709551616,
    decreases n,
{
    reveal_with_fuel(byte_weight, 10);
    if n > 0 {
        lemma_le_run_bound(b, o + 1, (n - 1) as nat);
    }
}

/// The little-endian number of `n` bytes at `o`.
fn read_le(b: &[u8], o: usize, n: usize) -> (r: u64)
    requires
        o + n <= b@.len(),
        n <= 8,
    ensures
        r == le_run(b@, o as int, n as nat),
    decreases n,
{
    let size: usize = b.len();
    proof {
        lemma_le_run_bound(b@, o as int, n as nat);
    }
    if n == 0 {
        0
    } else {
        b[o] as u64 + 256 * read_le(b, o + 1, n - 1)
    }
}

/// A 32-bit number as a signed one.
fn as_i32(u: u32) -> (r: i64)
    ensures
        r == signed32(u as int),
{
    if u < 2147483648 {
        u as i64
    } else {
        u as i64 - 4294967296
    }
}

/// A 64-bit number as a signed one.
pub fn as_i64(u: u64) -> (r: i64)
    ensures
        r == signed64(u as int),
{
    if u < 9223372036854775808 {
        u as i64
    } else {
        -((18446744073709551615 - u) as i64) - 1
    }
}

/// The first line feed from `i` on.
fn find_newline(b: &[u8], i: usize) -> (r: Option<usize>)
    requires
        i <= b@.len(),
    ensures
        r is Some <==> newline(b@, i as int) is Some,
        r matches Some(e) ==> newline(b@, i as int) == Some(e as int) && i <= e < b@.len(),
{
    let mut k: usize = i;
    while k < b.len()
        invariant
            i <= k <= b@.len(),
            newline(b@, k as int) == newline(b@, i as int),
        decreases b@.len() - k,
    {
        if b[k] == 10 {
            return Some(k);
        }
        k = k + 1;
    }
    None
}

/// A call: a new dictionary where the class is one, a reduction otherwise.
fn reduce(call: Obj, args: Obj) -> (r: Obj)
    ensures
        r.value() == reduced(call.value(), args.value()),
{
    if let Obj::Class(m, c) = &call {
        if is_named(m, "collections") && (is_named(c, "OrderedDict") || is_named(c, "defaultdict")) {
            let r = Obj::Dict(Vec::new());
            proof {
                lemma_members(r);
                assert(pair_values(Seq::<(Obj, Obj)>::empty()) =~= Seq::empty());
            }
            return r;
        }
    }
    Obj::Reduce(Box::new(call), Box::new(args))
}

/// A state set: two dictionaries joined, a build otherwise.
fn build(obj: Obj, args: Obj) -> (r: Obj)
    ensures
        r.value() == built(obj.value(), args.value()),
{
    proof {
        lemma_members(obj);
        lemma_members(args);
    }
    match obj {
        Obj::Dict(mut d) => match args {
            Obj::Dict(mut a) => {
                let ghost (was, more) = (d@, a@);
                d.append(&mut a);
                let r = Obj::Dict(d);
                proof {
                    lemma_members(r);
                    assert(pair_values(d@) =~= pair_values(was) + pair_values(more));
                }
                r
            },
            other => Obj::Build(Box::new(Obj::Dict(d)), Box::new(other)),
        },
        other => Obj::Build(Box::new(other), Box::new(args)),
    }
}

impl Machine {
    spec fn state(self) -> State {
        State {
            p: self.p as int,
            stack: values(self.stack@),
            memo: memo_values(self.memo@),
        }
    }

    /// Push an object and go on.
    fn push(&mut self, q: usize, o: Obj) -> (r: Result<(), Fault>)
        ensures
            went(push(old(self).state(), q as int, o.value()), final(self).state(), r),
    {
        let ghost was = self.stack@;
        self.stack.push(o);
        self.p = q;
        assert(values(self.stack@) =~= values(was).push(o.value()));
        Ok(())
    }

    /// Two lines, a module and a class.
    fn global(&mut self, b: &[u8], q: usize) -> (r: Result<(), Fault>)
        requires
            q <= b@.len(),
        ensures
            went(global(b@, old(self).state(), q as int), final(self).state(), r),
    {
        let size: usize = b.len();
        let e: usize = match find_newline(b, q) {
            Some(e) => e,
            None => return Err(Fault::Truncated),
        };
        let f: usize = match find_newline(b, e + 1) {
            Some(f) => f,
            None => return Err(Fault::Truncated),
        };
        let m = lossy(&b[q..e]);
        let c = lossy(&b[e + 1..f]);
        self.push(f + 1, Obj::Class(m, c))
    }

    /// A module and a class off the stack.
    fn stack_global(&mut self, q: usize) -> (r: Result<(), Fault>)
        ensures
            went(stack_global(old(self).state(), q as int), final(self).state(), r),
    {
        let ghost before = self.state();
        let n: usize = self.stack.len();
        if n < 2 {
            return Err(Fault::Underflow { op: STACK_GLOBAL });
        }
        let c = self.stack.pop();
        let m = self.stack.pop();
        match (m, c) {
            (Some(Obj::Str(m)), Some(Obj::Str(c))) => {
                let o = Obj::Class(m, c);
                self.stack.push(o);
                self.p = q;
                assert(values(self.stack@) =~= before.stack.take(n - 2).push(
                    Value::Class(m@, c@),
                ));
                Ok(())
            },
            _ => Err(Fault::GlobalTypes),
        }
    }

    /// Remember the top of the stack.
    fn put(&mut self, q: usize, k: u32, op: u8) -> (r: Result<(), Fault>)
        ensures
            went(put(old(self).state(), q as int, k, op), final(self).state(), r),
    {
        let ghost before = self.state();
        let ghost memo = self.memo@;
        let n: usize = self.stack.len();
        if n == 0 {
            return Err(Fault::Underflow { op });
        }
        let o = self.stack[n - 1].copied();
        self.memo.insert(k, o);
        self.p = q;
        assert(memo_values(self.memo@) =~= memo_values(memo).insert(k, before.stack.last()));
        Ok(())
    }

    /// Push what is remembered.
    fn get(&mut self, q: usize, k: u32, op: u8) -> (r: Result<(), Fault>)
        ensures
            went(get(old(self).state(), q as int, k, op), final(self).state(), r),
    {
        let o = match self.memo.get(&k) {
            Some(o) => o.copied(),
            None => return Err(Fault::Memo { op }),
        };
        self.push(q, o)
    }

    /// The number the memo is extended under.
    fn next_key(&self) -> (k: u32)
        ensures
            k == next_key(self.state().memo),
    {
        let n: u64 = self.memo.len() as u64;
        assert(memo_values(self.memo@).dom() =~= self.memo@.dom());
        (n % 4294967296) as u32
    }

    /// An integer of at most eight bytes.
    fn long1(&mut self, b: &[u8], q: usize) -> (r: Result<(), Fault>)
        requires
            q <= b@.len(),
        ensures
            went(long1(b@, old(self).state(), q as int), final(self).state(), r),
    {
        let size: usize = b.len();
        if size - q < 1 {
            return Err(Fault::Truncated);
        }
        let n: usize = b[q] as usize;
        if n > 8 {
            return Err(Fault::LongInt);
        }
        if size - q - 1 < n {
            return Err(Fault::Truncated);
        }
        let v: i64 = as_i64(read_le(b, q + 1, n));
        self.push(q + 1 + n, Obj::Int(v))
    }

    /// Text of `n` bytes.
    fn text(&mut self, b: &[u8], o: usize, n: usize) -> (r: Result<(), Fault>)
        requires
            o <= b@.len(),
        ensures
            went(text(b@, old(self).state(), o as int, n as int), final(self).state(), r),
    {
        let size: usize = b.len();
        if size - o < n {
            return Err(Fault::Truncated);
        }
        let s = lossy(&b[o..o + n]);
        self.push(o + n, Obj::Str(s))
    }

    /// Everything from `i` on, off the stack.
    fn above(&mut self, i: usize) -> (items: Vec<Obj>)
        requires
            i <= old(self).stack@.len(),
        ensures
            values(items@) == old(self).state().stack.skip(i as int),
            final(self).state().stack == old(self).state().stack.take(i as int),
            final(self).stack@.len() == i,
            final(self).memo@ == old(self).memo@,
            final(self).p == old(self).p,
    {
        let ghost was = self.stack@;
        let items = self.stack.split_off(i);
        assert(values(items@) =~= values(was).skip(i as int));
        assert(values(self.stack@) =~= values(was).take(i as int));
        items
    }

    /// The `n` topmost values as one tuple.
    fn tuple(&mut self, q: usize, n: usize, op: u8) -> (r: Result<(), Fault>)
        ensures
            went(tupled(old(self).state(), q as int, n as int, op), final(self).state(), r),
    {
        let len: usize = self.stack.len();
        if len < n {
            return Err(Fault::Underflow { op });
        }
        let items = self.above(len - n);
        let o = Obj::Tuple(items);
        proof {
            lemma_members(o);
        }
        self.push(q, o)
    }

    /// Where the topmost mark is.
    fn find_mark(&self) -> (r: Option<usize>)
        ensures
            r is Some <==> last_mark(self.state().stack, self.stack@.len() as int) is Some,
            r matches Some(i) ==> last_mark(self.state().stack, self.stack@.len() as int) == Some(
                i as int,
            ) && i < self.stack@.len(),
    {
        let mut n: usize = self.stack.len();
        let ghost stack = self.state().stack;
        while n > 0
            invariant
                n <= self.stack@.len(),
                stack == values(self.stack@),
                last_mark(stack, n as int) == last_mark(stack, self.stack@.len() as int),
            decreases n,
        {
            n = n - 1;
            assert(stack[n as int] == self.stack@[n as int].value());
            if let Obj::Mark = &self.stack[n] {
                return Some(n);
            }
        }
        None
    }

    /// Everything above the topmost mark, which goes with it.
    fn pop_mark(&mut self) -> (r: Result<Vec<Obj>, Fault>)
        ensures
            final(self).memo@ == old(self).memo@,
            final(self).p == old(self).p,
            match last_mark(old(self).state().stack, old(self).stack@.len() as int) {
                None => r == Err::<Vec<Obj>, Fault>(Fault::NoMark) && final(self).state()
                    == old(self).state(),
                Some(i) => r is Ok && values(r->Ok_0@) == old(self).state().stack.skip(i + 1)
                    && final(self).state().stack == old(self).state().stack.take(i),
            },
    {
        let ghost before = self.state().stack;
        let i: usize = match self.find_mark() {
            Some(i) => i,
            None => return Err(Fault::NoMark),
        };
        let n: usize = self.stack.len();
        let items = self.above(i + 1);
        self.stack.pop();
        assert(self.state().stack =~= before.take(i as int));
        Ok(items)
    }

    /// Extend the list on top of the stack, and go on.
    fn extend(&mut self, q: usize, mut items: Vec<Obj>) -> (r: Result<(), Fault>)
        ensures
            went(
                on(
                    old(self).state(),
                    q as int,
                    extended(old(self).state().stack, values(items@)),
                ),
                final(self).state(),
                r,
            ),
    {
        let ghost before = self.state();
        let ghost more = values(items@);
        let ghost was = self.stack@;
        self.p = q;
        match self.stack.pop() {
            None => {},
            Some(Obj::List(mut l)) => {
                let ghost list = l@;
                proof {
                    lemma_members(was.last());
                }
                l.append(&mut items);
                let o = Obj::List(l);
                proof {
                    lemma_members(o);
                    assert(values(l@) =~= values(list) + more);
                }
                self.stack.push(o);
                assert(self.state().stack =~= extended(before.stack, more));
            },
            Some(o) => {
                self.stack.push(o);
                assert(self.stack@ =~= was);
                assert(self.state().stack =~= extended(before.stack, more));
            },
        }
        Ok(())
    }

    /// Extend the dictionary on top of the stack, and go on.
    fn enter(&mut self, q: usize, mut items: Vec<(Obj, Obj)>) -> (r: Result<(), Fault>)
        ensures
            went(
                on(
                    old(self).state(),
                    q as int,
                    entered(old(self).state().stack, pair_values(items@)),
                ),
                final(self).state(),
                r,
            ),
    {
        let ghost before = self.state();
        let ghost more = pair_values(items@);
        let ghost was = self.stack@;
        self.p = q;
        match self.stack.pop() {
            None => {},
            Some(Obj::Dict(mut l)) => {
                let ghost dict = l@;
                proof {
                    lemma_members(was.last());
                }
                l.append(&mut items);
                let o = Obj::Dict(l);
                proof {
                    lemma_members(o);
                    assert(pair_values(l@) =~= pair_values(dict) + more);
                }
                self.stack.push(o);
                assert(self.state().stack =~= entered(before.stack, more));
            },
            Some(o) => {
                self.stack.push(o);
                assert(self.stack@ =~= was);
                assert(self.state().stack =~= entered(before.stack, more));
            },
        }
        Ok(())
    }

    /// Everything above the mark as one tuple.
    fn mark_tuple(&mut self, q: usize) -> (r: Result<(), Fault>)
        ensures
            went(mark_tuple(old(self).state(), q as int), final(self).state(), r),
    {
        let items = match self.pop_mark() {
            Ok(v) => v,
            Err(e) => return Err(e),
        };
        let o = Obj::Tuple(items);
        proof {
            lemma_members(o);
        }
        self.push(q, o)
    }

    /// Everything above the mark into the list below it.
    fn appends(&mut self, q: usize) -> (r: Result<(), Fault>)
        ensures
            went(appends(old(self).state(), q as int), final(self).state(), r),
    {
        match self.pop_mark() {
            Ok(items) => self.extend(q, items),
            Err(e) => Err(e),
        }
    }

    /// The topmost value into the list below it.
    fn append(&mut self, q: usize) -> (r: Result<(), Fault>)
        ensures
            went(append(old(self).state(), q as int), final(self).state(), r),
    {
        let ghost before = self.state();
        match self.stack.pop() {
            None => Err(Fault::Underflow { op: APPEND }),
            Some(o) => {
                assert(self.state().stack =~= before.stack.drop_last());
                let items: Vec<Obj> = vec![o];
                assert(values(items@) =~= seq![before.stack.last()]);
                self.extend(q, items)
            },
        }
    }

    /// A key and its value into the dictionary below them.
    fn setitem(&mut self, q: usize) -> (r: Result<(), Fault>)
        ensures
            went(setitem(old(self).state(), q as int), final(self).state(), r),
    {
        let ghost before = self.state();
        let n: usize = self.stack.len();
        if n < 2 {
            return Err(Fault::Underflow { op: SETITEM });
        }
        let v = self.stack.pop();
        let k = self.stack.pop();
        match (k, v) {
            (Some(k), Some(v)) => {
                assert(self.state().stack =~= before.stack.take(n - 2));
                let items: Vec<(Obj, Obj)> = vec![(k, v)];
                assert(pair_values(items@) =~= seq![(before.stack[n - 2], before.stack[n - 1])]);
                self.enter(q, items)
            },
            _ => Err(Fault::Underflow { op: SETITEM }),
        }
    }

    /// Keys and values in turn into the dictionary below the mark.
    fn setitems(&mut self, q: usize) -> (r: Result<(), Fault>)
        ensures
            went(setitems(old(self).state(), q as int), final(self).state(), r),
    {
        let items = match self.pop_mark() {
            Ok(v) => v,
            Err(e) => return Err(e),
        };
        let n: usize = self.stack.len();
        let m: usize = items.len();
        let dict = n > 0 && is_dict(&self.stack[n - 1]);
        if dict && m % 2 != 0 {
            return Err(Fault::OddItems);
        }
        let mut pairs: Vec<(Obj, Obj)> = Vec::with_capacity(m / 2);
        for i in 0..m / 2
            invariant
                m == items@.len(),
                pairs@.len() == i,
                forall|k: int|
                    0 <= k < i ==> (#[trigger] pairs@[k]).0.value() == items@[2 * k].value()
                        && pairs@[k].1.value() == items@[2 * k + 1].value(),
        {
            pairs.push((items[2 * i].copied(), items[2 * i + 1].copied()));
        }
        assert(pair_values(pairs@) =~= paired(values(items@)));
        self.enter(q, pairs)
    }

    /// The topmost value as a persistent id.
    fn persid(&mut self, q: usize) -> (r: Result<(), Fault>)
        ensures
            went(persid(old(self).state(), q as int), final(self).state(), r),
    {
        let ghost before = self.state();
        match self.stack.pop() {
            None => Err(Fault::Underflow { op: BINPERSID }),
            Some(o) => {
                assert(self.state().stack =~= before.stack.drop_last());
                self.push(q, Obj::PersId(Box::new(o)))
            },
        }
    }

    /// The two topmost values, called.
    fn call(&mut self, q: usize, how: Call, op: u8) -> (r: Result<(), Fault>)
        ensures
            went(call(old(self).state(), q as int, how, op), final(self).state(), r),
    {
        let ghost before = self.state();
        let n: usize = self.stack.len();
        if n < 2 {
            return Err(Fault::Underflow { op });
        }
        let args = self.stack.pop();
        let f = self.stack.pop();
        match (f, args) {
            (Some(f), Some(args)) => {
                assert(self.state().stack =~= before.stack.take(n - 2));
                let o = match how {
                    Call::Reduce => reduce(f, args),
                    Call::Create => Obj::Reduce(Box::new(f), Box::new(args)),
                    Call::Build => build(f, args),
                };
                self.push(q, o)
            },
            _ => Err(Fault::Underflow { op }),
        }
    }

    /// An opcode that reads an operand of a fixed width first.
    fn operand(&mut self, b: &[u8], op: u8, q: usize) -> (r: Result<(), Fault>)
        requires
            q <= b@.len(),
            has_operand(op),
        ensures
            went(step_operand(b@, old(self).state(), op, q as int), final(self).state(), r),
    {
        let size: usize = b.len();
        let width: usize = if op == FRAME || op == BINFLOAT {
            8
        } else if op == LONG_BINPUT || op == LONG_BINGET || op == BININT || op == BINUNICODE {
            4
        } else if op == BININT2 {
            2
        } else {
            1
        };
        if size - q < width {
            return Err(Fault::Truncated);
        }
        if op == PROTO || op == FRAME {
            self.p = q + width;
            Ok(())
        } else if op == BINPUT {
            self.put(q + 1, b[q] as u32, op)
        } else if op == LONG_BINPUT {
            self.put(q + 4, u32le(b, q), op)
        } else if op == BINGET {
            self.get(q + 1, b[q] as u32, op)
        } else if op == LONG_BINGET {
            self.get(q + 4, u32le(b, q), op)
        } else if op == BININT1 {
            self.push(q + 1, Obj::Int(b[q] as i64))
        } else if op == BININT2 {
            self.push(q + 2, Obj::Int(u16le(b, q) as i64))
        } else if op == BININT {
            self.push(q + 4, Obj::Int(as_i32(u32le(b, q))))
        } else if op == BINFLOAT {
            self.push(q + 8, Obj::Float(u64be(b, q)))
        } else if op == BINUNICODE {
            let n: u32 = u32le(b, q);
            if n as u64 > (size - q - 4) as u64 {
                return Err(Fault::Truncated);
            }
            self.text(b, q + 4, n as usize)
        } else {
            self.text(b, q + 1, b[q] as usize)
        }
    }

    /// An opcode that pushes one value.
    fn constant(&mut self, op: u8, q: usize) -> (r: Result<(), Fault>)
        requires
            constant(op) is Some,
        ensures
            went(push(old(self).state(), q as int, constant(op)->0), final(self).state(), r),
    {
        let o = if op == NONE {
            Obj::Nothing
        } else if op == NEWTRUE {
            Obj::Bool(true)
        } else if op == NEWFALSE {
            Obj::Bool(false)
        } else if op == MARK {
            Obj::Mark
        } else if op == EMPTY_TUPLE {
            Obj::Tuple(Vec::new())
        } else if op == EMPTY_LIST {
            Obj::List(Vec::new())
        } else {
            Obj::Dict(Vec::new())
        };
        proof {
            lemma_members(o);
            assert(values(Seq::<Obj>::empty()) =~= Seq::empty());
            assert(pair_values(Seq::<(Obj, Obj)>::empty()) =~= Seq::empty());
        }
        self.push(q, o)
    }

    /// One opcode that is not the last.
    fn step(&mut self, b: &[u8], op: u8, q: usize) -> (r: Result<(), Fault>)
        requires
            old(self).p < b@.len(),
            op == b@[old(self).p as int],
            q == old(self).p + 1,
            op != STOP,
        ensures
            went(step(b@, old(self).state()), final(self).state(), r),
    {
        if op == PROTO || op == FRAME || op == BINPUT || op == LONG_BINPUT || op == BINGET || op
            == LONG_BINGET || op == BININT1 || op == BININT2 || op == BININT || op == BINFLOAT
            || op == BINUNICODE || op == SHORT_BINUNICODE {
            self.operand(b, op, q)
        } else if op == NONE || op == NEWTRUE || op == NEWFALSE || op == MARK || op == EMPTY_TUPLE
            || op == EMPTY_LIST || op == EMPTY_DICT {
            self.constant(op, q)
        } else if op == GLOBAL {
            self.global(b, q)
        } else if op == STACK_GLOBAL {
            self.stack_global(q)
        } else if op == MEMOIZE {
            let k: u32 = self.next_key();
            self.put(q, k, op)
        } else if op == LONG1 {
            self.long1(b, q)
        } else if op == TUPLE1 {
            self.tuple(q, 1, op)
        } else if op == TUPLE2 {
            self.tuple(q, 2, op)
        } else if op == TUPLE3 {
            self.tuple(q, 3, op)
        } else if op == TUPLE {
            self.mark_tuple(q)
        } else if op == APPENDS {
            self.appends(q)
        } else if op == APPEND {
            self.append(q)
        } else if op == SETITEM {
            self.setitem(q)
        } else if op == SETITEMS {
            self.setitems(q)
        } else if op == BINPERSID {
            self.persid(q)
        } else if op == REDUCE {
            self.call(q, Call::Reduce, op)
        } else if op == NEWOBJ {
            self.call(q, Call::Create, op)
        } else if op == BUILD {
            self.call(q, Call::Build, op)
        } else {
            Err(Fault::Opcode { op })
        }
    }
}

/// Whether an object is a dictionary.
fn is_dict(o: &Obj) -> (r: bool)
    ensures
        r == (o.value() is Dict),
{
    match o {
        Obj::Dict(_) => true,
        _ => false,
    }
}

/// Run a pickle: what it leaves on top of the stack.
pub fn run_pickle(buf: &[u8]) -> (r: Result<Obj, Fault>)
    ensures
        r matches Ok(o) ==> pickled(buf@) == Ok::<Value, Fault>(o.value()),
        r matches Err(e) ==> pickled(buf@) == Err::<Value, Fault>(e),
{
    let size: usize = buf.len();
    let mut m = Machine { p: 0, stack: Vec::new(), memo: HashMap::new() };
    proof {
        lemma_same_state(
            m.state(),
            State { p: 0, stack: Seq::empty(), memo: Map::empty() },
        );
    }
    loop
        invariant
            size == buf@.len(),
            m.p <= size,
            run(buf@, m.state()) == pickled(buf@),
        decreases size - m.p,
    {
        if m.p >= size {
            return Err(Fault::Truncated);
        }
        let op: u8 = buf[m.p];
        if op == STOP {
            let ghost stack = m.state().stack;
            return match m.stack.pop() {
                Some(o) => {
                    assert(stack.last() == o.value());
                    Ok(o)
                },
                None => Err(Fault::Underflow { op: STOP }),
            };
        }
        let q: usize = m.p + 1;
        let ghost before = m.state();
        proof {
            steps_move_forward(buf@, before);
        }
        match m.step(buf, op, q) {
            Ok(_) => {},
            Err(e) => return Err(e),
        }
    }
}

} // verus!
