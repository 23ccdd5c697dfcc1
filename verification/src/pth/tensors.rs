//! The tensors of a checkpoint.
use vstd::prelude::*;
use vstd::string::StringExecFns;
use crate::arith::{Brain, Half};
use crate::pth::fault::{Fault, Reason, Refusal};
use crate::pth::object::{Obj, Value, lemma_members, pair_values, values};
use crate::pth::pickle::{pickled, run_pickle, signed64};
use crate::pth::text::{is_named, without_last};
use crate::pth::zip::{
    Listed, Zip, archive, le16, le32, le64, stored, suffix_is_found, suffixed, u16le, u32le, u64le,
};
use crate::tensor::{count, elems, lemma_elems_nonneg};

verus! {

/// What a storage is made of.
#[derive(Clone, Copy, Debug, PartialEq, Eq, Structural)]
pub enum DType {
    F32,
    F64,
    F16,
    BF16,
    U8,
    I64,
}

impl DType {
    /// Bytes of one element.
    pub open spec fn size(self) -> int {
        match self {
            DType::F32 => 4,
            DType::F64 => 8,
            DType::F16 => 2,
            DType::BF16 => 2,
            DType::U8 => 1,
            DType::I64 => 8,
        }
    }

    /// Bytes of one element.
    pub fn size_in_bytes(&self) -> (r: usize)
        ensures
            r == self.size(),
    {
        match self {
            DType::F32 => 4,
            DType::F64 => 8,
            DType::F16 => 2,
            DType::BF16 => 2,
            DType::U8 => 1,
            DType::I64 => 8,
        }
    }
}

/// The elements of a tensor. Wide floating-point numbers are kept as their bits.
#[derive(Debug)]
pub enum Storage {
    F32(Vec<u32>),
    F64(Vec<u64>),
    F16(Vec<Half>),
    BF16(Vec<Brain>),
    U8(Vec<u8>),
    I64(Vec<i64>),
}

/// The storage holds the little-endian elements of `data`, as many as are whole.
pub open spec fn holds_elements(s: Storage, data: Seq<u8>, dt: DType) -> bool {
    match (s, dt) {
        (Storage::F32(v), DType::F32) => v@.len() == data.len() / 4 && forall|i: int|
            0 <= i < v@.len() ==> #[trigger] v@[i] == le32(data, 4 * i),
        (Storage::F64(v), DType::F64) => v@.len() == data.len() / 8 && forall|i: int|
            0 <= i < v@.len() ==> #[trigger] v@[i] == le64(data, 8 * i),
        (Storage::F16(v), DType::F16) => v@.len() == data.len() / 2 && forall|i: int|
            0 <= i < v@.len() ==> (#[trigger] v@[i]).bits == le16(data, 2 * i),
        (Storage::BF16(v), DType::BF16) => v@.len() == data.len() / 2 && forall|i: int|
            0 <= i < v@.len() ==> (#[trigger] v@[i]).bits == le16(data, 2 * i),
        (Storage::U8(v), DType::U8) => v@ == data,
        (Storage::I64(v), DType::I64) => v@.len() == data.len() / 8 && forall|i: int|
            0 <= i < v@.len() ==> #[trigger] v@[i] == signed64(le64(data, 8 * i)),
        _ => false,
    }
}

/// Read bytes as the elements of a storage.
pub fn bytes_to_storage(data: &[u8], dt: DType) -> (s: Storage)
    ensures
        holds_elements(s, data@, dt),
{
    let size: usize = data.len();
    match dt {
        DType::F32 => {
            let mut v: Vec<u32> = Vec::with_capacity(size / 4);
            for i in 0..size / 4
                invariant
                    size == data@.len(),
                    v@.len() == i,
                    forall|k: int| 0 <= k < i ==> #[trigger] v@[k] == le32(data@, 4 * k),
            {
                v.push(u32le(data, 4 * i));
            }
            Storage::F32(v)
        },
        DType::F64 => {
            let mut v: Vec<u64> = Vec::with_capacity(size / 8);
            for i in 0..size / 8
                invariant
                    size == data@.len(),
                    v@.len() == i,
                    forall|k: int| 0 <= k < i ==> #[trigger] v@[k] == le64(data@, 8 * k),
            {
                v.push(u64le(data, 8 * i));
            }
            Storage::F64(v)
        },
        DType::F16 => {
            let mut v: Vec<Half> = Vec::with_capacity(size / 2);
            for i in 0..size / 2
                invariant
                    size == data@.len(),
                    v@.len() == i,
                    forall|k: int| 0 <= k < i ==> (#[trigger] v@[k]).bits == le16(data@, 2 * k),
            {
                v.push(Half { bits: u16le(data, 2 * i) });
            }
            Storage::F16(v)
        },
        DType::BF16 => {
            let mut v: Vec<Brain> = Vec::with_capacity(size / 2);
            for i in 0..size / 2
                invariant
                    size == data@.len(),
                    v@.len() == i,
                    forall|k: int| 0 <= k < i ==> (#[trigger] v@[k]).bits == le16(data@, 2 * k),
            {
                v.push(Brain { bits: u16le(data, 2 * i) });
            }
            Storage::BF16(v)
        },
        DType::U8 => Storage::U8(crate::tensor::copy_run(data)),
        DType::I64 => {
            let mut v: Vec<i64> = Vec::with_capacity(size / 8);
            for i in 0..size / 8
                invariant
                    size == data@.len(),
                    v@.len() == i,
                    forall|k: int| 0 <= k < i ==> #[trigger] v@[k] == signed64(le64(data@, 8 * k)),
            {
                v.push(crate::pth::pickle::as_i64(u64le(data, 8 * i)));
            }
            Storage::I64(v)
        },
    }
}

// -- what the pickle says of a tensor --

/// Where a tensor's elements are, and how it is shaped. The offset counts elements: tensors saved
/// as views share one storage at different offsets.
pub struct Info {
    pub key: Seq<char>,
    pub dtype: DType,
    pub shape: Seq<usize>,
    pub offset: usize,
}

/// A class of `torch._utils`.
pub open spec fn torch_util(v: Value, name: Seq<char>) -> bool {
    v matches Value::Class(m, c) && m == "torch._utils"@ && c == name
}

/// A call without the wrapper of a parameter.
pub open spec fn unwrapped(v: Value) -> Option<(Value, Value)> {
    match v {
        Value::Reduce(f, a) => if torch_util(*f, "_rebuild_parameter"@) {
            match *a {
                Value::Tuple(t) => if t.len() > 0 {
                    match t[0] {
                        Value::Reduce(g, b) => Some((*g, *b)),
                        _ => None,
                    }
                } else {
                    None
                },
                _ => None,
            }
        } else {
            Some((*f, *a))
        },
        _ => None,
    }
}

/// What a storage class stores.
pub open spec fn class_dtype(c: Seq<char>) -> Option<DType> {
    if c == "FloatStorage"@ {
        Some(DType::F32)
    } else if c == "DoubleStorage"@ {
        Some(DType::F64)
    } else if c == "HalfStorage"@ {
        Some(DType::F16)
    } else if c == "BFloat16Storage"@ {
        Some(DType::BF16)
    } else if c == "ByteStorage"@ {
        Some(DType::U8)
    } else if c == "LongStorage"@ {
        Some(DType::I64)
    } else {
        None
    }
}

/// A tuple of integers.
pub open spec fn all_ints(t: Seq<Value>) -> bool {
    forall|i: int| 0 <= i < t.len() ==> (#[trigger] t[i]) is Int
}

pub open spec fn as_sizes(t: Seq<Value>) -> Seq<usize> {
    Seq::new(t.len(), |i: int| t[i]->Int_0 as usize)
}

/// The storage a persistent id names: `('storage', class, key, ..)`.
pub open spec fn storage_of(v: Value) -> Option<(DType, Seq<char>)> {
    match v {
        Value::PersId(p) => match *p {
            Value::Tuple(st) => if st.len() > 2 {
                match (st[1], st[2]) {
                    (Value::Class(_, c), Value::Str(key)) => match class_dtype(c) {
                        Some(dt) => Some((dt, key)),
                        None => None,
                    },
                    _ => None,
                }
            } else {
                None
            },
            _ => None,
        },
        _ => None,
    }
}

/// The tensor a call rebuilds, where it does: `_rebuild_tensor_v2(storage, offset, size, ..)`.
pub open spec fn info_of_call(f: Value, a: Value) -> Option<Info> {
    if !torch_util(f, "_rebuild_tensor_v2"@) {
        None
    } else {
        match a {
            Value::Tuple(t) => if t.len() > 2 {
                match (storage_of(t[0]), t[2]) {
                    (Some((dtype, key)), Value::Tuple(sizes)) => if all_ints(sizes) {
                        Some(
                            Info {
                                key,
                                dtype,
                                shape: as_sizes(sizes),
                                offset: match t[1] {
                                    Value::Int(i) => i as usize,
                                    _ => 0,
                                },
                            },
                        )
                    } else {
                        None
                    },
                    _ => None,
                }
            } else {
                None
            },
            _ => None,
        }
    }
}

/// The tensor a value rebuilds, where it is one.
pub open spec fn info_of(v: Value) -> Option<Info> {
    match unwrapped(v) {
        None => None,
        Some((f, a)) => info_of_call(f, a),
    }
}

/// Where a tensor's elements are, and how it is shaped.
pub struct TInfo {
    pub storage_key: String,
    pub dtype: DType,
    pub shape: Vec<usize>,
    pub offset: usize,
}

pub open spec fn info_is(t: TInfo, i: Info) -> bool {
    t.storage_key@ == i.key && t.dtype == i.dtype && t.shape@ == i.shape && t.offset == i.offset
}

/// Whether an object is a class of `torch._utils`.
fn is_torch_util(o: &Obj, name: &str) -> (r: bool)
    ensures
        r == torch_util(o.value(), name@),
{
    match o {
        Obj::Class(m, c) => is_named(m, "torch._utils") && is_named(c, name),
        _ => false,
    }
}

/// What a storage class stores.
fn dtype_of(c: &String) -> (r: Option<DType>)
    ensures
        r == class_dtype(c@),
{
    if is_named(c, "FloatStorage") {
        Some(DType::F32)
    } else if is_named(c, "DoubleStorage") {
        Some(DType::F64)
    } else if is_named(c, "HalfStorage") {
        Some(DType::F16)
    } else if is_named(c, "BFloat16Storage") {
        Some(DType::BF16)
    } else if is_named(c, "ByteStorage") {
        Some(DType::U8)
    } else if is_named(c, "LongStorage") {
        Some(DType::I64)
    } else {
        None
    }
}

/// An integer as a size, the way a cast takes it.
fn to_size(i: i64) -> (r: usize)
    ensures
        r == i as usize,
{
    #[verifier::truncate]
    (i as usize)
}

/// The sizes of a tuple of integers.
pub fn as_usize_vec(o: &Obj) -> (r: Option<Vec<usize>>)
    ensures
        r is Some <==> o.value() is Tuple && all_ints(o.value()->Tuple_0),
        r matches Some(v) ==> v@ == as_sizes(o.value()->Tuple_0),
{
    proof {
        lemma_members(*o);
    }
    match o {
        Obj::Tuple(t) => {
            let mut v: Vec<usize> = Vec::with_capacity(t.len());
            for i in 0..t.len()
                invariant
                    o.value() == Value::Tuple(values(t@)),
                    v@.len() == i,
                    forall|k: int|
                        0 <= k < i ==> (#[trigger] values(t@)[k]) is Int && v@[k]
                            == values(t@)[k]->Int_0 as usize,
            {
                assert(values(t@)[i as int] == t@[i as int].value());
                match &t[i] {
                    Obj::Int(n) => v.push(to_size(*n)),
                    _ => {
                        assert(!(values(t@)[i as int] is Int));
                        return None;
                    },
                }
            }
            assert(v@ =~= as_sizes(values(t@)));
            Some(v)
        },
        _ => None,
    }
}

/// The storage a persistent id names.
fn read_storage(o: &Obj) -> (r: Option<(DType, String)>)
    ensures
        r is Some <==> storage_of(o.value()) is Some,
        r matches Some(s) ==> storage_of(o.value()) == Some((s.0, s.1@)),
{
    match o {
        Obj::PersId(p) => {
            proof {
                lemma_members(**p);
            }
            match &**p {
                Obj::Tuple(st) => {
                    if st.len() <= 2 {
                        return None;
                    }
                    assert(values(st@)[1] == st@[1].value());
                    assert(values(st@)[2] == st@[2].value());
                    match (&st[1], &st[2]) {
                        (Obj::Class(_, c), Obj::Str(key)) => match dtype_of(c) {
                            Some(dt) => Some((dt, key.clone())),
                            None => None,
                        },
                        _ => None,
                    }
                },
                _ => None,
            }
        },
        _ => None,
    }
}

/// The arguments of a tensor's rebuild.
fn rebuild_info(f: &Obj, a: &Obj) -> (r: Option<TInfo>)
    ensures
        r is Some <==> info_of_call(f.value(), a.value()) is Some,
        r matches Some(t) ==> info_is(t, info_of_call(f.value(), a.value())->0),
{
    if !is_torch_util(f, "_rebuild_tensor_v2") {
        return None;
    }
    proof {
        lemma_members(*a);
    }
    match a {
        Obj::Tuple(t) => {
            if t.len() <= 2 {
                return None;
            }
            assert(values(t@)[0] == t@[0].value());
            assert(values(t@)[1] == t@[1].value());
            assert(values(t@)[2] == t@[2].value());
            let shape = match as_usize_vec(&t[2]) {
                Some(v) => v,
                None => return None,
            };
            let offset: usize = match &t[1] {
                Obj::Int(i) => to_size(*i),
                _ => 0,
            };
            match read_storage(&t[0]) {
                Some((dtype, storage_key)) => Some(TInfo { storage_key, dtype, shape, offset }),
                None => None,
            }
        },
        _ => None,
    }
}

/// The tensor an object rebuilds, where it is one.
pub fn tensor_info(value: &Obj) -> (r: Option<TInfo>)
    ensures
        r is Some <==> info_of(value.value()) is Some,
        r matches Some(t) ==> info_is(t, info_of(value.value())->0),
{
    match value {
        Obj::Reduce(f, a) => {
            if is_torch_util(&**f, "_rebuild_parameter") {
                proof {
                    lemma_members(**a);
                }
                match &**a {
                    Obj::Tuple(t) => {
                        if t.len() == 0 {
                            return None;
                        }
                        assert(values(t@)[0] == t@[0].value());
                        match &t[0] {
                            Obj::Reduce(g, b) => rebuild_info(&**g, &**b),
                            _ => None,
                        }
                    },
                    _ => None,
                }
            } else {
                rebuild_info(&**f, &**a)
            }
        },
        _ => None,
    }
}

// -- the state dictionary --

/// A key under which a checkpoint wraps its state dictionary.
pub open spec fn wraps(k: Value) -> bool {
    k matches Value::Str(s) && (s == "state_dict"@ || s == "model"@)
}

/// The first dictionary under a wrapping key, from pair `i` on.
pub open spec fn inner_dict(d: Seq<(Value, Value)>, i: int) -> Option<Seq<(Value, Value)>>
    decreases d.len() - i,
{
    if i < 0 || i >= d.len() {
        None
    } else if wraps(d[i].0) && d[i].1 is Dict {
        Some(d[i].1->Dict_0)
    } else {
        inner_dict(d, i + 1)
    }
}

/// The state dictionary of a checkpoint: the dictionary itself, or the one it wraps.
pub open spec fn state_dict(v: Value) -> Option<Seq<(Value, Value)>>
    decreases v,
{
    match v {
        Value::Dict(d) => if exists|i: int| 0 <= i < d.len() && wraps((#[trigger] d[i]).0) {
            inner_dict(d, 0)
        } else {
            Some(d)
        },
        Value::Build(o, _) => state_dict(*o),
        _ => None,
    }
}

/// Whether a key wraps a state dictionary.
fn is_wrapper(k: &Obj) -> (r: bool)
    ensures
        r == wraps(k.value()),
{
    match k {
        Obj::Str(s) => is_named(s, "state_dict") || is_named(s, "model"),
        _ => false,
    }
}

/// The pairs of a checkpoint's state dictionary.
pub fn unwrap_state_dict(obj: &Obj) -> (r: Option<&Vec<(Obj, Obj)>>)
    ensures
        r is Some <==> state_dict(obj.value()) is Some,
        r matches Some(d) ==> state_dict(obj.value()) == Some(pair_values(d@)),
    decreases *obj,
{
    proof {
        lemma_members(*obj);
    }
    match obj {
        Obj::Dict(d) => {
            let ghost pairs = pair_values(d@);
            let mut wrapped = false;
            for i in 0..d.len()
                invariant
                    pairs == pair_values(d@),
                    wrapped == exists|k: int| 0 <= k < i && wraps((#[trigger] pairs[k]).0),
            {
                assert(pairs[i as int].0 == d@[i as int].0.value());
                if is_wrapper(&d[i].0) {
                    wrapped = true;
                }
            }
            if !wrapped {
                return Some(d);
            }
            for i in 0..d.len()
                invariant
                    pairs == pair_values(d@),
                    obj.value() == Value::Dict(pairs),
                    exists|k: int| 0 <= k < pairs.len() && wraps((#[trigger] pairs[k]).0),
                    inner_dict(pairs, i as int) == inner_dict(pairs, 0),
            {
                assert(pairs[i as int] == (d@[i as int].0.value(), d@[i as int].1.value()));
                if is_wrapper(&d[i].0) {
                    proof {
                        lemma_members(d@[i as int].1);
                    }
                    match &d[i].1 {
                        Obj::Dict(inner) => {
                            assert(inner_dict(pairs, 0) == Some(pair_values(inner@)));
                            return Some(inner);
                        },
                        _ => {},
                    }
                }
            }
            None
        },
        Obj::Build(o, _) => unwrap_state_dict(&**o),
        _ => None,
    }
}

// -- the checkpoint --

/// A tensor as a checkpoint stores it: its type, its shape and its bytes.
pub struct Loaded {
    pub dtype: DType,
    pub shape: Seq<usize>,
    pub bytes: Seq<u8>,
}

/// The bytes of a tensor in its storage. The elements from the offset on are its own, row by row;
/// they have to be there.
pub open spec fn cut(raw: Seq<u8>, i: Info) -> Result<Loaded, Fault> {
    let (size, n) = (i.dtype.size(), elems(i.shape));
    if n == 0 {
        Ok(Loaded { dtype: i.dtype, shape: i.shape, bytes: Seq::empty() })
    } else if (i.offset + n) * size > raw.len() {
        Err(Fault::Shape)
    } else {
        Ok(
            Loaded {
                dtype: i.dtype,
                shape: i.shape,
                bytes: raw.subrange(i.offset * size, (i.offset + n) * size),
            },
        )
    }
}

/// The tensor that is described, out of the archive.
pub open spec fn fetched(b: Seq<u8>, l: Seq<Listed>, root: Seq<char>, i: Info) -> Result<
    Loaded,
    Reason,
> {
    match stored(b, l, root + "data/"@ + i.key) {
        Err(e) => Err(Reason::Content(e)),
        Ok(None) => Err(Reason::MissingStorage(i.key)),
        Ok(Some(raw)) => match cut(raw, i) {
            Err(e) => Err(Reason::Content(e)),
            Ok(t) => Ok(t),
        },
    }
}

/// The tensors among the first `n` pairs. What is not a tensor under a name is passed over, and a
/// later tensor of a name replaces an earlier one.
pub open spec fn loaded(
    b: Seq<u8>,
    l: Seq<Listed>,
    root: Seq<char>,
    d: Seq<(Value, Value)>,
    n: int,
) -> Result<Map<Seq<char>, Loaded>, Reason>
    decreases n,
{
    if n <= 0 {
        Ok(Map::empty())
    } else {
        match loaded(b, l, root, d, n - 1) {
            Err(e) => Err(e),
            Ok(m) => match (d[n - 1].0, info_of(d[n - 1].1)) {
                (Value::Str(name), Some(i)) => match fetched(b, l, root, i) {
                    Err(e) => Err(e),
                    Ok(t) => Ok(m.insert(name, t)),
                },
                _ => Ok(m),
            },
        }
    }
}

/// The tensors of a checkpoint.
pub open spec fn checkpoint(b: Seq<u8>) -> Result<Map<Seq<char>, Loaded>, Reason> {
    match archive(b) {
        Err(e) => Err(Reason::Content(e)),
        Ok(l) => match suffixed(l, "data.pkl"@, 0) {
            None => Err(Reason::Content(Fault::NoPickle)),
            Some(name) => match stored(b, l, name) {
                Err(e) => Err(Reason::Content(e)),
                Ok(None) => Err(Reason::Content(Fault::NoPickle)),
                Ok(Some(pkl)) => match pickled(pkl) {
                    Err(e) => Err(Reason::Content(e)),
                    Ok(v) => match state_dict(v) {
                        None => Err(Reason::Content(Fault::NoStateDict)),
                        Some(d) => loaded(
                            b,
                            l,
                            name.take(name.len() - "data.pkl"@.len()),
                            d,
                            d.len() as int,
                        ),
                    },
                },
            },
        },
    }
}

/// A tensor on the host.
#[derive(Debug)]
pub struct HostTensor {
    pub dtype: DType,
    pub shape: Vec<usize>,
    pub storage: Storage,
}

pub open spec fn tensor_is(t: HostTensor, l: Loaded) -> bool {
    t.dtype == l.dtype && t.shape@ == l.shape && holds_elements(t.storage, l.bytes, l.dtype)
}

/// The named tensors are those of the map, each name once.
pub open spec fn represents(v: Seq<(String, HostTensor)>, m: Map<Seq<char>, Loaded>) -> bool {
    &&& forall|i: int|
        0 <= i < v.len() ==> m.contains_key((#[trigger] v[i]).0@) && tensor_is(
            v[i].1,
            m[v[i].0@],
        )
    &&& forall|i: int, j: int|
        0 <= i < j < v.len() ==> (#[trigger] v[i]).0@ != (#[trigger] v[j]).0@
    &&& forall|k: Seq<char>| #[trigger] m.contains_key(k) ==> exists|i: int|
        0 <= i < v.len() && (#[trigger] v[i]).0@ == k
}

/// Put a tensor under its name.
fn insert(v: &mut Vec<(String, HostTensor)>, name: String, t: HostTensor, Ghost(m): Ghost<
    Map<Seq<char>, Loaded>,
>, Ghost(l): Ghost<Loaded>)
    requires
        represents(old(v)@, m),
        tensor_is(t, l),
    ensures
        represents(final(v)@, m.insert(name@, l)),
{
    let ghost was = v@;
    let n: usize = v.len();
    let mut at: usize = 0;
    while at < n && !(v[at].0 == name)
        invariant
            n == v@.len(),
            v@ == was,
            at <= n,
            forall|i: int| 0 <= i < at ==> (#[trigger] v@[i]).0@ != name@,
        decreases n - at,
    {
        at = at + 1;
    }
    let ghost now = m.insert(name@, l);
    if at < n {
        v[at] = (name, t);
        assert forall|k: Seq<char>| #[trigger] now.contains_key(k) implies exists|i: int|
            0 <= i < v@.len() && (#[trigger] v@[i]).0@ == k by {
            if k == name@ {
                assert(v@[at as int].0@ == k);
            } else {
                assert(m.contains_key(k));
                let i = choose|i: int| 0 <= i < was.len() && (#[trigger] was[i]).0@ == k;
                assert(v@[i].0@ == k);
            }
        }
        assert forall|i: int| 0 <= i < v@.len() implies now.contains_key((#[trigger] v@[i]).0@)
            && tensor_is(v@[i].1, now[v@[i].0@]) by {
            assert(m.contains_key(was[i].0@) && tensor_is(was[i].1, m[was[i].0@]));
            if i != at {
                if i < at {
                    assert(was[i].0@ != was[at as int].0@);
                } else {
                    assert(was[at as int].0@ != was[i].0@);
                }
            }
        }
        assert forall|i: int, j: int| 0 <= i < j < v@.len() implies (#[trigger] v@[i]).0@ != (
        #[trigger] v@[j]).0@ by {
            assert(was[i].0@ != was[j].0@);
        }
    } else {
        v.push((name, t));
        assert forall|k: Seq<char>| #[trigger] now.contains_key(k) implies exists|i: int|
            0 <= i < v@.len() && (#[trigger] v@[i]).0@ == k by {
            if k == name@ {
                assert(v@[n as int].0@ == k);
            } else {
                assert(m.contains_key(k));
                let i = choose|i: int| 0 <= i < was.len() && (#[trigger] was[i]).0@ == k;
                assert(v@[i].0@ == k);
            }
        }
        assert forall|i: int| 0 <= i < v@.len() implies now.contains_key((#[trigger] v@[i]).0@)
            && tensor_is(v@[i].1, now[v@[i].0@]) by {
            if i < n {
                assert(m.contains_key(was[i].0@) && tensor_is(was[i].1, m[was[i].0@]));
                assert(v@[i] == was[i]);
            }
        }
        assert forall|i: int, j: int| 0 <= i < j < v@.len() implies (#[trigger] v@[i]).0@ != (
        #[trigger] v@[j]).0@ by {
            assert(v@[i] == was[i]);
            if j < n {
                assert(was[i].0@ != was[j].0@);
            }
        }
    }
}

/// Cut a tensor out of its storage.
fn cut_out(raw: &[u8], ti: TInfo) -> (r: Result<HostTensor, Fault>)
    ensures
        forall|i: Info| #[trigger] info_is(ti, i) ==> match r {
            Ok(t) => cut(raw@, i) is Ok && tensor_is(t, cut(raw@, i)->Ok_0),
            Err(e) => cut(raw@, i) == Err::<Loaded, Fault>(e),
        },
{
    let size: usize = raw.len();
    let esz: usize = ti.dtype.size_in_bytes();
    proof {
        lemma_elems_nonneg(ti.shape@);
    }
    let n: usize = match count(&ti.shape) {
        Some(n) => n,
        None => {
            proof {
                let m = ti.offset + elems(ti.shape@);
                assert(m <= m * esz) by (nonlinear_arith)
                    requires
                        0 <= m,
                        1 <= esz,
                ;
            }
            return Err(Fault::Shape);
        },
    };
    if n == 0 {
        let none: [u8; 0] = [];
        let storage = bytes_to_storage(&none, ti.dtype);
        assert(none@ =~= Seq::<u8>::empty());
        return Ok(HostTensor { dtype: ti.dtype, shape: ti.shape, storage });
    }
    let ghost m = ti.offset + n;
    let last: usize = match ti.offset.checked_add(n) {
        Some(m) => m,
        None => {
            assert(m <= m * esz) by (nonlinear_arith)
                requires
                    0 <= m,
                    1 <= esz,
            ;
            return Err(Fault::Shape);
        },
    };
    let end: usize = match last.checked_mul(esz) {
        Some(e) => e,
        None => return Err(Fault::Shape),
    };
    if end > size {
        return Err(Fault::Shape);
    }
    proof {
        let o = ti.offset as int;
        assert(0 <= o * esz <= (o + n) * esz) by (nonlinear_arith)
            requires
                0 <= o,
                0 <= n,
                0 <= esz,
        ;
    }
    let start: usize = ti.offset * esz;
    let storage = bytes_to_storage(&raw[start..end], ti.dtype);
    Ok(HostTensor { dtype: ti.dtype, shape: ti.shape, storage })
}

/// A fault among the first pairs is one of them all.
proof fn lemma_fault_stays(
    b: Seq<u8>,
    l: Seq<Listed>,
    root: Seq<char>,
    d: Seq<(Value, Value)>,
    i: int,
    n: int,
)
    requires
        i <= n,
        loaded(b, l, root, d, i) is Err,
    ensures
        loaded(b, l, root, d, n) == loaded(b, l, root, d, i),
    decreases n - i,
{
    if i < n {
        lemma_fault_stays(b, l, root, d, i, n - 1);
    }
}

/// Read a torch checkpoint: its tensors by name.
///
/// Each tensor's `storage_offset` counts: tensors saved as views share one storage. From that
/// offset on the layout is contiguous.
pub fn read_pt(data: &[u8]) -> (r: Result<Vec<(String, HostTensor)>, Refusal>)
    ensures
        r matches Ok(v) ==> checkpoint(data@) is Ok && represents(v@, checkpoint(data@)->Ok_0),
        r matches Err(e) ==> checkpoint(data@) == Err::<Map<Seq<char>, Loaded>, Reason>(e@),
{
    let zip = match Zip::open(data) {
        Ok(z) => z,
        Err(e) => return Err(Refusal::Content(e)),
    };
    let ghost l = archive(data@)->Ok_0;
    let pkl_name = match zip.find_suffix("data.pkl") {
        Some(n) => n,
        None => return Err(Refusal::Content(Fault::NoPickle)),
    };
    proof {
        suffix_is_found(l, "data.pkl"@);
        reveal_strlit("data.pkl");
    }
    let root = without_last(&pkl_name, 8);
    let pkl = match zip.read(&pkl_name) {
        Ok(Some(b)) => b,
        Ok(None) => return Err(Refusal::Content(Fault::NoPickle)),
        Err(e) => return Err(Refusal::Content(e)),
    };
    let obj = match run_pickle(pkl) {
        Ok(o) => o,
        Err(e) => return Err(Refusal::Content(e)),
    };
    let dict = match unwrap_state_dict(&obj) {
        Some(d) => d,
        None => return Err(Refusal::Content(Fault::NoStateDict)),
    };
    let ghost d = pair_values(dict@);
    let mut out: Vec<(String, HostTensor)> = Vec::new();
    let ghost mut m: Map<Seq<char>, Loaded> = Map::empty();
    assert(checkpoint(data@) == loaded(data@, l, root@, d, d.len() as int));
    for i in 0..dict.len()
        invariant
            zip.wf(),
            zip.data@ == data@,
            archive(data@) == Ok::<Seq<Listed>, Fault>(l),
            d == pair_values(dict@),
            checkpoint(data@) == loaded(data@, l, root@, d, d.len() as int),
            loaded(data@, l, root@, d, i as int) == Ok::<Map<Seq<char>, Loaded>, Reason>(m),
            represents(out@, m),
    {
        assert(d[i as int] == (dict@[i as int].0.value(), dict@[i as int].1.value()));
        if let Obj::Str(name) = &dict[i].0 {
            if let Some(ti) = tensor_info(&dict[i].1) {
                let ghost info = info_of(d[i as int].1)->0;
                let mut path = root.clone();
                path.append("data/");
                path.append(ti.storage_key.as_str());
                assert(path@ =~= root@ + "data/"@ + info.key);
                proof {
                    if loaded(data@, l, root@, d, i + 1) is Err {
                        lemma_fault_stays(data@, l, root@, d, i + 1, d.len() as int);
                    }
                }
                let raw = match zip.read(&path) {
                    Ok(Some(b)) => b,
                    Ok(None) => return Err(Refusal::MissingStorage(ti.storage_key)),
                    Err(e) => return Err(Refusal::Content(e)),
                };
                let t = match cut_out(raw, ti) {
                    Ok(t) => t,
                    Err(e) => return Err(Refusal::Content(e)),
                };
                let ghost piece = cut(raw@, info)->Ok_0;
                insert(&mut out, name.clone(), t, Ghost(m), Ghost(piece));
                proof {
                    m = m.insert(name@, piece);
                }
            }
        }
    }
    Ok(out)
}

/// A tensor saved as a view takes the elements from its own offset on: those of a view of `n`
/// elements at offset `o` are elements `o .. o + n` of the whole storage.
pub proof fn views_share_their_storage(raw: Seq<u8>, whole: Info, view: Info, i: int)
    requires
        whole.dtype == view.dtype,
        whole.offset == 0,
        cut(raw, whole) is Ok,
        cut(raw, view) is Ok,
        0 <= i < elems(view.shape) * view.dtype.size(),
        view.offset + elems(view.shape) <= elems(whole.shape),
    ensures
        cut(raw, view)->Ok_0.bytes.len() == elems(view.shape) * view.dtype.size(),
        cut(raw, view)->Ok_0.bytes[i] == cut(raw, whole)->Ok_0.bytes[view.offset
            * view.dtype.size() + i],
{
    let (o, n, s) = (view.offset as int, elems(view.shape), view.dtype.size());
    let all = elems(whole.shape);
    lemma_elems_nonneg(view.shape);
    assert(n > 0) by (nonlinear_arith)
        requires
            0 <= n,
            0 < s,
            0 < n * s,
    ;
    assert((o + n) * s == o * s + n * s && 0 <= o * s && 0 * s == 0 && (o + n) * s <= all * s)
        by (nonlinear_arith)
        requires
            0 <= o,
            0 <= n,
            0 < s,
            o + n <= all,
    ;
}

} // verus!
