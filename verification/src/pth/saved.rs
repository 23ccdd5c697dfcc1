//! Archives and tensors, from the bytes they lie in.
use vstd::prelude::*;
use crate::pth::fault::Fault;
use crate::pth::object::Value;
use crate::pth::tensors::{DType, Info, Storage, cut, holds_elements, info_of, state_dict, wraps};
use crate::pth::text::utf8_lossy;
use crate::pth::written::stands;
use crate::pth::zip::{
    Listed, archive, directory, entries_from, entry_named, eocd_before, listed, scan_high, scan_low,
    stored,
};
use crate::tensor::elems;

verus! {

/// Two bytes, low byte first.
pub open spec fn word(b: Seq<u8>, at: int) -> int {
    b[at] + 256 * b[at + 1]
}

/// Four bytes, low byte first.
pub open spec fn long(b: Seq<u8>, at: int) -> int {
    b[at] + 256 * b[at + 1] + 65536 * b[at + 2] + 16777216 * b[at + 3]
}

/// A file of an archive: its name, its bytes, and where its own header and its entry in the
/// directory stand.
pub struct Member {
    pub name: Seq<u8>,
    pub data: Seq<u8>,
    pub at: int,
    pub entry: int,
}

/// Where the bytes of a file start: behind its header, its name there and what else stands there.
pub open spec fn data_at(b: Seq<u8>, m: Member) -> int {
    m.at + 30 + word(b, m.at + 26) + word(b, m.at + 28)
}

/// A file lies in the archive.
pub open spec fn member_lies(b: Seq<u8>, m: Member) -> bool {
    &&& 0 <= m.at < 0xffff_ffff
    &&& m.at + 30 <= b.len()
    &&& stands(b, data_at(b, m), m.data)
    &&& m.data.len() < 0xffff_ffff
    &&& 0 <= m.entry
    &&& m.entry + 46 <= b.len()
    &&& b[m.entry] == 0x50
    &&& b[m.entry + 1] == 0x4b
    &&& b[m.entry + 2] == 0x01
    &&& b[m.entry + 3] == 0x02
    &&& long(b, m.entry + 20) == m.data.len()
    &&& word(b, m.entry + 28) == m.name.len()
    &&& long(b, m.entry + 42) == m.at
    &&& stands(b, m.entry + 46, m.name)
}

/// Where the entry after a file's starts.
pub open spec fn next_entry(b: Seq<u8>, m: Member) -> int {
    m.entry + 46 + m.name.len() + word(b, m.entry + 30) + word(b, m.entry + 32)
}

/// The record that ends a directory starts at `i`.
pub open spec fn ends_at(b: Seq<u8>, i: int) -> bool {
    b[i] == 0x50 && b[i + 1] == 0x4b && b[i + 2] == 0x05 && b[i + 3] == 0x06
}

/// The files lie in the archive, their entries one after another, and the record at `e` says how
/// many there are and where the first is. Nothing behind it looks like another such record.
pub open spec fn archived(b: Seq<u8>, ms: Seq<Member>, e: int) -> bool {
    &&& 0 < ms.len() < 0xffff
    &&& forall|k: int| 0 <= k < ms.len() ==> member_lies(b, #[trigger] ms[k])
    &&& forall|k: int|
        0 <= k < ms.len() - 1 ==> ms[k + 1].entry == #[trigger] next_entry(b, ms[k])
    &&& 0 <= e
    &&& e + 22 <= b.len() <= e + 22 + 65535
    &&& ends_at(b, e)
    &&& word(b, e + 10) == ms.len()
    &&& long(b, e + 16) == ms[0].entry
    &&& ms[0].entry < 0xffff_ffff
    &&& forall|i: int| e < i <= b.len() - 22 ==> !#[trigger] ends_at(b, i)
}

proof fn lemma_four(a: u8, b: u8, c: u8, d: u8, x: int, y: int, z: int, w: int)
    requires
        0 <= x < 256,
        0 <= y < 256,
        0 <= z < 256,
        0 <= w < 256,
    ensures
        (a + 256 * b + 65536 * (c + 256 * d) == x + 256 * y + 65536 * (z + 256 * w)) <==> (a == x
            && b == y && c == z && d == w),
{
}

proof fn lemma_end_found(b: Seq<u8>, e: int, i: int)
    requires
        0 <= e < i <= scan_high(b.len() as int) + 1,
        e + 22 <= b.len() <= e + 22 + 65535,
        ends_at(b, e),
        forall|j: int| e < j <= b.len() - 22 ==> !#[trigger] ends_at(b, j),
    ensures
        eocd_before(b, i) == Some(e),
    decreases i - e,
{
    let j = i - 1;
    lemma_four(b[j], b[j + 1], b[j + 2], b[j + 3], 0x50, 0x4b, 0x05, 0x06);
    assert(scan_low(b.len() as int) <= e);
    if j > e {
        assert(!ends_at(b, j));
        lemma_end_found(b, e, j);
    }
}

proof fn lemma_entry(b: Seq<u8>, m: Member)
    requires
        member_lies(b, m),
        b.len() <= 0xffff_ffff_ffff,
    ensures
        listed(b, m.entry) == Ok::<(Listed, int), Fault>(
            (
                Listed {
                    name: utf8_lossy(m.name),
                    offset: data_at(b, m),
                    size: m.data.len() as int,
                },
                next_entry(b, m),
            ),
        ),
{
    let p = m.entry;
    lemma_four(b[p], b[p + 1], b[p + 2], b[p + 3], 0x50, 0x4b, 0x01, 0x02);
    let name = b.subrange(p + 46, p + 46 + m.name.len());
    assert forall|i: int| 0 <= i < m.name.len() implies #[trigger] name[i] == m.name[i] by {
        assert(b[p + 46 + i] == m.name[i]);
    }
    assert(name =~= m.name);
}

proof fn lemma_entries(b: Seq<u8>, ms: Seq<Member>, e: int, k: int)
    requires
        archived(b, ms, e),
        b.len() <= 0xffff_ffff_ffff,
        0 <= k < ms.len(),
    ensures
        entries_from(b, ms[k].entry, ms.len() - k) is Ok,
        ({
            let l = entries_from(b, ms[k].entry, ms.len() - k)->Ok_0;
            &&& l.len() == ms.len() - k
            &&& forall|i: int|
                0 <= i < l.len() ==> #[trigger] l[i] == (Listed {
                    name: utf8_lossy(ms[k + i].name),
                    offset: data_at(b, ms[k + i]),
                    size: ms[k + i].data.len() as int,
                })
        }),
    decreases ms.len() - k,
{
    assert(member_lies(b, ms[k]));
    lemma_entry(b, ms[k]);
    let first = Listed {
        name: utf8_lossy(ms[k].name),
        offset: data_at(b, ms[k]),
        size: ms[k].data.len() as int,
    };
    let next = next_entry(b, ms[k]);
    let rest = entries_from(b, next, ms.len() - k - 1);
    if k + 1 < ms.len() {
        assert(ms[k + 1].entry == next);
        lemma_entries(b, ms, e, k + 1);
    } else {
        assert(rest == Ok::<Seq<Listed>, Fault>(Seq::empty()));
    }
    let l = seq![first] + rest->Ok_0;
    assert(entries_from(b, ms[k].entry, ms.len() - k) == Ok::<Seq<Listed>, Fault>(l));
    assert forall|i: int| 0 <= i < l.len() implies #[trigger] l[i] == (Listed {
        name: utf8_lossy(ms[k + i].name),
        offset: data_at(b, ms[k + i]),
        size: ms[k + i].data.len() as int,
    }) by {
        if i > 0 {
            assert(l[i] == rest->Ok_0[i - 1]);
            assert(k + 1 + (i - 1) == k + i);
        }
    }
}

proof fn lemma_named(l: Seq<Listed>, name: Seq<char>, k: int, n: int)
    requires
        0 <= k < n <= l.len(),
        l[k].name == name,
        forall|j: int| k < j < n ==> (#[trigger] l[j]).name != name,
    ensures
        entry_named(l, name, n) == Some(l[k]),
    decreases n,
{
    if n - 1 > k {
        assert(l[n - 1].name != name);
        lemma_named(l, name, k, n - 1);
    }
}

/// A file that lies in an archive is read back whole under its name, where no later file takes the
/// name over.
pub proof fn archived_files_read_back(b: Seq<u8>, ms: Seq<Member>, e: int, k: int)
    requires
        archived(b, ms, e),
        b.len() <= 0xffff_ffff_ffff,
        0 <= k < ms.len(),
        forall|j: int|
            k < j < ms.len() ==> utf8_lossy((#[trigger] ms[j]).name) != utf8_lossy(ms[k].name),
    ensures
        archive(b) is Ok,
        archive(b)->Ok_0.len() == ms.len(),
        stored(b, archive(b)->Ok_0, utf8_lossy(ms[k].name)) == Ok::<Option<Seq<u8>>, Fault>(
            Some(ms[k].data),
        ),
{
    lemma_end_found(b, e, scan_high(b.len() as int) + 1);
    assert(directory(b) == Ok::<(int, int), Fault>((ms.len() as int, ms[0].entry)));
    lemma_entries(b, ms, e, 0);
    let l = archive(b)->Ok_0;
    assert forall|j: int| k < j < l.len() implies (#[trigger] l[j]).name != l[k].name by {
        assert(utf8_lossy(ms[0 + j].name) != utf8_lossy(ms[k].name));
        assert(l[j].name == utf8_lossy(ms[0 + j].name));
        assert(l[k].name == utf8_lossy(ms[0 + k].name));
    }
    assert(l[k].name == utf8_lossy(ms[0 + k].name));
    lemma_named(l, l[k].name, k, l.len() as int);
    assert(member_lies(b, ms[k]));
    crate::pth::written::lemma_piece(b, data_at(b, ms[k]), ms[k].data);
}

// -- tensors --

/// The call that rebuilds a tensor from the storage it names.
pub open spec fn rebuild(module: Seq<char>, class: Seq<char>, key: Seq<char>, offset: i64, sizes: Seq<
    Value,
>, more: Seq<Value>, id: Value, extra: Seq<Value>) -> Value {
    Value::Reduce(
        Box::new(Value::Class("torch._utils"@, "_rebuild_tensor_v2"@)),
        Box::new(
            Value::Tuple(
                seq![
                    Value::PersId(
                        Box::new(
                            Value::Tuple(
                                seq![id, Value::Class(module, class), Value::Str(key)] + extra,
                            ),
                        ),
                    ),
                    Value::Int(offset),
                    Value::Tuple(sizes),
                ] + more,
            ),
        ),
    )
}

/// The element type a storage class stands for.
pub open spec fn elements_of(class: Seq<char>, t: DType) -> bool {
    match t {
        DType::F32 => class == "FloatStorage"@,
        DType::F64 => class == "DoubleStorage"@,
        DType::F16 => class == "HalfStorage"@,
        DType::BF16 => class == "BFloat16Storage"@,
        DType::U8 => class == "ByteStorage"@,
        DType::I64 => class == "LongStorage"@,
    }
}

/// A rebuilt tensor has the type of its storage, the storage's key, the sizes in order and the
/// offset; the wrapper of a parameter changes none of it.
pub proof fn rebuilt_tensors_are_described(
    module: Seq<char>,
    class: Seq<char>,
    key: Seq<char>,
    offset: i64,
    sizes: Seq<Value>,
    more: Seq<Value>,
    id: Value,
    extra: Seq<Value>,
    t: DType,
    around: Seq<Value>,
)
    requires
        elements_of(class, t),
        forall|i: int| 0 <= i < sizes.len() ==> (#[trigger] sizes[i]) is Int,
    ensures
        ({
            let v = rebuild(module, class, key, offset, sizes, more, id, extra);
            let p = Value::Reduce(
                Box::new(Value::Class("torch._utils"@, "_rebuild_parameter"@)),
                Box::new(Value::Tuple(seq![v] + around)),
            );
            let info = Info {
                key,
                dtype: t,
                shape: Seq::new(sizes.len(), |i: int| sizes[i]->Int_0 as usize),
                offset: offset as usize,
            };
            info_of(v) == Some(info) && info_of(p) == Some(info)
        }),
{
    reveal_strlit("_rebuild_tensor_v2");
    reveal_strlit("_rebuild_parameter");
    reveal_strlit("FloatStorage");
    reveal_strlit("DoubleStorage");
    reveal_strlit("HalfStorage");
    reveal_strlit("BFloat16Storage");
    reveal_strlit("ByteStorage");
    reveal_strlit("LongStorage");
    assert("_rebuild_tensor_v2"@[9] == 't' && "_rebuild_parameter"@[9] == 'p');
    assert("FloatStorage"@.len() == 12 && "DoubleStorage"@.len() == 13 && "HalfStorage"@.len() == 11
        && "BFloat16Storage"@.len() == 15 && "ByteStorage"@.len() == 11 && "LongStorage"@.len()
        == 11);
    assert("HalfStorage"@[0] == 'H' && "ByteStorage"@[0] == 'B' && "LongStorage"@[0] == 'L');
    let v = rebuild(module, class, key, offset, sizes, more, id, extra);
    let st = seq![id, Value::Class(module, class), Value::Str(key)] + extra;
    assert(st[1] == Value::Class(module, class) && st[2] == Value::Str(key));
    let args = seq![
        Value::PersId(Box::new(Value::Tuple(st))),
        Value::Int(offset),
        Value::Tuple(sizes),
    ] + more;
    assert(args[0] == Value::PersId(Box::new(Value::Tuple(st))));
    assert(args[1] == Value::Int(offset) && args[2] == Value::Tuple(sizes));
    assert((seq![v] + around)[0] == v);
    assert(crate::pth::tensors::as_sizes(sizes) =~= Seq::new(
        sizes.len(),
        |i: int| sizes[i]->Int_0 as usize,
    ));
}

/// A tensor's bytes are its elements' bytes from its offset on, and it is refused only where the
/// storage does not reach that far.
pub proof fn tensors_take_their_own_elements(raw: Seq<u8>, i: Info, size: int)
    requires
        size == match i.dtype {
            DType::F32 => 4int,
            DType::F64 => 8int,
            DType::F16 => 2int,
            DType::BF16 => 2int,
            DType::U8 => 1int,
            DType::I64 => 8int,
        },
        elems(i.shape) > 0,
    ensures
        cut(raw, i) is Ok <==> (i.offset + elems(i.shape)) * size <= raw.len(),
        cut(raw, i) matches Ok(t) ==> t.dtype == i.dtype && t.shape == i.shape && t.bytes.len()
            == elems(i.shape) * size && forall|j: int|
            0 <= j < t.bytes.len() ==> #[trigger] t.bytes[j] == raw[i.offset * size + j],
{
    let (o, n) = (i.offset as int, elems(i.shape));
    assert((o + n) * size == o * size + n * size && 0 <= o * size && 0 <= n * size)
        by (nonlinear_arith)
        requires
            0 <= o,
            0 < n,
            0 < size,
    ;
}

/// The elements of a storage, byte by byte: every element the bytes hold, low byte first.
pub proof fn elements_are_their_bytes(s: Storage, data: Seq<u8>, t: DType)
    requires
        holds_elements(s, data, t),
    ensures
        t is F32 ==> s is F32 && s->F32_0@.len() == data.len() / 4 && forall|i: int|
            0 <= i < s->F32_0@.len() ==> #[trigger] s->F32_0@[i] == long(data, 4 * i),
        t is F64 ==> s is F64 && s->F64_0@.len() == data.len() / 8 && forall|i: int|
            0 <= i < s->F64_0@.len() ==> #[trigger] s->F64_0@[i] == long(data, 8 * i)
                + 4294967296 * long(data, 8 * i + 4),
        t is F16 ==> s is F16 && s->F16_0@.len() == data.len() / 2 && forall|i: int|
            0 <= i < s->F16_0@.len() ==> (#[trigger] s->F16_0@[i]).bits == word(data, 2 * i),
        t is BF16 ==> s is BF16 && s->BF16_0@.len() == data.len() / 2 && forall|i: int|
            0 <= i < s->BF16_0@.len() ==> (#[trigger] s->BF16_0@[i]).bits == word(data, 2 * i),
        t is U8 ==> s is U8 && s->U8_0@ == data,
        t is I64 ==> s is I64 && s->I64_0@.len() == data.len() / 8 && forall|i: int|
            0 <= i < s->I64_0@.len() ==> (#[trigger] s->I64_0@[i] - (long(data, 8 * i) + 4294967296
                * long(data, 8 * i + 4))) % 18446744073709551616 == 0,
{
}

/// A dictionary under none of the wrapping names is the state dictionary itself; under one of them,
/// the first dictionary that stands there is.
pub proof fn state_dictionaries_are_unwrapped(d: Seq<(Value, Value)>, k: int)
    ensures
        (forall|i: int|
            0 <= i < d.len() ==> (#[trigger] d[i]).0 != Value::Str("state_dict"@) && d[i].0
                != Value::Str("model"@)) ==> state_dict(Value::Dict(d)) == Some(d),
        0 <= k < d.len() && (d[k].0 == Value::Str("state_dict"@) || d[k].0 == Value::Str(
            "model"@,
        )) && d[k].1 is Dict && (forall|i: int|
            0 <= i < k ==> (#[trigger] d[i]).0 != Value::Str("state_dict"@) && d[i].0 != Value::Str(
                "model"@,
            )) ==> state_dict(Value::Dict(d)) == Some(d[k].1->Dict_0),
{
    if 0 <= k < d.len() && (d[k].0 == Value::Str("state_dict"@) || d[k].0 == Value::Str("model"@))
        && d[k].1 is Dict && (forall|i: int|
        0 <= i < k ==> (#[trigger] d[i]).0 != Value::Str("state_dict"@) && d[i].0 != Value::Str(
            "model"@,
        )) {
        assert(wraps(d[k].0));
        lemma_inner(d, k, 0);
    }
}

proof fn lemma_inner(d: Seq<(Value, Value)>, k: int, i: int)
    requires
        0 <= i <= k < d.len(),
        wraps(d[k].0),
        d[k].1 is Dict,
        forall|j: int| 0 <= j < k ==> !wraps((#[trigger] d[j]).0),
    ensures
        crate::pth::tensors::inner_dict(d, i) == Some(d[k].1->Dict_0),
    decreases k - i,
{
    if i < k {
        assert(!wraps(d[i].0));
        lemma_inner(d, k, i + 1);
    }
}

} // verus!
