//! Torch checkpoints.
use loken::pth::fault::{Fault, Refusal};
use loken::pth::object::Obj;
use loken::pth::pickle::run_pickle;
use loken::pth::tensors::{read_pt, DType, HostTensor, Storage};
use loken::pth::zip::Zip;

/// An archive of stored entries.
fn archive(entries: &[(&str, &[u8])]) -> Vec<u8> {
    let mut out: Vec<u8> = Vec::new();
    let mut directory: Vec<u8> = Vec::new();
    for (name, data) in entries {
        let at = out.len() as u32;
        out.extend_from_slice(&0x04034b50u32.to_le_bytes());
        out.extend_from_slice(&[0u8; 22]);
        out.extend_from_slice(&(name.len() as u16).to_le_bytes());
        out.extend_from_slice(&0u16.to_le_bytes());
        out.extend_from_slice(name.as_bytes());
        out.extend_from_slice(data);
        directory.extend_from_slice(&0x02014b50u32.to_le_bytes());
        directory.extend_from_slice(&[0u8; 16]);
        directory.extend_from_slice(&(data.len() as u32).to_le_bytes());
        directory.extend_from_slice(&(data.len() as u32).to_le_bytes());
        directory.extend_from_slice(&(name.len() as u16).to_le_bytes());
        directory.extend_from_slice(&[0u8; 12]);
        directory.extend_from_slice(&at.to_le_bytes());
        directory.extend_from_slice(name.as_bytes());
    }
    let at = out.len() as u32;
    out.extend_from_slice(&directory);
    out.extend_from_slice(&0x06054b50u32.to_le_bytes());
    out.extend_from_slice(&[0u8; 6]);
    out.extend_from_slice(&(entries.len() as u16).to_le_bytes());
    out.extend_from_slice(&(directory.len() as u32).to_le_bytes());
    out.extend_from_slice(&at.to_le_bytes());
    out.extend_from_slice(&0u16.to_le_bytes());
    out
}

fn text(p: &mut Vec<u8>, s: &str) {
    p.push(b'X');
    p.extend_from_slice(&(s.len() as u32).to_le_bytes());
    p.extend_from_slice(s.as_bytes());
}

fn global(p: &mut Vec<u8>, module: &str, class: &str) {
    p.push(b'c');
    p.extend_from_slice(module.as_bytes());
    p.push(b'\n');
    p.extend_from_slice(class.as_bytes());
    p.push(b'\n');
}

/// A name and the tensor under it.
fn tensor(p: &mut Vec<u8>, name: &str, class: &str, key: &str, offset: u8, shape: &[u8]) {
    text(p, name);
    global(p, "torch._utils", "_rebuild_tensor_v2");
    p.push(b'(');
    p.push(b'(');
    text(p, "storage");
    global(p, "torch", class);
    text(p, key);
    text(p, "cpu");
    p.extend_from_slice(&[b'K', 0]);
    p.push(b't');
    p.push(b'Q');
    p.extend_from_slice(&[b'K', offset]);
    p.push(b'(');
    for &d in shape {
        p.extend_from_slice(&[b'K', d]);
    }
    p.push(b't');
    p.push(b')');
    p.push(b't');
    p.push(b'R');
}

fn state_dict(body: &[u8]) -> Vec<u8> {
    let mut p = vec![0x80, 2];
    global(&mut p, "collections", "OrderedDict");
    p.extend_from_slice(b")R(");
    p.extend_from_slice(body);
    p.extend_from_slice(b"u.");
    p
}

fn named<'a>(v: &'a [(String, HostTensor)], name: &str) -> &'a HostTensor {
    &v.iter().find(|(n, _)| n == name).unwrap().1
}

#[test]
fn a_checkpoint_reads_back_its_tensors() {
    let mut body = Vec::new();
    tensor(&mut body, "w", "FloatStorage", "0", 0, &[2, 2]);
    tensor(&mut body, "view", "FloatStorage", "0", 1, &[2]);
    tensor(&mut body, "ids", "LongStorage", "1", 0, &[1]);
    tensor(&mut body, "h", "HalfStorage", "2", 0, &[2]);
    tensor(&mut body, "b", "BFloat16Storage", "2", 1, &[1]);
    tensor(&mut body, "raw", "ByteStorage", "2", 2, &[2]);
    tensor(&mut body, "wide", "DoubleStorage", "1", 0, &[1]);
    let values = [1.0f32, 2.0, 3.0, 4.0];
    let floats: Vec<u8> = values.iter().flat_map(|v| v.to_le_bytes()).collect();
    let data = archive(&[
        ("m/data.pkl", &state_dict(&body)),
        ("m/data/0", &floats),
        ("m/data/1", &(-5i64).to_le_bytes()),
        ("m/data/2", &[1, 2, 3, 4]),
    ]);
    let got = read_pt(&data).unwrap();
    assert_eq!(got.len(), 7);
    let w = named(&got, "w");
    assert_eq!((w.dtype, w.shape.clone()), (DType::F32, vec![2, 2]));
    let bits: Vec<u32> = values.iter().map(|v| v.to_bits()).collect();
    assert!(matches!(&w.storage, Storage::F32(v) if *v == bits));
    // A view takes its elements from its own offset on.
    let view = named(&got, "view");
    assert!(matches!(&view.storage, Storage::F32(v) if *v == bits[1..3]));
    assert!(matches!(&named(&got, "ids").storage, Storage::I64(v) if *v == vec![-5]));
    assert!(matches!(&named(&got, "h").storage,
        Storage::F16(v) if v[0].bits == 0x0201 && v[1].bits == 0x0403));
    assert!(matches!(&named(&got, "b").storage, Storage::BF16(v) if v[0].bits == 0x0403));
    assert!(matches!(&named(&got, "raw").storage, Storage::U8(v) if *v == vec![3, 4]));
    assert!(matches!(&named(&got, "wide").storage, Storage::F64(v) if v[0] == (-5i64) as u64));
}

#[test]
fn a_wrapped_state_dict_is_unwrapped_and_other_values_are_passed_over() {
    let mut inner = Vec::new();
    tensor(&mut inner, "w", "ByteStorage", "0", 0, &[1]);
    text(&mut inner, "note");
    text(&mut inner, "not a tensor");
    // A parameter wraps the tensor it holds.
    text(&mut inner, "p");
    global(&mut inner, "torch._utils", "_rebuild_parameter");
    inner.push(b'(');
    let mut t = Vec::new();
    tensor(&mut t, "", "ByteStorage", "0", 1, &[1]);
    inner.extend_from_slice(&t[5..]);
    inner.extend_from_slice(&[0x88, b't', b'R']);

    let mut p = vec![0x80, 2, b'}', b'('];
    text(&mut p, "epoch");
    p.extend_from_slice(&[b'K', 7]);
    text(&mut p, "model");
    p.extend_from_slice(b"}(");
    p.extend_from_slice(&inner);
    p.extend_from_slice(b"uu.");
    let data = archive(&[("data.pkl", &p), ("data/0", &[9, 8])]);
    let got = read_pt(&data).unwrap();
    assert_eq!(got.len(), 2);
    assert!(matches!(&named(&got, "w").storage, Storage::U8(v) if *v == vec![9]));
    assert!(matches!(&named(&got, "p").storage, Storage::U8(v) if *v == vec![8]));
}

#[test]
fn a_later_tensor_of_a_name_replaces_an_earlier_one() {
    let mut body = Vec::new();
    tensor(&mut body, "w", "ByteStorage", "0", 0, &[1]);
    tensor(&mut body, "w", "ByteStorage", "0", 1, &[1]);
    let data = archive(&[("data.pkl", &state_dict(&body)), ("data/0", &[1, 2])]);
    let got = read_pt(&data).unwrap();
    assert_eq!(got.len(), 1);
    assert!(matches!(&got[0].1.storage, Storage::U8(v) if *v == vec![2]));
}

#[test]
fn what_is_wrong_with_a_checkpoint_is_said() {
    let fault = |data: &[u8]| match read_pt(data) {
        Err(Refusal::Content(f)) => Some(f),
        _ => None,
    };
    assert_eq!(fault(&[]), Some(Fault::NoDirectory));
    assert_eq!(fault(&[0u8; 100]), Some(Fault::NoDirectory));
    assert_eq!(fault(&archive(&[("readme", b"hello")])), Some(Fault::NoPickle));
    assert_eq!(fault(&archive(&[("data.pkl", b"N.")])), Some(Fault::NoStateDict));
    let mut body = Vec::new();
    tensor(&mut body, "w", "ByteStorage", "0", 0, &[2]);
    let p = state_dict(&body);
    let missing = read_pt(&archive(&[("data.pkl", &p)])).err().unwrap();
    assert_eq!(missing, Refusal::MissingStorage("0".to_string()));
    assert_eq!(missing.message(), "pth: storage 0 missing");
    assert_eq!(
        fault(&archive(&[("data.pkl", &p), ("data/0", &[1])])),
        Some(Fault::Shape)
    );
    let mut bad = archive(&[("data.pkl", &p)]);
    let at = bad.windows(4).position(|w| w == [0x50, 0x4b, 0x01, 0x02]).unwrap();
    bad[at] = 0;
    assert_eq!(fault(&bad), Some(Fault::BadDirectory));
    let mut short = archive(&[("data.pkl", &p)]);
    let at = short.windows(4).position(|w| w == [0x50, 0x4b, 0x01, 0x02]).unwrap();
    short[at + 20] = 0xff;
    short[at + 21] = 0xff;
    assert_eq!(fault(&short), Some(Fault::Truncated));
}

#[test]
fn a_pickle_says_where_it_fails() {
    let fault = |p: &[u8]| run_pickle(p).err();
    assert_eq!(fault(b""), Some(Fault::Truncated));
    assert_eq!(fault(b"."), Some(Fault::Underflow { op: b'.' }));
    assert_eq!(fault(b"a."), Some(Fault::Underflow { op: b'a' }));
    assert_eq!(fault(&[0x93]), Some(Fault::Underflow { op: 0x93 }));
    assert_eq!(fault(&[b'N', b'N', 0x93]), Some(Fault::GlobalTypes));
    assert_eq!(fault(&[b'h', 3, b'.']), Some(Fault::Memo { op: b'h' }));
    assert_eq!(fault(b"t."), Some(Fault::NoMark));
    assert_eq!(fault(b"}(Nu."), Some(Fault::OddItems));
    assert_eq!(fault(&[0x8a, 9]), Some(Fault::LongInt));
    assert_eq!(fault(b"?"), Some(Fault::Opcode { op: b'?' }));
}

#[test]
fn a_pickle_reads_as_it_was_written() {
    // Integers of each width, a list and a memo.
    let p = [
        0x80, 4, 0x95, 0, 0, 0, 0, 0, 0, 0, 0, b']', 0x94, b'(', b'K', 7, b'M', 1, 2, b'J', 0xff,
        0xff, 0xff, 0xff, 0x8a, 2, 0, 1, 0x8a, 8, 0xfe, 0xff, 0xff, 0xff, 0xff, 0xff, 0xff, 0xff,
        b'e', b'h', 0, 0x86, b'.',
    ];
    let o = run_pickle(&p).unwrap();
    let items = match o {
        Obj::Tuple(v) => v,
        _ => panic!("a pair"),
    };
    assert_eq!(items.len(), 2);
    let list = match &items[0] {
        Obj::List(v) => v,
        _ => panic!("a list"),
    };
    let ints: Vec<i64> = list
        .iter()
        .map(|x| match x {
            Obj::Int(i) => *i,
            _ => panic!("an integer"),
        })
        .collect();
    assert_eq!(ints, vec![7, 513, -1, 256, -2]);
    // What was remembered is the list as it was then.
    assert!(matches!(&items[1], Obj::List(v) if v.is_empty()));
    // A floating-point number is kept as its bits, big end first.
    let mut p = vec![b'G'];
    p.extend_from_slice(&1.5f64.to_be_bytes());
    p.push(b'.');
    assert!(matches!(run_pickle(&p).unwrap(), Obj::Float(b) if b == 1.5f64.to_bits()));
    // Text that is not UTF-8 is read all the same.
    let o = run_pickle(&[0x8c, 2, 0x61, 0xff, b'.']).unwrap();
    assert!(matches!(o, Obj::Str(s) if s == "a\u{fffd}"));
}

#[test]
fn an_archive_finds_its_entries() {
    let data = archive(&[("a/one", b"1"), ("b/data.pkl", b"xy"), ("a/one", b"22")]);
    let zip = Zip::open(&data).unwrap();
    assert_eq!(zip.find_suffix("data.pkl"), Some("b/data.pkl".to_string()));
    assert_eq!(zip.find_suffix("nothing"), None);
    assert_eq!(zip.read(&"b/data.pkl".to_string()), Ok(Some(&b"xy"[..])));
    assert_eq!(zip.read(&"a/one".to_string()), Ok(Some(&b"22"[..])));
    assert_eq!(zip.read(&"a/two".to_string()), Ok(None));
}

#[test]
fn an_archive_of_wide_fields_is_read() {
    // Sizes and places moved to the extra field, counts to the 64-bit record.
    let mut out: Vec<u8> = Vec::new();
    let name = b"z/data.pkl";
    out.extend_from_slice(&0x04034b50u32.to_le_bytes());
    out.extend_from_slice(&[0u8; 22]);
    out.extend_from_slice(&(name.len() as u16).to_le_bytes());
    out.extend_from_slice(&4u16.to_le_bytes());
    out.extend_from_slice(name);
    out.extend_from_slice(&[0u8; 4]);
    out.extend_from_slice(b"N.");
    let directory = out.len() as u64;
    out.extend_from_slice(&0x02014b50u32.to_le_bytes());
    out.extend_from_slice(&[0u8; 16]);
    out.extend_from_slice(&0xffff_ffffu32.to_le_bytes());
    out.extend_from_slice(&0xffff_ffffu32.to_le_bytes());
    out.extend_from_slice(&(name.len() as u16).to_le_bytes());
    out.extend_from_slice(&28u16.to_le_bytes());
    out.extend_from_slice(&[0u8; 10]);
    out.extend_from_slice(&0xffff_ffffu32.to_le_bytes());
    out.extend_from_slice(name);
    out.extend_from_slice(&1u16.to_le_bytes());
    out.extend_from_slice(&24u16.to_le_bytes());
    out.extend_from_slice(&2u64.to_le_bytes());
    out.extend_from_slice(&2u64.to_le_bytes());
    out.extend_from_slice(&0u64.to_le_bytes());
    let record = out.len() as u64;
    out.extend_from_slice(&0x06064b50u32.to_le_bytes());
    out.extend_from_slice(&[0u8; 28]);
    out.extend_from_slice(&1u64.to_le_bytes());
    out.extend_from_slice(&[0u8; 8]);
    out.extend_from_slice(&directory.to_le_bytes());
    out.extend_from_slice(&0x07064b50u32.to_le_bytes());
    out.extend_from_slice(&[0u8; 4]);
    out.extend_from_slice(&record.to_le_bytes());
    out.extend_from_slice(&[0u8; 4]);
    out.extend_from_slice(&0x06054b50u32.to_le_bytes());
    out.extend_from_slice(&[0u8; 6]);
    out.extend_from_slice(&0xffffu16.to_le_bytes());
    out.extend_from_slice(&[0u8; 4]);
    out.extend_from_slice(&0xffff_ffffu32.to_le_bytes());
    out.extend_from_slice(&[0u8; 2]);
    let zip = Zip::open(&out).unwrap();
    assert_eq!(zip.read(&"z/data.pkl".to_string()), Ok(Some(&b"N."[..])));
    assert_eq!(read_pt(&out).err(), Some(Refusal::Content(Fault::NoStateDict)));
}

#[test]
fn faults_say_what_is_wrong() {
    assert_eq!(Fault::NoDirectory.message(), "pth: no ZIP EOCD");
    assert_eq!(Fault::BadDirectory.message(), "pth: bad central dir");
    assert_eq!(Fault::NoPickle.message(), "pth: no data.pkl");
    assert_eq!(Fault::NoStateDict.message(), "pth: no state_dict dict");
    assert_eq!(
        Refusal::MissingStorage("embed".to_string()).message(),
        "pth: storage embed missing"
    );
    assert_eq!(Refusal::Content(Fault::NoPickle).message(), "pth: no data.pkl");
    assert_eq!(Fault::NoMark.message(), "pth pickle: no mark");
    assert_eq!(Fault::GlobalTypes.message(), "pth pickle: stack_global types");
    assert_eq!(Fault::Opcode { op: 0x0b }.message(), "pth pickle: unsupported opcode 0x0b");
    assert_eq!(Fault::Opcode { op: 0xfe }.message(), "pth pickle: unsupported opcode 0xfe");
    assert_eq!(Fault::Underflow { op: 0x2e }.message(), "pth pickle: empty stack at STOP");
    assert_eq!(Fault::Underflow { op: 0x86 }.message(), "pth pickle: t2");
    assert_eq!(Fault::Memo { op: 0x6a }.message(), "pth pickle: lbinget");
    assert_eq!(Fault::Truncated.message(), "pth: truncated");
    assert_eq!(Fault::OddItems.message(), "pth pickle: odd setitems");
    assert_eq!(Fault::LongInt.message(), "pth pickle: long1 of more than eight bytes");
    assert_eq!(Fault::Shape.message(), "pth: a storage does not hold its shape");
}
