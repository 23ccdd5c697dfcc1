//! A reader for archives of stored entries.
use vstd::prelude::*;
use crate::pth::fault::Fault;
use crate::pth::text::{ends_in, has_suffix, lossy, utf8_lossy};

verus! {

// -- little-endian numbers --

pub open spec fn le16(b: Seq<u8>, o: int) -> int {
    b[o] + 256 * b[o + 1]
}

pub open spec fn le32(b: Seq<u8>, o: int) -> int {
    le16(b, o) + 65536 * le16(b, o + 2)
}

pub open spec fn le64(b: Seq<u8>, o: int) -> int {
    le32(b, o) + 4294967296 * le32(b, o + 4)
}

/// The 16-bit number at `o`.
pub fn u16le(b: &[u8], o: usize) -> (r: u16)
    requires
        o + 2 <= b@.len(),
    ensures
        r == le16(b@, o as int),
{
    b[o] as u16 + 256 * (b[o + 1] as u16)
}

/// The 32-bit number at `o`.
pub fn u32le(b: &[u8], o: usize) -> (r: u32)
    requires
        o + 4 <= b@.len(),
    ensures
        r == le32(b@, o as int),
{
    let size: usize = b.len();
    u16le(b, o) as u32 + 65536 * (u16le(b, o + 2) as u32)
}

/// The 64-bit number at `o`.
pub fn u64le(b: &[u8], o: usize) -> (r: u64)
    requires
        o + 8 <= b@.len(),
    ensures
        r == le64(b@, o as int),
{
    let size: usize = b.len();
    u32le(b, o) as u64 + 4294967296 * (u32le(b, o + 4) as u64)
}

// -- the directory --

/// Where the end-of-central-directory record may start: it is 22 bytes, and a comment of at most
/// 65535 may follow.
pub open spec fn scan_low(n: int) -> int {
    if n < 65557 {
        0
    } else {
        n - 65557
    }
}

pub open spec fn scan_high(n: int) -> int {
    if n < 22 {
        0
    } else {
        n - 22
    }
}

/// A record's signature stands at `i`.
pub open spec fn signed(b: Seq<u8>, i: int, sig: int) -> bool {
    i + 4 <= b.len() && le32(b, i) == sig
}

pub const EOCD: u32 = 0x06054b50;

pub const LOCATOR: u32 = 0x07064b50;

pub const EOCD64: u32 = 0x06064b50;

pub const ENTRY: u32 = 0x02014b50;

/// The last end-of-central-directory record before `i`, as far back as it may start.
pub open spec fn eocd_before(b: Seq<u8>, i: int) -> Option<int>
    decreases i - scan_low(b.len() as int),
{
    if i <= scan_low(b.len() as int) {
        None
    } else if signed(b, i - 1, EOCD as int) {
        Some(i - 1)
    } else {
        eocd_before(b, i - 1)
    }
}

/// How many entries the directory has, and where it starts. Fields too narrow for their values
/// are all ones; the 64-bit record then holds them.
pub open spec fn directory(b: Seq<u8>) -> Result<(int, int), Fault> {
    match eocd_before(b, scan_high(b.len() as int) + 1) {
        None => Err(Fault::NoDirectory),
        Some(e) => if e + 20 > b.len() {
            Err(Fault::Truncated)
        } else {
            let (count, off) = (le16(b, e + 10), le32(b, e + 16));
            if count != 0xffff && off != 0xffff_ffff {
                Ok((count, off))
            } else if e < 20 {
                Err(Fault::Truncated)
            } else if !signed(b, e - 20, LOCATOR as int) {
                Ok((count, off))
            } else {
                let z = le64(b, e - 12);
                if z + 4 > b.len() {
                    Err(Fault::Truncated)
                } else if !signed(b, z, EOCD64 as int) {
                    Ok((count, off))
                } else if z + 56 > b.len() {
                    Err(Fault::Truncated)
                } else {
                    Ok((le64(b, z + 32), le64(b, z + 48)))
                }
            }
        },
    }
}

/// A size and a local header's place, as far as the extra fields from `ep` to `end` widen them.
///
/// Field 1 holds the uncompressed size, the stored size and the place, each only where the
/// 32-bit field is all ones.
pub open spec fn widened(b: Seq<u8>, ep: int, end: int, skip: bool, size: int, lho: int) -> Result<
    (int, int),
    Fault,
>
    decreases
            (if ep < end {
                end - ep
            } else {
                0
            }),
{
    if ep + 4 > end {
        Ok((size, lho))
    } else if ep < 0 || ep + 4 > b.len() {
        Err(Fault::Truncated)
    } else if le16(b, ep) == 1 {
        let at = if skip {
            ep + 12
        } else {
            ep + 4
        };
        let sized = size == 0xffff_ffff;
        let then = if sized {
            at + 8
        } else {
            at
        };
        let placed = lho == 0xffff_ffff;
        if (sized && at + 8 > b.len()) || (placed && then + 8 > b.len()) {
            Err(Fault::Truncated)
        } else {
            widened(
                b,
                ep + 4 + le16(b, ep + 2),
                end,
                skip,
                if sized {
                    le64(b, at)
                } else {
                    size
                },
                if placed {
                    le64(b, then)
                } else {
                    lho
                },
            )
        }
    } else {
        widened(b, ep + 4 + le16(b, ep + 2), end, skip, size, lho)
    }
}

/// An entry, as the directory spells it.
pub struct Listed {
    pub name: Seq<char>,
    pub offset: int,
    pub size: int,
}

/// The entry at `p`, and where the next one starts.
pub open spec fn listed(b: Seq<u8>, p: int) -> Result<(Listed, int), Fault> {
    if p + 4 > b.len() {
        Err(Fault::Truncated)
    } else if !signed(b, p, ENTRY as int) {
        Err(Fault::BadDirectory)
    } else if p + 46 > b.len() {
        Err(Fault::Truncated)
    } else {
        let (name_len, extra, comment) = (le16(b, p + 28), le16(b, p + 30), le16(b, p + 32));
        let (size, lho) = (le32(b, p + 20), le32(b, p + 42));
        if p + 46 + name_len > b.len() {
            Err(Fault::Truncated)
        } else {
            let wide = if size == 0xffff_ffff || lho == 0xffff_ffff {
                widened(
                    b,
                    p + 46 + name_len,
                    p + 46 + name_len + extra,
                    le32(b, p + 24) == 0xffff_ffff,
                    size,
                    lho,
                )
            } else {
                Ok((size, lho))
            };
            match wide {
                Err(e) => Err(e),
                Ok((s, l)) => if l + 30 > b.len() || l + 30 + le16(b, l + 26) + le16(b, l + 28)
                    > u64::MAX {
                    Err(Fault::Truncated)
                } else {
                    Ok(
                        (
                            Listed {
                                name: utf8_lossy(b.subrange(p + 46, p + 46 + name_len)),
                                offset: l + 30 + le16(b, l + 26) + le16(b, l + 28),
                                size: s,
                            },
                            p + 46 + name_len + extra + comment,
                        ),
                    )
                },
            }
        }
    }
}

/// The `count` entries from `p` on.
pub open spec fn entries_from(b: Seq<u8>, p: int, count: int) -> Result<Seq<Listed>, Fault>
    decreases count,
{
    if count <= 0 {
        Ok(Seq::empty())
    } else {
        match listed(b, p) {
            Err(e) => Err(e),
            Ok((entry, next)) => match entries_from(b, next, count - 1) {
                Err(e) => Err(e),
                Ok(rest) => Ok(seq![entry] + rest),
            },
        }
    }
}

/// Every entry of an archive.
pub open spec fn archive(b: Seq<u8>) -> Result<Seq<Listed>, Fault> {
    match directory(b) {
        Err(e) => Err(e),
        Ok((count, off)) => entries_from(b, off, count),
    }
}

/// One entry: the place and size of its stored bytes.
pub struct ZipEntry {
    pub name: String,
    pub offset: u64,
    pub size: u64,
}

pub open spec fn entry_is(e: ZipEntry, l: Listed) -> bool {
    e.name@ == l.name && e.offset == l.offset && e.size == l.size
}

/// An archive and its directory.
pub struct Zip<'a> {
    pub data: &'a [u8],
    pub entries: Vec<ZipEntry>,
}

/// The entries in hand are the ones listed.
pub open spec fn holds(entries: Seq<ZipEntry>, l: Seq<Listed>) -> bool {
    entries.len() == l.len() && forall|i: int|
        0 <= i < l.len() ==> entry_is(#[trigger] entries[i], l[i])
}

/// The last of the first `n` entries of that name: a later entry replaces an earlier one.
pub open spec fn entry_named(l: Seq<Listed>, name: Seq<char>, n: int) -> Option<Listed>
    decreases n,
{
    if n <= 0 {
        None
    } else if l[n - 1].name == name {
        Some(l[n - 1])
    } else {
        entry_named(l, name, n - 1)
    }
}

/// The stored bytes of an entry.
pub open spec fn stored(b: Seq<u8>, l: Seq<Listed>, name: Seq<char>) -> Result<
    Option<Seq<u8>>,
    Fault,
> {
    match entry_named(l, name, l.len() as int) {
        None => Ok(None),
        Some(e) => if e.offset + e.size > b.len() {
            Err(Fault::Truncated)
        } else {
            Ok(Some(b.subrange(e.offset, e.offset + e.size)))
        },
    }
}

/// The first of the entries from `i` on whose name ends in `suffix`.
pub open spec fn suffixed(l: Seq<Listed>, suffix: Seq<char>, i: int) -> Option<Seq<char>>
    decreases l.len() - i,
{
    if i >= l.len() {
        None
    } else if ends_in(l[i].name, suffix) {
        Some(l[i].name)
    } else {
        suffixed(l, suffix, i + 1)
    }
}

/// Where the end-of-central-directory record starts.
fn find_eocd(b: &[u8]) -> (r: Option<usize>)
    ensures
        r is Some <==> eocd_before(b@, scan_high(b@.len() as int) + 1) is Some,
        r matches Some(e) ==> Some(e as int) == eocd_before(
            b@,
            scan_high(b@.len() as int) + 1,
        ),
{
    let n: usize = b.len();
    let low: usize = if n < 65557 {
        0
    } else {
        n - 65557
    };
    let mut i: usize = if n < 22 {
        1
    } else {
        n - 22 + 1
    };
    let ghost whole = eocd_before(b@, scan_high(b@.len() as int) + 1);
    while i > low
        invariant
            n == b@.len(),
            low == scan_low(n as int),
            i <= scan_high(n as int) + 1,
            whole == eocd_before(b@, i as int),
            whole == eocd_before(b@, scan_high(b@.len() as int) + 1),
        decreases i,
    {
        i = i - 1;
        if n >= 4 && i <= n - 4 && u32le(b, i) == EOCD {
            return Some(i);
        }
    }
    None
}

/// How many entries the directory has, and where it starts.
fn read_directory(b: &[u8]) -> (r: Result<(u64, u64), Fault>)
    ensures
        r is Ok <==> directory(b@) is Ok,
        r matches Ok(d) ==> directory(b@) == Ok::<(int, int), Fault>((d.0 as int, d.1 as int)),
        r matches Err(e) ==> directory(b@) == Err::<(int, int), Fault>(e),
{
    let n: usize = b.len();
    let e: usize = match find_eocd(b) {
        Some(e) => e,
        None => return Err(Fault::NoDirectory),
    };
    proof {
        lemma_eocd_inside(b@, scan_high(b@.len() as int) + 1);
    }
    if n - e < 20 {
        return Err(Fault::Truncated);
    }
    let count: u64 = u16le(b, e + 10) as u64;
    let off: u64 = u32le(b, e + 16) as u64;
    if count != 0xffff && off != 0xffff_ffff {
        return Ok((count, off));
    }
    if e < 20 {
        return Err(Fault::Truncated);
    }
    if u32le(b, e - 20) != LOCATOR {
        return Ok((count, off));
    }
    let z: u64 = u64le(b, e - 12);
    if z > n as u64 || n - (z as usize) < 4 {
        return Err(Fault::Truncated);
    }
    let z: usize = z as usize;
    if u32le(b, z) != EOCD64 {
        return Ok((count, off));
    }
    if n - z < 56 {
        return Err(Fault::Truncated);
    }
    Ok((u64le(b, z + 32), u64le(b, z + 48)))
}

/// A record that is found is there.
proof fn lemma_eocd_inside(b: Seq<u8>, i: int)
    requires
        eocd_before(b, i) is Some,
    ensures
        0 <= eocd_before(b, i)->0 < i,
        eocd_before(b, i)->0 + 4 <= b.len(),
    decreases i - scan_low(b.len() as int),
{
    if !signed(b, i - 1, EOCD as int) {
        lemma_eocd_inside(b, i - 1);
    }
}

/// A size and a place, widened by the extra fields.
fn widen_fields(b: &[u8], from: usize, extra: usize, skip: bool, size: u64, lho: u64) -> (r: Result<
    (u64, u64),
    Fault,
>)
    requires
        from <= b@.len(),
        extra <= 0xffff,
    ensures
        r matches Ok(w) ==> widened(
            b@,
            from as int,
            from + extra,
            skip,
            size as int,
            lho as int,
        ) == Ok::<(int, int), Fault>((w.0 as int, w.1 as int)),
        r matches Err(e) ==> widened(
            b@,
            from as int,
            from + extra,
            skip,
            size as int,
            lho as int,
        ) == Err::<(int, int), Fault>(e),
{
    let n: usize = b.len();
    let mut gone: usize = 0;
    let (mut s, mut l): (u64, u64) = (size, lho);
    let ghost whole = widened(
        b@,
        from as int,
        from + extra,
        skip,
        size as int,
        lho as int,
    );
    while gone < extra && extra - gone >= 4
        invariant
            n == b@.len(),
            from <= n,
            extra <= 0xffff,
            gone <= extra + 0xffff + 4,
            whole == widened(b@, from + gone, from + extra, skip, s as int, l as int),
            whole == widened(b@, from as int, from + extra, skip, size as int, lho as int),
        decreases extra + 0x20000 - gone,
    {
        if gone > n - from || n - from - gone < 4 {
            return Err(Fault::Truncated);
        }
        let ep: usize = from + gone;
        let id: u16 = u16le(b, ep);
        let sz: usize = u16le(b, ep + 2) as usize;
        if id == 1 {
            let left: usize = n - ep;
            let at: usize = if skip {
                12
            } else {
                4
            };
            let sized = s == 0xffff_ffff;
            let placed = l == 0xffff_ffff;
            let then: usize = if sized {
                at + 8
            } else {
                at
            };
            if (sized && left < at + 8) || (placed && left < then + 8) {
                return Err(Fault::Truncated);
            }
            if sized {
                s = u64le(b, ep + at);
            }
            if placed {
                l = u64le(b, ep + then);
            }
        }
        gone = gone + 4 + sz;
    }
    Ok((s, l))
}

/// The entry at `p`, and where the next one starts.
fn read_entry(b: &[u8], p: usize) -> (r: Result<(ZipEntry, usize), Fault>)
    ensures
        r matches Ok(e) ==> listed(b@, p as int) matches Ok(l) && entry_is(e.0, l.0) && (e.1 == l.1
            || e.1 == usize::MAX && l.1 >= usize::MAX),
        r matches Err(e) ==> listed(b@, p as int) == Err::<(Listed, int), Fault>(e),
{
    let n: usize = b.len();
    if p > n || n - p < 4 {
        return Err(Fault::Truncated);
    }
    if u32le(b, p) != ENTRY {
        return Err(Fault::BadDirectory);
    }
    if n - p < 46 {
        return Err(Fault::Truncated);
    }
    let name_len: usize = u16le(b, p + 28) as usize;
    let extra: usize = u16le(b, p + 30) as usize;
    let comment: usize = u16le(b, p + 32) as usize;
    let size: u64 = u32le(b, p + 20) as u64;
    let lho: u64 = u32le(b, p + 42) as u64;
    if n - p - 46 < name_len {
        return Err(Fault::Truncated);
    }
    let from: usize = p + 46 + name_len;
    let (size, lho): (u64, u64) = if size == 0xffff_ffff || lho == 0xffff_ffff {
        let skip = u32le(b, p + 24) == 0xffff_ffff;
        match widen_fields(b, from, extra, skip, size, lho) {
            Ok(w) => w,
            Err(e) => return Err(e),
        }
    } else {
        (size, lho)
    };
    if lho > n as u64 || n - (lho as usize) < 30 {
        return Err(Fault::Truncated);
    }
    let lh: usize = lho as usize;
    let name = lossy(&b[p + 46..from]);
    let local: u64 = 30 + u16le(b, lh + 26) as u64 + u16le(b, lh + 28) as u64;
    assert(b@.subrange(p + 46, from as int) =~= b@.subrange(p + 46, p + 46 + name_len));
    let offset: u64 = match lho.checked_add(local) {
        Some(o) => o,
        None => return Err(Fault::Truncated),
    };
    let next: usize = from.saturating_add(extra + comment);
    Ok((ZipEntry { name, offset, size }, next))
}

impl<'a> Zip<'a> {
    /// The entries in hand are those of the archive.
    pub open spec fn wf(self) -> bool {
        archive(self.data@) is Ok && holds(self.entries@, archive(self.data@)->Ok_0)
    }

    /// Read an archive's directory.
    pub fn open(data: &'a [u8]) -> (r: Result<Zip<'a>, Fault>)
        ensures
            r is Ok <==> archive(data@) is Ok,
            r matches Ok(z) ==> z.data@ == data@ && z.wf(),
            r matches Err(e) ==> archive(data@) == Err::<Seq<Listed>, Fault>(e),
    {
        let n: usize = data.len();
        let (count, off): (u64, u64) = match read_directory(data) {
            Ok(d) => d,
            Err(e) => return Err(e),
        };
        if count > 0 && off > n as u64 {
            assert(entries_from(data@, off as int, count as int) == Err::<Seq<Listed>, Fault>(
                Fault::Truncated,
            ));
            return Err(Fault::Truncated);
        }
        let mut entries: Vec<ZipEntry> = Vec::new();
        let mut left: u64 = count;
        let mut p: usize = if count > 0 {
            off as usize
        } else {
            0
        };
        let ghost whole = archive(data@);
        let ghost mut done: Seq<Listed> = Seq::empty();
        let ghost mut at: int = off as int;
        while left > 0
            invariant
                n == data@.len(),
                whole == archive(data@),
                holds(entries@, done),
                left > 0 ==> p == at || p == usize::MAX && at >= usize::MAX,
                match entries_from(data@, at, left as int) {
                    Ok(rest) => whole == Ok::<Seq<Listed>, Fault>(done + rest),
                    Err(e) => whole == Err::<Seq<Listed>, Fault>(e),
                },
            decreases left,
        {
            if p == usize::MAX {
                assert(at + 4 > data@.len());
                assert(listed(data@, at) == Err::<(Listed, int), Fault>(Fault::Truncated));
                return Err(Fault::Truncated);
            }
            let ghost rest = entries_from(data@, at, left as int);
            match read_entry(data, p) {
                Err(e) => return Err(e),
                Ok((entry, next)) => {
                    proof {
                        let l = listed(data@, at)->Ok_0;
                        let tail = entries_from(data@, l.1, left - 1);
                        if tail is Ok {
                            assert(rest == Ok::<Seq<Listed>, Fault>(seq![l.0] + tail->Ok_0));
                            assert(done + (seq![l.0] + tail->Ok_0) =~= done.push(l.0)
                                + tail->Ok_0);
                        }
                        done = done.push(l.0);
                        at = l.1;
                    }
                    entries.push(entry);
                    p = next;
                },
            }
            left = left - 1;
        }
        assert(done + Seq::<Listed>::empty() =~= done);
        Ok(Zip { data, entries })
    }

    /// The stored bytes of an entry.
    pub fn read(&self, name: &String) -> (r: Result<Option<&'a [u8]>, Fault>)
        requires
            self.wf(),
        ensures
            match r {
                Ok(None) => stored(self.data@, archive(self.data@)->Ok_0, name@) == Ok::<
                    Option<Seq<u8>>,
                    Fault,
                >(None),
                Ok(Some(b)) => stored(self.data@, archive(self.data@)->Ok_0, name@) == Ok::<
                    Option<Seq<u8>>,
                    Fault,
                >(Some(b@)),
                Err(e) => stored(self.data@, archive(self.data@)->Ok_0, name@) == Err::<
                    Option<Seq<u8>>,
                    Fault,
                >(e),
            },
    {
        let n: usize = self.data.len();
        let ghost l = archive(self.data@)->Ok_0;
        let mut i: usize = self.entries.len();
        while i > 0
            invariant
                n == self.data@.len(),
                self.wf(),
                l == archive(self.data@)->Ok_0,
                i <= self.entries@.len(),
                entry_named(l, name@, l.len() as int) == entry_named(l, name@, i as int),
            decreases i,
        {
            i = i - 1;
            let e = &self.entries[i];
            assert(entry_is(self.entries@[i as int], l[i as int]));
            if e.name == *name {
                if e.offset > n as u64 || e.size > (n - (e.offset as usize)) as u64 {
                    return Err(Fault::Truncated);
                }
                let (from, len): (usize, usize) = (e.offset as usize, e.size as usize);
                return Ok(Some(&self.data[from..from + len]));
            }
        }
        Ok(None)
    }

    /// A name that ends in `suffix`: the first in the directory's order.
    pub fn find_suffix(&self, suffix: &str) -> (r: Option<String>)
        requires
            self.wf(),
        ensures
            match r {
                Some(s) => suffixed(archive(self.data@)->Ok_0, suffix@, 0) == Some(s@),
                None => suffixed(archive(self.data@)->Ok_0, suffix@, 0) is None,
            },
    {
        let ghost l = archive(self.data@)->Ok_0;
        for i in 0..self.entries.len()
            invariant
                self.wf(),
                l == archive(self.data@)->Ok_0,
                suffixed(l, suffix@, 0) == suffixed(l, suffix@, i as int),
        {
            let e = &self.entries[i];
            assert(entry_is(self.entries@[i as int], l[i as int]));
            if has_suffix(&e.name, suffix) {
                return Some(e.name.clone());
            }
        }
        None
    }
}

/// A found name is that of an entry, ends as asked, and none is found only where none does.
pub proof fn suffix_is_found(l: Seq<Listed>, suffix: Seq<char>)
    ensures
        suffixed(l, suffix, 0) matches Some(s) ==> ends_in(s, suffix) && exists|i: int|
            0 <= i < l.len() && #[trigger] l[i].name == s,
        suffixed(l, suffix, 0) is None ==> forall|i: int|
            0 <= i < l.len() ==> !ends_in(#[trigger] l[i].name, suffix),
{
    lemma_suffix_from(l, suffix, 0);
}

proof fn lemma_suffix_from(l: Seq<Listed>, suffix: Seq<char>, k: int)
    requires
        0 <= k,
    ensures
        suffixed(l, suffix, k) matches Some(s) ==> ends_in(s, suffix) && exists|i: int|
            k <= i < l.len() && #[trigger] l[i].name == s,
        suffixed(l, suffix, k) is None ==> forall|i: int|
            k <= i < l.len() ==> !ends_in(#[trigger] l[i].name, suffix),
    decreases l.len() - k,
{
    if k < l.len() && !ends_in(l[k].name, suffix) {
        lemma_suffix_from(l, suffix, k + 1);
    }
}

} // verus!
