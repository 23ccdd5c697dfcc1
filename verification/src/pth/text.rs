//! Names in a checkpoint: bytes read as text, and text compared.
use vstd::prelude::*;
use vstd::string::StrSliceExecFns;
use vstd::utf8::{decode_utf8, valid_utf8};

verus! {

/// What [`String::from_utf8_lossy`] reads of bytes.
pub uninterp spec fn utf8_lossy(bytes: Seq<u8>) -> Seq<char>;

/// Bytes as text, by [`String::from_utf8_lossy`]: valid UTF-8 is read as what it encodes. How
/// the rest is replaced is left to that function, which reads the same text of the same bytes.
#[verifier::external_body]
pub(crate) fn lossy(bytes: &[u8]) -> (s: String)
    ensures
        s@ == utf8_lossy(bytes@),
        valid_utf8(bytes@) ==> s@ == decode_utf8(bytes@),
{
    String::from_utf8_lossy(bytes).to_string()
}

/// Whether a name is this one.
pub fn is_named(s: &String, name: &str) -> (r: bool)
    ensures
        r == (s@ == name@),
{
    *s == name.to_owned()
}

/// `s` ends in `suffix`.
pub open spec fn ends_in(s: Seq<char>, suffix: Seq<char>) -> bool {
    s.len() >= suffix.len() && s.skip(s.len() - suffix.len()) == suffix
}

/// Whether `s` ends in `suffix`.
pub fn has_suffix(s: &String, suffix: &str) -> (r: bool)
    ensures
        r == ends_in(s@, suffix@),
{
    let (m, n): (usize, usize) = (s.as_str().unicode_len(), suffix.unicode_len());
    if m < n {
        return false;
    }
    let tail = s.as_str().substring_char(m - n, m).to_owned();
    assert(tail@ =~= s@.skip(s@.len() - suffix@.len()));
    is_named(&tail, suffix)
}

/// `s` without its last `n` characters.
pub fn without_last(s: &String, n: usize) -> (r: String)
    requires
        n <= s@.len(),
    ensures
        r@ == s@.take(s@.len() - n),
{
    let m: usize = s.as_str().unicode_len();
    let r = s.as_str().substring_char(0, m - n).to_owned();
    assert(r@ =~= s@.take(s@.len() - n));
    r
}

} // verus!
