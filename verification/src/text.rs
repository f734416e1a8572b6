//! Conversions between strings and their wire encodings.
//!
//! UTF-8 is handled through vstd's `encode_utf8`/`decode_utf8` model; the
//! UTF-16 conversions of std are named by uninterpreted spec functions,
//! since spelling the whole encoding out here would state nothing checkable.

use vstd::prelude::*;
use vstd::utf8::{decode_utf8, valid_utf8};

verus! {

/// The UTF-16 code units that `str::encode_utf16` yields for these
/// characters.
pub uninterp spec fn utf16_units_of(s: Seq<char>) -> Seq<u16>;

/// What `String::from_utf16` makes of these code units: the decoded
/// characters, or `None` when the units are not valid UTF-16.
pub uninterp spec fn utf16_decode(units: Seq<u16>) -> Option<Seq<char>>;

/// Relies on `String::from_utf8`: it succeeds exactly on valid UTF-8 and
/// returns the string spelling the given bytes.
#[verifier::external_body]
pub fn string_from_utf8(bytes: Vec<u8>) -> (r: Option<String>)
    ensures
        r matches Some(s) ==> valid_utf8(bytes@) && s@ == decode_utf8(bytes@),
        r is None ==> !valid_utf8(bytes@),
{
    String::from_utf8(bytes).ok()
}

/// Relies on `str::encode_utf16`: the UTF-16 code units of a string are a
/// function of its characters alone, and an empty string yields no units.
#[verifier::external_body]
pub fn encode_utf16_units(s: &str) -> (r: Vec<u16>)
    ensures
        r@ == utf16_units_of(s@),
        s@.len() == 0 ==> r@.len() == 0,
{
    s.encode_utf16().collect()
}

/// Relies on `String::from_utf16`: whether code units are valid UTF-16,
/// and which characters they decode to, depend on the units alone.
#[verifier::external_body]
pub fn string_from_utf16(units: &[u16]) -> (r: Option<String>)
    ensures
        r matches Some(s) ==> utf16_decode(units@) == Some(s@),
        r is None ==> utf16_decode(units@) is None,
{
    String::from_utf16(units).ok()
}

/// Compares two string slices by their UTF-8 bytes; the encoding is
/// injective, so this decides equality of the character sequences.
pub fn str_eq(a: &str, b: &str) -> (r: bool)
    ensures
        r == (a@ == b@),
{
    let r = crate::bytes::bytes_eq(a.as_bytes(), b.as_bytes());
    proof {
        vstd::utf8::encode_utf8_decode_utf8(a@);
        vstd::utf8::encode_utf8_decode_utf8(b@);
    }
    r
}

/// Relies on `String::push`: it appends exactly the given character.
pub assume_specification[ String::push ](s: &mut String, c: char)
    ensures
        final(s)@ == old(s)@ + seq![c],
;

} // verus!
