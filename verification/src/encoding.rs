//! UTF-16 text entries on the wire: a `FF FE` byte-order mark,
//! little-endian code units, and a zero terminator.

use vstd::prelude::*;
use vstd::bytes::spec_u16_to_le_bytes;
use crate::Error;
use crate::bytes::{le16_at, push_u16_le, read_u16_le};
use crate::pak::{first_zero_unit, lemma_first_zero_unit, lemma_units_from_bytes, units_from_bytes,
    units_le_bytes};
use crate::text::{encode_utf16_units, string_from_utf16, utf16_decode, utf16_units_of};

verus! {

/// What decoding a byte-order-marked, zero-terminated UTF-16 buffer
/// yields: the buffer must begin with `FF FE` and hold a zero code unit,
/// and the units before the zero must form valid UTF-16.
pub open spec fn spec_decode_utf16(data: Seq<u8>) -> Result<Seq<char>, Error> {
    if !(data.len() >= 2 && data[0] == 0xff && data[1] == 0xfe) {
        Err(Error::InvalidUtf16)
    } else {
        let us = units_from_bytes(data.skip(2));
        let k = first_zero_unit(us);
        if k < 0 {
            Err(Error::InvalidUtf16)
        } else {
            match utf16_decode(us.take(k)) {
                Some(s) => Ok(s),
                None => Err(Error::InvalidUtf16),
            }
        }
    }
}

/// What decoding a byte-order-marked UTF-16 buffer yields when the zero
/// terminator is optional: all units up to the first zero unit, or all
/// of them when none is zero; a trailing odd byte is ignored.
pub open spec fn spec_decode_utf16_le(data: Seq<u8>) -> Option<Seq<char>> {
    if !(data.len() >= 2 && data[0] == 0xff && data[1] == 0xfe) {
        None
    } else {
        let us = units_from_bytes(data.skip(2));
        let k = first_zero_unit(us);
        utf16_decode(
            if k < 0 {
                us
            } else {
                us.take(k)
            },
        )
    }
}

/// Reads the 16-bit little-endian code units of `data[2..]` up to the
/// first zero unit, or all of them.
fn scan_units(data: &[u8]) -> (r: (Vec<u16>, bool))
    requires
        data@.len() >= 2,
    ensures
        ({
            let us = units_from_bytes(data@.skip(2));
            let k = first_zero_unit(us);
            &&& r.1 == (k >= 0)
            &&& r.0@ == (if k < 0 {
                us
            } else {
                us.take(k)
            })
        }),
{
    let n = data.len();
    let ghost tail = data@.skip(2);
    let ghost us = units_from_bytes(tail);
    proof {
        lemma_units_from_bytes(tail);
        lemma_first_zero_unit(us);
    }
    let m = (n - 2) / 2;
    let mut units: Vec<u16> = Vec::new();
    let mut k: usize = 0;
    let mut found = false;
    while k < m && !found
        invariant
            n == data@.len(),
            n >= 2,
            tail == data@.skip(2),
            us == units_from_bytes(tail),
            us.len() == m,
            m == (n - 2) / 2,
            0 <= k <= m,
            forall|i: int| 0 <= i < m ==> us[i] == le16_at(tail, 2 * i),
            units@.len() == k,
            forall|j: int| 0 <= j < k ==> units@[j] == us[j] && us[j] != 0,
            found ==> k < m && us[k as int] == 0,
        decreases m - k + (if found {
            0int
        } else {
            1int
        }),
    {
        let u = read_u16_le(data, 2 + 2 * k);
        proof {
            assert(tail.subrange(2 * k, 2 * k + 2) =~= data@.subrange(2 + 2 * k, 2 + 2 * k + 2));
            assert(le16_at(tail, 2 * k) == le16_at(data@, 2 + 2 * k));
        }
        if u == 0 {
            found = true;
        } else {
            units.push(u);
            k = k + 1;
        }
    }
    proof {
        if found {
            assert(first_zero_unit(us) == k as int);
            assert(units@ =~= us.take(first_zero_unit(us)));
        } else {
            assert(first_zero_unit(us) < 0);
            assert(units@ =~= us);
        }
    }
    (units, found)
}

/// Decodes a byte-order-marked, zero-terminated UTF-16 buffer. Fails
/// with `InvalidUtf16` when the mark or the terminator is missing, or
/// the units are not valid UTF-16.
pub fn decode_utf16(data: &[u8]) -> (r: Result<String, Error>)
    ensures
        match spec_decode_utf16(data@) {
            Ok(s) => r matches Ok(out) && out@ == s,
            Err(e) => r matches Err(e2) && e2 == e,
        },
{
    let n = data.len();
    if n < 2 || data[0] != 0xff || data[1] != 0xfe {
        return Err(Error::InvalidUtf16);
    }
    let (units, found) = scan_units(data);
    if !found {
        return Err(Error::InvalidUtf16);
    }
    match string_from_utf16(units.as_slice()) {
        Some(s) => Ok(s),
        None => Err(Error::InvalidUtf16),
    }
}

/// Decodes a byte-order-marked UTF-16 buffer whose zero terminator is
/// optional: units past the first zero unit are ignored, and a buffer
/// without one is decoded whole.
pub fn decode_utf16_le(data: &[u8]) -> (r: Option<String>)
    ensures
        match spec_decode_utf16_le(data@) {
            Some(s) => r matches Some(out) && out@ == s,
            None => r is None,
        },
{
    let n = data.len();
    if n < 2 || data[0] != 0xff || data[1] != 0xfe {
        return None;
    }
    let (units, _) = scan_units(data);
    string_from_utf16(units.as_slice())
}

/// Encodes a string as byte-order-marked, zero-terminated little-endian
/// UTF-16.
pub fn encode_utf16(string: &str) -> (r: Result<Vec<u8>, Error>)
    ensures
        r matches Ok(v) && v@ == seq![0xffu8, 0xfeu8] + units_le_bytes(utf16_units_of(string@))
            + seq![0u8, 0u8],
{
    let units = encode_utf16_units(string);
    let mut b: Vec<u8> = Vec::new();
    b.push(0xff);
    b.push(0xfe);
    let m = units.len();
    for i in 0..m
        invariant
            m == units@.len(),
            units@ == utf16_units_of(string@),
            b@ == seq![0xffu8, 0xfeu8] + units_le_bytes(units@.take(i as int)),
    {
        push_u16_le(&mut b, units[i]);
        proof {
            assert(units@.take(i + 1).drop_last() =~= units@.take(i as int));
            assert(units@.take(i + 1).last() == units@[i as int]);
            assert(b@ =~= seq![0xffu8, 0xfeu8] + units_le_bytes(units@.take(i + 1)));
        }
    }
    b.push(0);
    b.push(0);
    proof {
        assert(units@.take(m as int) =~= units@);
        assert(b@ =~= seq![0xffu8, 0xfeu8] + units_le_bytes(utf16_units_of(string@)) + seq![
            0u8,
            0u8,
        ]);
    }
    Ok(b)
}

} // verus!
