//! Little-endian (and one big-endian) integer codecs over byte buffers.
//!
//! Every wire format in this crate stores its integers little-endian,
//! except the script instruction stream's text index, which is big-endian.

use vstd::prelude::*;
use vstd::bytes::*;
use vstd::slice::slice_subrange;

verus! {

/// The `u16` stored little-endian at `pos` in `s`.
pub open spec fn le16_at(s: Seq<u8>, pos: int) -> u16 {
    spec_u16_from_le_bytes(s.subrange(pos, pos + 2))
}

/// The `u32` stored little-endian at `pos` in `s`.
pub open spec fn le32_at(s: Seq<u8>, pos: int) -> u32 {
    spec_u32_from_le_bytes(s.subrange(pos, pos + 4))
}

/// The `u64` stored little-endian at `pos` in `s`.
pub open spec fn le64_at(s: Seq<u8>, pos: int) -> u64 {
    spec_u64_from_le_bytes(s.subrange(pos, pos + 8))
}

/// The `u16` stored big-endian at `pos` in `s`.
pub open spec fn be16_at(s: Seq<u8>, pos: int) -> u16 {
    (s[pos] as u16) << 8 | (s[pos + 1] as u16)
}

pub fn read_u16_le(data: &[u8], pos: usize) -> (x: u16)
    requires
        pos + 2 <= data@.len(),
    ensures
        x == le16_at(data@, pos as int),
{
    let n = data.len();
    u16_from_le_bytes(slice_subrange(data, pos, pos + 2))
}

pub fn read_u32_le(data: &[u8], pos: usize) -> (x: u32)
    requires
        pos + 4 <= data@.len(),
    ensures
        x == le32_at(data@, pos as int),
{
    let n = data.len();
    u32_from_le_bytes(slice_subrange(data, pos, pos + 4))
}

pub fn read_u64_le(data: &[u8], pos: usize) -> (x: u64)
    requires
        pos + 8 <= data@.len(),
    ensures
        x == le64_at(data@, pos as int),
{
    let n = data.len();
    u64_from_le_bytes(slice_subrange(data, pos, pos + 8))
}

pub fn read_u16_be(data: &[u8], pos: usize) -> (x: u16)
    requires
        pos + 2 <= data@.len(),
    ensures
        x == be16_at(data@, pos as int),
{
    let hi = data[pos];
    let lo = data[pos + 1];
    (hi as u16) << 8 | (lo as u16)
}

/// Appends the two little-endian bytes of `x` to `buf`.
pub fn push_u16_le(buf: &mut Vec<u8>, x: u16)
    ensures
        final(buf)@ == old(buf)@ + spec_u16_to_le_bytes(x),
{
    proof {
        lemma_auto_spec_u16_to_from_le_bytes();
    }
    let mut b = u16_to_le_bytes(x);
    buf.append(&mut b);
}

/// Appends the four little-endian bytes of `x` to `buf`.
pub fn push_u32_le(buf: &mut Vec<u8>, x: u32)
    ensures
        final(buf)@ == old(buf)@ + spec_u32_to_le_bytes(x),
{
    proof {
        lemma_auto_spec_u32_to_from_le_bytes();
    }
    let mut b = u32_to_le_bytes(x);
    buf.append(&mut b);
}

/// The sequence with `w` written over it starting at `pos`; nothing else
/// moves, and writes past the end are clipped.
pub open spec fn overwrite(s: Seq<u8>, pos: int, w: Seq<u8>) -> Seq<u8> {
    Seq::new(s.len(), |i: int| if pos <= i < pos + w.len() { w[i - pos] } else { s[i] })
}

/// Writes `src` over `buf` starting at `pos`, in place.
pub fn write_bytes_at(buf: &mut Vec<u8>, pos: usize, src: &[u8])
    requires
        pos + src@.len() <= old(buf)@.len(),
    ensures
        final(buf)@ == overwrite(old(buf)@, pos as int, src@),
{
    let m = src.len();
    let n = buf.len();
    for j in 0..m
        invariant
            m == src@.len(),
            pos + m <= n,
            n == buf@.len(),
            buf@.len() == old(buf)@.len(),
            forall|k: int| 0 <= k < j ==> buf@[pos + k] == src@[k],
            forall|k: int|
                0 <= k < buf@.len() && !(pos <= k < pos + j) ==> buf@[k] == old(buf)@[k],
    {
        let v = src[j];
        *vstd::std_specs::vec::vec_index_mut(buf, pos + j) = v;
    }
    proof {
        assert(buf@ =~= overwrite(old(buf)@, pos as int, src@));
    }
}

/// Compares two byte strings.
pub fn bytes_eq(a: &[u8], b: &[u8]) -> (r: bool)
    ensures
        r == (a@ == b@),
{
    let n = a.len();
    if n != b.len() {
        proof {
            assert(a@ != b@);
        }
        return false;
    }
    for i in 0..n
        invariant
            n == a@.len() == b@.len(),
            forall|j: int| 0 <= j < i ==> a@[j] == b@[j],
    {
        if a[i] != b[i] {
            proof {
                assert(a@[i as int] != b@[i as int]);
                assert(a@ != b@);
            }
            return false;
        }
    }
    proof {
        assert(a@ =~= b@);
    }
    true
}

} // verus!
