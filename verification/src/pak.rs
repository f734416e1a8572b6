//! The nested offset-table container (`Pak`).
//!
//! On the wire a container is a little-endian `u32` entry count, one `u32`
//! start offset per entry (strictly ascending, the first equal to the
//! table's own size `4 + 4*count`, the buffer length serving as the final
//! boundary), then the entries' bytes back to back.

use vstd::prelude::*;
use vstd::slice::{slice_subrange, slice_to_vec};
use vstd::utf8::{decode_utf8, encode_utf8, valid_utf8};
use crate::Error;
use vstd::bytes::{spec_u16_to_le_bytes, spec_u32_to_le_bytes};
use crate::bytes::{le16_at, le32_at, read_u16_le, read_u32_le, push_u16_le, push_u32_le};
use crate::text::{utf16_units_of, utf16_decode, string_from_utf8, string_from_utf16, encode_utf16_units};

verus! {

/// Mathematical model of one container entry.
pub ghost enum SpecEntry {
    Raw(Seq<u8>),
    Utf8(Seq<char>),
    Utf16(Seq<char>),
    Nested(Seq<SpecEntry>),
}

/// One slot of a container: raw bytes as decoded, or a cached typed
/// interpretation that a promotion or replacement installed.
pub enum Entry {
    RawData(Vec<u8>),
    Utf8String(String),
    Utf16String(String),
    NestedContainer(Box<Pak>),
}

/// An ordered sequence of entries, decoded from or encodable to the
/// offset-table wire format.
pub struct Pak {
    pub entries: Vec<Entry>,
}

pub open spec fn entry_view(e: Entry) -> SpecEntry
    decreases e,
{
    match e {
        Entry::RawData(v) => SpecEntry::Raw(v@),
        Entry::Utf8String(s) => SpecEntry::Utf8(s@),
        Entry::Utf16String(s) => SpecEntry::Utf16(s@),
        Entry::NestedContainer(p) => SpecEntry::Nested(entries_view(p.entries@)),
    }
}

pub open spec fn entries_view(s: Seq<Entry>) -> Seq<SpecEntry>
    decreases s,
{
    if s.len() == 0 {
        Seq::empty()
    } else {
        seq![entry_view(s[0])] + entries_view(s.drop_first())
    }
}

/// `entries_view` maps `entry_view` over the sequence, element by element.
pub proof fn lemma_entries_view(s: Seq<Entry>)
    ensures
        entries_view(s).len() == s.len(),
        forall|i: int| 0 <= i < s.len() ==> entries_view(s)[i] == entry_view(#[trigger] s[i]),
    decreases s,
{
    if s.len() > 0 {
        lemma_entries_view(s.drop_first());
        assert forall|i: int| 0 <= i < s.len() implies entries_view(s)[i] == entry_view(
            #[trigger] s[i],
        ) by {
            if i > 0 {
                assert(s.drop_first()[i - 1] == s[i]);
            }
        }
    }
}

impl View for Entry {
    type V = SpecEntry;

    open spec fn view(&self) -> SpecEntry {
        entry_view(*self)
    }
}

impl View for Pak {
    type V = Seq<SpecEntry>;

    open spec fn view(&self) -> Seq<SpecEntry> {
        entries_view(self.entries@)
    }
}

/// The `i`-th entry boundary of a container wire buffer: the `i`-th table
/// offset, or the buffer length for the synthetic final boundary.
pub open spec fn spec_boundary(data: Seq<u8>, count: int, i: int) -> int {
    if i < count {
        le32_at(data, 4 + 4 * i) as int
    } else {
        data.len() as int
    }
}

/// The offset table is valid: the first offset equals the table's own size
/// and every consecutive pair of boundaries, the synthetic final boundary
/// included, is strictly ascending.
pub open spec fn table_ok(data: Seq<u8>, count: int) -> bool {
    &&& (count > 0 ==> spec_boundary(data, count, 0) == 4 + 4 * count)
    &&& forall|i: int, j: int|
        #![trigger spec_boundary(data, count, i), spec_boundary(data, count, j)]
        0 <= i < j <= count ==> spec_boundary(data, count, i) < spec_boundary(data, count, j)
}

/// What decoding a wire buffer yields: the byte range of each entry, or
/// the error that the buffer earns.
pub open spec fn spec_decode(data: Seq<u8>) -> Result<Seq<Seq<u8>>, Error> {
    if data.len() < 4 {
        Err(Error::UnexpectedEnd)
    } else {
        let count = le32_at(data, 0) as int;
        if data.len() < 4 + 4 * count {
            Err(Error::UnexpectedEnd)
        } else if !table_ok(data, count) {
            Err(Error::InvalidOffsetTable)
        } else {
            Ok(
                Seq::new(
                    count as nat,
                    |i: int|
                        data.subrange(
                            spec_boundary(data, count, i),
                            spec_boundary(data, count, i + 1),
                        ),
                ),
            )
        }
    }
}

/// The entry list that a fresh decode produces: every slot still raw.
pub open spec fn raw_entries(parts: Seq<Seq<u8>>) -> Seq<SpecEntry> {
    parts.map_values(|b: Seq<u8>| SpecEntry::Raw(b))
}

/// A sequence whose consecutive elements ascend ascends between any two
/// indices.
proof fn lemma_vec_ascending(s: Seq<u32>, i: int, j: int)
    requires
        forall|k: int| 0 <= k < s.len() - 1 ==> #[trigger] s[k] < s[k + 1],
        0 <= i <= j < s.len(),
    ensures
        s[i] <= s[j],
        i < j ==> s[i] < s[j],
    decreases j - i,
{
    if i < j {
        lemma_vec_ascending(s, i, j - 1);
    }
}

/// The wire bytes of one entry in its current interpretation: raw bytes
/// as they stand; UTF-8 text NUL-terminated; UTF-16 text with a `FF FE`
/// byte-order mark, little-endian code units and one zero unit; a nested
/// container fully re-encoded.
pub open spec fn spec_entry_bytes(e: SpecEntry) -> Seq<u8>
    decreases e, 2int,
{
    match e {
        SpecEntry::Raw(b) => b,
        SpecEntry::Utf8(s) => encode_utf8(s) + seq![0u8],
        SpecEntry::Utf16(s) => seq![0xffu8, 0xfeu8] + units_le_bytes(utf16_units_of(s)) + seq![
            0u8,
            0u8,
        ],
        SpecEntry::Nested(es) => spec_encode(es),
    }
}

/// The little-endian byte stream of a sequence of UTF-16 code units.
pub open spec fn units_le_bytes(us: Seq<u16>) -> Seq<u8>
    decreases us.len(),
{
    if us.len() == 0 {
        Seq::empty()
    } else {
        units_le_bytes(us.drop_last()) + spec_u16_to_le_bytes(us.last())
    }
}

/// The wire bytes of each entry of a container, in order.
pub open spec fn spec_parts(entries: Seq<SpecEntry>) -> Seq<Seq<u8>>
    decreases entries, 1int,
{
    if entries.len() == 0 {
        Seq::empty()
    } else {
        seq![spec_entry_bytes(entries[0])] + spec_parts(entries.drop_first())
    }
}

/// `spec_parts` maps `spec_entry_bytes` over the entries.
pub proof fn lemma_spec_parts(entries: Seq<SpecEntry>)
    ensures
        spec_parts(entries).len() == entries.len(),
        forall|i: int|
            0 <= i < entries.len() ==> spec_parts(entries)[i] == spec_entry_bytes(
                #[trigger] entries[i],
            ),
    decreases entries,
{
    if entries.len() > 0 {
        lemma_spec_parts(entries.drop_first());
        assert forall|i: int| 0 <= i < entries.len() implies spec_parts(entries)[i]
            == spec_entry_bytes(#[trigger] entries[i]) by {
            if i > 0 {
                assert(entries.drop_first()[i - 1] == entries[i]);
            }
        }
    }
}

/// Total length of the first `i` entry byte strings.
pub open spec fn prefix_len(parts: Seq<Seq<u8>>, i: int) -> int
    decreases i,
{
    if i <= 0 {
        0
    } else {
        prefix_len(parts, i - 1) + parts[i - 1].len()
    }
}

/// The start offset that the encoder writes for entry `i`: the table's own
/// size plus everything already laid down; at `i == parts.len()` it is the
/// total length of the encoded buffer.
pub open spec fn encoded_boundary(parts: Seq<Seq<u8>>, i: int) -> int {
    4 + 4 * parts.len() + prefix_len(parts, i)
}

/// The offset table the encoder writes for the first `i` entries.
pub open spec fn table_bytes(parts: Seq<Seq<u8>>, i: int) -> Seq<u8>
    decreases i,
{
    if i <= 0 {
        Seq::empty()
    } else {
        table_bytes(parts, i - 1) + spec_u32_to_le_bytes(encoded_boundary(parts, i - 1) as u32)
    }
}

/// The first `i` entry byte strings, concatenated.
pub open spec fn payload_bytes(parts: Seq<Seq<u8>>, i: int) -> Seq<u8>
    decreases i,
{
    if i <= 0 {
        Seq::empty()
    } else {
        payload_bytes(parts, i - 1) + parts[i - 1]
    }
}

/// The whole encoded buffer for the given entry byte strings.
pub open spec fn spec_encode_parts(parts: Seq<Seq<u8>>) -> Seq<u8> {
    spec_u32_to_le_bytes(parts.len() as u32) + table_bytes(parts, parts.len() as int)
        + payload_bytes(parts, parts.len() as int)
}

/// The whole encoded buffer for a container's entries.
pub open spec fn spec_encode(entries: Seq<SpecEntry>) -> Seq<u8>
    decreases entries, 3int,
{
    spec_encode_parts(spec_parts(entries))
}

/// The encoded container fits the format: every offset, the total length
/// included, is representable as a `u32`.
pub open spec fn encode_fits(parts: Seq<Seq<u8>>) -> bool {
    encoded_boundary(parts, parts.len() as int) <= u32::MAX
}

/// The entry, and every container nested in it, fits the format when
/// encoded.
pub open spec fn entry_encodable(e: SpecEntry) -> bool
    decreases e, 2int,
{
    match e {
        SpecEntry::Raw(_) => true,
        SpecEntry::Utf8(_) => true,
        SpecEntry::Utf16(_) => true,
        SpecEntry::Nested(es) => entries_encodable(es) && encode_fits(spec_parts(es)),
    }
}

/// Every entry of the sequence is encodable.
pub open spec fn entries_encodable(es: Seq<SpecEntry>) -> bool
    decreases es, 1int,
{
    if es.len() == 0 {
        true
    } else {
        entry_encodable(es[0]) && entries_encodable(es.drop_first())
    }
}

/// `entries_encodable` holds exactly when each entry is encodable.
pub proof fn lemma_entries_encodable(es: Seq<SpecEntry>)
    ensures
        entries_encodable(es) <==> (forall|i: int|
            0 <= i < es.len() ==> entry_encodable(#[trigger] es[i])),
    decreases es,
{
    if es.len() > 0 {
        lemma_entries_encodable(es.drop_first());
        assert forall|i: int| 1 <= i < es.len() implies es.drop_first()[i - 1] == es[i] by {}
        if forall|i: int| 0 <= i < es.len() ==> entry_encodable(#[trigger] es[i]) {
            assert forall|i: int|
                0 <= i < es.drop_first().len() implies entry_encodable(
                #[trigger] es.drop_first()[i],
            ) by {
                assert(es.drop_first()[i] == es[i + 1]);
            }
        }
    }
}

/// Longer prefixes are never shorter.
proof fn lemma_prefix_len_mono(parts: Seq<Seq<u8>>, i: int, j: int)
    requires
        i <= j,
    ensures
        prefix_len(parts, i) <= prefix_len(parts, j),
    decreases j - i,
{
    if i < j {
        lemma_prefix_len_mono(parts, i, j - 1);
    }
}

impl Pak {
    /// Decodes a wire buffer into a container of raw entries.
    ///
    /// Succeeds if and only if the buffer holds a complete offset table
    /// whose boundaries are strictly ascending and whose first offset
    /// equals the table's own size; each entry then receives exactly the
    /// bytes between its boundary and the next.
    pub fn decode(data: &[u8]) -> (r: Result<Pak, Error>)
        ensures
            match spec_decode(data@) {
                Ok(parts) => r matches Ok(p) && p@ == raw_entries(parts),
                Err(e) => r matches Err(e2) && e2 == e,
            },
    {
        let n = data.len();
        if n < 4 {
            return Err(Error::UnexpectedEnd);
        }
        let count32 = read_u32_le(data, 0);
        let need: u64 = 4u64 + 4u64 * (count32 as u64);
        if (n as u64) < need {
            return Err(Error::UnexpectedEnd);
        }
        let count = count32 as usize;
        let ghost gcount = count as int;

        let mut offsets: Vec<u32> = Vec::new();
        for i in 0..count
            invariant
                n == data@.len(),
                gcount == le32_at(data@, 0) as int,
                gcount == count32 as int,
                need == 4 + 4 * (count32 as u64),
                4 + 4 * gcount <= n,
                count == gcount,
                offsets@.len() == i,
                forall|j: int|
                    0 <= j < i ==> offsets@[j] == le32_at(data@, 4 + 4 * j),
                i > 0 ==> offsets@[0] == 4 + 4 * gcount,
                forall|j: int| 0 <= j < i - 1 ==> #[trigger] offsets@[j] < offsets@[j + 1],
                forall|j: int| 0 <= j < i ==> #[trigger] offsets@[j] as int == spec_boundary(data@, gcount, j),
        {
            let off = read_u32_le(data, 4 + 4 * i);
            if i == 0 {
                if (off as u64) != need {
                    proof {
                        assert(spec_boundary(data@, gcount, 0) == off as int);
                        assert(need == 4 + 4 * (count32 as u64));
                        assert(off as int != 4 + 4 * gcount);
                        assert(!table_ok(data@, gcount));
                    }
                    return Err(Error::InvalidOffsetTable);
                }
            } else {
                if offsets[i - 1] >= off {
                    proof {
                        assert(spec_boundary(data@, gcount, i - 1) == offsets@[i - 1]);
                        assert(spec_boundary(data@, gcount, i as int) == off as int);
                        assert(!(spec_boundary(data@, gcount, i - 1) < spec_boundary(
                            data@,
                            gcount,
                            i as int,
                        )));
                        assert(!table_ok(data@, gcount)) by {
                            if table_ok(data@, gcount) {
                                assert(0 <= i - 1 < i as int <= gcount);
                                assert(spec_boundary(data@, gcount, i - 1) < spec_boundary(
                                    data@,
                                    gcount,
                                    i as int,
                                ));
                            }
                        }
                    }
                    return Err(Error::InvalidOffsetTable);
                }
            }
            offsets.push(off);
            proof {
                if i == 0 {
                    assert(offsets@[0] == off);
                    assert(need == 4 + 4 * (count32 as u64));
                    assert(off as int == 4 + 4 * gcount);
                }
            }
        }
        if count > 0 {
            if (offsets[count - 1] as u64) >= (n as u64) {
                proof {
                    assert(spec_boundary(data@, gcount, gcount - 1) == offsets@[gcount - 1]);
                    assert(spec_boundary(data@, gcount, gcount) == n as int);
                    assert(!table_ok(data@, gcount)) by {
                        if table_ok(data@, gcount) {
                            assert(spec_boundary(data@, gcount, gcount - 1) < spec_boundary(
                                data@,
                                gcount,
                                gcount,
                            ));
                        }
                    }
                }
                return Err(Error::InvalidOffsetTable);
            }
        }
        proof {
            assert forall|i: int, j: int|
                #![trigger spec_boundary(data@, gcount, i), spec_boundary(data@, gcount, j)]
                0 <= i < j <= gcount implies spec_boundary(data@, gcount, i) < spec_boundary(
                data@,
                gcount,
                j,
            ) by {
                assert(spec_boundary(data@, gcount, i) == offsets@[i]);
                if j < gcount {
                    lemma_vec_ascending(offsets@, i, j);
                } else {
                    lemma_vec_ascending(offsets@, i, gcount - 1);
                }
            }
            assert(table_ok(data@, gcount));
        }

        let mut entries: Vec<Entry> = Vec::new();
        for i in 0..count
            invariant
                n == data@.len(),
                gcount == le32_at(data@, 0) as int,
                4 + 4 * gcount <= n,
                count == gcount,
                table_ok(data@, gcount),
                offsets@.len() == gcount,
                forall|j: int|
                    0 <= j < gcount ==> offsets@[j] == le32_at(data@, 4 + 4 * j),
                entries@.len() == i,
                forall|j: int|
                    0 <= j < i ==> (#[trigger] entries@[j] matches Entry::RawData(v)
                        && v@ == data@.subrange(
                        spec_boundary(data@, gcount, j),
                        spec_boundary(data@, gcount, j + 1),
                    )),
        {
            proof {
                assert(spec_boundary(data@, gcount, i as int) < spec_boundary(
                    data@,
                    gcount,
                    i + 1,
                ));
                if i + 1 < gcount {
                    assert(spec_boundary(data@, gcount, i + 1) < spec_boundary(
                        data@,
                        gcount,
                        gcount,
                    ));
                }
            }
            let begin = offsets[i] as usize;
            let end = if i + 1 < count {
                offsets[i + 1] as usize
            } else {
                n
            };
            let part = slice_to_vec(slice_subrange(data, begin, end));
            entries.push(Entry::RawData(part));
        }

        let pak = Pak { entries };
        proof {
            let parts = spec_decode(data@)->Ok_0;
            lemma_entries_view(pak.entries@);
            assert forall|i: int| 0 <= i < gcount implies pak@[i] == raw_entries(parts)[i] by {
                assert(entries@[i] matches Entry::RawData(v) && v@ == data@.subrange(
                    spec_boundary(data@, gcount, i),
                    spec_boundary(data@, gcount, i + 1),
                ));
                assert(parts[i] == data@.subrange(
                    spec_boundary(data@, gcount, i),
                    spec_boundary(data@, gcount, i + 1),
                ));
            }
            assert(pak@ =~= raw_entries(parts));
        }
        Ok(pak)
    }

    /// Decodes a wire buffer into a container of raw entries; the same
    /// operation as [`Pak::decode`], under the older name.
    pub fn from_bytes(data: &[u8]) -> (r: Result<Pak, Error>)
        ensures
            match spec_decode(data@) {
                Ok(parts) => r matches Ok(p) && p@ == raw_entries(parts),
                Err(e) => r matches Err(e2) && e2 == e,
            },
    {
        Self::decode(data)
    }

    /// Re-encodes the container: entry count, a freshly computed offset
    /// table, then every entry serialized in its current interpretation.
    ///
    /// Fails exactly when some offset of the result, or of a nested
    /// container's encoding, would not fit the format's 32-bit fields.
    pub fn repack(&self) -> (r: Result<Vec<u8>, Error>)
        ensures
            match r {
                Ok(buf) => entries_encodable(self@) && encode_fits(spec_parts(self@)) && buf@
                    == spec_encode(self@),
                Err(e) => e == Error::TooLarge && !(entries_encodable(self@) && encode_fits(
                    spec_parts(self@),
                )),
            },
        decreases self,
    {
        proof {
            lemma_entries_view(self.entries@);
            lemma_spec_parts(self@);
            lemma_entries_encodable(self@);
        }
        let n = self.entries.len();
        let ghost gparts = spec_parts(self@);

        let mut parts: Vec<Vec<u8>> = Vec::new();
        for i in 0..n
            invariant
                n == self.entries@.len(),
                gparts == spec_parts(self@),
                gparts.len() == n,
                forall|j: int| 0 <= j < n ==> gparts[j] == spec_entry_bytes(self@[j]),
                forall|j: int| 0 <= j < n ==> self@[j] == entry_view(#[trigger] self.entries@[j]),
                entries_encodable(self@) <==> (forall|j: int|
                    0 <= j < n ==> entry_encodable(#[trigger] self@[j])),
                parts@.len() == i,
                forall|j: int| 0 <= j < i ==> (#[trigger] parts@[j])@ == gparts[j],
                forall|j: int| 0 <= j < i ==> entry_encodable(#[trigger] self@[j]),
        {
            match self.entries[i].encode() {
                Ok(b) => {
                    parts.push(b);
                },
                Err(e) => {
                    return Err(e);
                },
            }
        }

        // The offset table itself must fit: the first offset is its size.
        if n > ((u32::MAX as usize) - 4) / 4 {
            proof {
                lemma_prefix_len_mono(gparts, 0, n as int);
            }
            return Err(Error::TooLarge);
        }
        let base: u64 = 4u64 + 4u64 * (n as u64);

        // Sum the payload lengths, stopping as soon as a boundary would
        // overflow a u32.
        let mut total: u64 = base;
        for i in 0..n
            invariant
                n == self.entries@.len(),
                n <= ((u32::MAX as usize) - 4) / 4,
                gparts == spec_parts(self@),
                gparts.len() == n,
                base == 4 + 4 * (n as u64),
                parts@.len() == n,
                forall|j: int| 0 <= j < n ==> (#[trigger] parts@[j])@ == gparts[j],
                total == encoded_boundary(gparts, i as int),
                total <= u32::MAX,
        {
            let len = parts[i].len();
            if ((u32::MAX as u64) - total) < (len as u64) {
                proof {
                    lemma_prefix_len_mono(gparts, i + 1, n as int);
                }
                return Err(Error::TooLarge);
            }
            total = total + (len as u64);
        }

        let mut buf: Vec<u8> = Vec::new();
        push_u32_le(&mut buf, n as u32);

        proof {
            lemma_prefix_len_mono(gparts, 0, n as int);
        }
        let mut running: u64 = base;
        for i in 0..n
            invariant
                n == self.entries@.len(),
                n <= ((u32::MAX as usize) - 4) / 4,
                gparts == spec_parts(self@),
                gparts.len() == n,
                base == 4 + 4 * (n as u64),
                parts@.len() == n,
                forall|j: int| 0 <= j < n ==> (#[trigger] parts@[j])@ == gparts[j],
                running == encoded_boundary(gparts, i as int),
                running <= encoded_boundary(gparts, n as int) <= u32::MAX,
                buf@ == spec_u32_to_le_bytes(n as u32) + table_bytes(gparts, i as int),
        {
            proof {
                lemma_prefix_len_mono(gparts, i + 1, n as int);
            }
            push_u32_le(&mut buf, running as u32);
            let len = parts[i].len();
            running = running + (len as u64);
            proof {
                assert(buf@ =~= spec_u32_to_le_bytes(n as u32) + table_bytes(
                    gparts,
                    i + 1,
                ));
            }
        }

        for i in 0..n
            invariant
                n == self.entries@.len(),
                gparts == spec_parts(self@),
                gparts.len() == n,
                parts@.len() == n,
                forall|j: int| 0 <= j < n ==> (#[trigger] parts@[j])@ == gparts[j],
                buf@ == spec_u32_to_le_bytes(n as u32) + table_bytes(gparts, n as int)
                    + payload_bytes(gparts, i as int),
        {
            buf.extend_from_slice(parts[i].as_slice());
            proof {
                assert(buf@ =~= spec_u32_to_le_bytes(n as u32) + table_bytes(gparts, n as int)
                    + payload_bytes(gparts, i + 1));
            }
        }

        Ok(buf)
    }
}

proof fn lemma_table_bytes_len(parts: Seq<Seq<u8>>, i: int)
    requires
        i >= 0,
    ensures
        table_bytes(parts, i).len() == 4 * i,
    decreases i,
{
    vstd::bytes::lemma_auto_spec_u32_to_from_le_bytes();
    if i > 0 {
        lemma_table_bytes_len(parts, i - 1);
    }
}

proof fn lemma_payload_bytes_len(parts: Seq<Seq<u8>>, i: int)
    ensures
        payload_bytes(parts, i).len() == prefix_len(parts, i),
        prefix_len(parts, i) >= 0,
    decreases i,
{
    if i > 0 {
        lemma_payload_bytes_len(parts, i - 1);
    }
}

/// When every part is non-empty the running totals ascend strictly.
proof fn lemma_prefix_len_strict(parts: Seq<Seq<u8>>, i: int, j: int)
    requires
        forall|k: int| 0 <= k < parts.len() ==> (#[trigger] parts[k]).len() >= 1,
        0 <= i < j <= parts.len(),
    ensures
        prefix_len(parts, i) < prefix_len(parts, j),
    decreases j - i,
{
    if i < j - 1 {
        lemma_prefix_len_strict(parts, i, j - 1);
    }
}

/// The `i`-th table slot of the encoded table holds the `i`-th boundary.
proof fn lemma_table_lookup(parts: Seq<Seq<u8>>, i: int, j: int)
    requires
        0 <= i < j <= parts.len(),
    ensures
        table_bytes(parts, j).subrange(4 * i, 4 * i + 4) == spec_u32_to_le_bytes(
            encoded_boundary(parts, i) as u32,
        ),
    decreases j - i,
{
    lemma_table_bytes_len(parts, j - 1);
    vstd::bytes::lemma_auto_spec_u32_to_from_le_bytes();
    if i == j - 1 {
        assert(table_bytes(parts, j).subrange(4 * i, 4 * i + 4) =~= spec_u32_to_le_bytes(
            encoded_boundary(parts, i) as u32,
        ));
    } else {
        lemma_table_lookup(parts, i, j - 1);
        assert(table_bytes(parts, j).subrange(4 * i, 4 * i + 4) =~= table_bytes(
            parts,
            j - 1,
        ).subrange(4 * i, 4 * i + 4));
    }
}

/// The bytes between two consecutive running totals are the corresponding
/// part.
proof fn lemma_payload_lookup(parts: Seq<Seq<u8>>, i: int, j: int)
    requires
        0 <= i < j <= parts.len(),
    ensures
        payload_bytes(parts, j).subrange(prefix_len(parts, i), prefix_len(parts, i + 1))
            == parts[i],
    decreases j - i,
{
    lemma_payload_bytes_len(parts, j - 1);
    lemma_payload_bytes_len(parts, i);
    if i == j - 1 {
        assert(payload_bytes(parts, j).subrange(prefix_len(parts, i), prefix_len(parts, i + 1))
            =~= parts[i]);
    } else {
        lemma_payload_lookup(parts, i, j - 1);
        lemma_prefix_len_mono(parts, i + 1, j - 1);
        assert(payload_bytes(parts, j).subrange(prefix_len(parts, i), prefix_len(parts, i + 1))
            =~= payload_bytes(parts, j - 1).subrange(
            prefix_len(parts, i),
            prefix_len(parts, i + 1),
        ));
    }
}

/// Round trip: decoding an encoded container yields the container back,
/// entry for entry, each entry normalized to the bytes of its current
/// interpretation (`raw_entries(spec_parts(entries))` is exactly that
/// normalization).
///
/// The container must fit the format's 32-bit offsets, and no entry may
/// serialize to zero bytes: an empty raw entry cannot survive the wire
/// format, whose boundaries ascend strictly.
pub proof fn lemma_round_trip(entries: Seq<SpecEntry>)
    requires
        encode_fits(spec_parts(entries)),
        forall|i: int|
            0 <= i < entries.len() ==> spec_entry_bytes(#[trigger] entries[i]).len() >= 1,
    ensures
        spec_decode(spec_encode(entries)) == Ok::<Seq<Seq<u8>>, Error>(spec_parts(entries)),
{
    lemma_spec_parts(entries);
    let parts = spec_parts(entries);
    let n = parts.len() as int;
    let data = spec_encode(entries);
    let head = spec_u32_to_le_bytes(parts.len() as u32);
    let table = table_bytes(parts, n);
    let payload = payload_bytes(parts, n);

    vstd::bytes::lemma_auto_spec_u32_to_from_le_bytes();
    lemma_table_bytes_len(parts, n);
    lemma_payload_bytes_len(parts, n);
    assert(data.len() == 4 + 4 * n + prefix_len(parts, n));
    assert(data.len() == encoded_boundary(parts, n));

    assert forall|k: int| 0 <= k < n implies (#[trigger] parts[k]).len() >= 1 by {
        assert(parts[k] == spec_entry_bytes(entries[k]));
    }

    // The count field reads back as the entry count.
    assert(data.subrange(0, 4) =~= head);
    assert(le32_at(data, 0) == parts.len() as u32);
    assert(le32_at(data, 0) as int == n);

    // Each table slot reads back as the boundary the encoder wrote.
    assert forall|i: int|
        #![trigger spec_boundary(data, n, i)]
        0 <= i < n implies spec_boundary(data, n, i) == encoded_boundary(parts, i) by {
        lemma_table_lookup(parts, i, n);
        lemma_prefix_len_mono(parts, i, n);
        lemma_payload_bytes_len(parts, i);
        assert(data.subrange(4 + 4 * i, 4 + 4 * i + 4) =~= table.subrange(4 * i, 4 * i + 4));
        assert(le32_at(data, 4 + 4 * i) == encoded_boundary(parts, i) as u32);
    }

    // The boundaries ascend strictly, so the table validates.
    assert forall|i: int, j: int|
        #![trigger spec_boundary(data, n, i), spec_boundary(data, n, j)]
        0 <= i < j <= n implies spec_boundary(data, n, i) < spec_boundary(data, n, j) by {
        assert(spec_boundary(data, n, i) == encoded_boundary(parts, i));
        if j == n {
            assert(spec_boundary(data, n, j) == data.len());
            assert(data.len() == encoded_boundary(parts, n));
        } else {
            assert(spec_boundary(data, n, j) == encoded_boundary(parts, j));
        }
        lemma_prefix_len_strict(parts, i, j);
    }
    assert(n > 0 ==> spec_boundary(data, n, 0) == 4 + 4 * n);
    assert(table_ok(data, n));

    // Each decoded slice is the corresponding part.
    let decoded = spec_decode(data)->Ok_0;
    assert forall|i: int| 0 <= i < n implies decoded[i] == parts[i] by {
        lemma_payload_lookup(parts, i, n);
        lemma_payload_bytes_len(parts, i);
        lemma_payload_bytes_len(parts, i + 1);
        lemma_prefix_len_mono(parts, i + 1, n);
        assert(data == head + table + payload);
        assert(spec_boundary(data, n, i) == 4 + 4 * n + prefix_len(parts, i));
        assert(spec_boundary(data, n, i + 1) == 4 + 4 * n + prefix_len(parts, i + 1));
        assert(data.subrange(
            spec_boundary(data, n, i),
            spec_boundary(data, n, i + 1),
        ) =~= payload.subrange(prefix_len(parts, i), prefix_len(parts, i + 1)));
    }
    assert(decoded =~= parts);
}

/// A buffer whose offset table is broken never decodes: if the table is
/// complete but its boundaries do not ascend strictly, or its first offset
/// is not the table's own size, decoding fails with `InvalidOffsetTable`.
pub proof fn lemma_decode_rejects_bad_table(data: Seq<u8>)
    requires
        data.len() >= 4,
        data.len() >= 4 + 4 * (le32_at(data, 0) as int),
        !table_ok(data, le32_at(data, 0) as int),
    ensures
        spec_decode(data) == Err::<Seq<Seq<u8>>, Error>(Error::InvalidOffsetTable),
{
}

/// The position of the first zero byte, or `-1` when there is none.
pub open spec fn first_zero(b: Seq<u8>) -> int
    decreases b.len(),
{
    if b.len() == 0 {
        -1
    } else if b[0] == 0 {
        0
    } else if first_zero(b.drop_first()) < 0 {
        -1
    } else {
        first_zero(b.drop_first()) + 1
    }
}

/// `first_zero` names the first zero byte exactly.
pub proof fn lemma_first_zero(b: Seq<u8>)
    ensures
        first_zero(b) < 0 ==> (forall|j: int| 0 <= j < b.len() ==> b[j] != 0),
        first_zero(b) >= 0 ==> 0 <= first_zero(b) < b.len() && b[first_zero(b)] == 0 && (forall|
            j: int,
        |
            0 <= j < first_zero(b) ==> b[j] != 0),
    decreases b.len(),
{
    if b.len() > 0 && b[0] != 0 {
        lemma_first_zero(b.drop_first());
        let t = b.drop_first();
        if first_zero(b) < 0 {
            assert forall|j: int| 0 <= j < b.len() implies b[j] != 0 by {
                if j > 0 {
                    assert(t[j - 1] == b[j]);
                    assert(t[j - 1] != 0);
                }
            }
        } else {
            assert(t[first_zero(t)] == b[first_zero(b)]);
            assert forall|j: int| 0 <= j < first_zero(b) implies b[j] != 0 by {
                if j > 0 {
                    assert(t[j - 1] == b[j]);
                    assert(t[j - 1] != 0);
                }
            }
        }
    }
}

/// The 16-bit little-endian code units stored in the byte sequence, a
/// trailing odd byte ignored.
pub open spec fn units_from_bytes(b: Seq<u8>) -> Seq<u16>
    decreases b.len(),
{
    if b.len() < 2 {
        Seq::empty()
    } else {
        seq![le16_at(b, 0)] + units_from_bytes(b.skip(2))
    }
}

/// The position of the first zero code unit, or `-1` when there is none.
pub open spec fn first_zero_unit(us: Seq<u16>) -> int
    decreases us.len(),
{
    if us.len() == 0 {
        -1
    } else if us[0] == 0 {
        0
    } else if first_zero_unit(us.drop_first()) < 0 {
        -1
    } else {
        first_zero_unit(us.drop_first()) + 1
    }
}

/// `first_zero_unit` names the first zero code unit exactly.
pub proof fn lemma_first_zero_unit(us: Seq<u16>)
    ensures
        first_zero_unit(us) < 0 ==> (forall|j: int| 0 <= j < us.len() ==> us[j] != 0),
        first_zero_unit(us) >= 0 ==> 0 <= first_zero_unit(us) < us.len() && us[first_zero_unit(us)]
            == 0 && (forall|j: int| 0 <= j < first_zero_unit(us) ==> us[j] != 0),
    decreases us.len(),
{
    if us.len() > 0 && us[0] != 0 {
        lemma_first_zero_unit(us.drop_first());
        let t = us.drop_first();
        if first_zero_unit(us) < 0 {
            assert forall|j: int| 0 <= j < us.len() implies us[j] != 0 by {
                if j > 0 {
                    assert(t[j - 1] == us[j]);
                    assert(t[j - 1] != 0);
                }
            }
        } else {
            assert(t[first_zero_unit(t)] == us[first_zero_unit(us)]);
            assert forall|j: int| 0 <= j < first_zero_unit(us) implies us[j] != 0 by {
                if j > 0 {
                    assert(t[j - 1] == us[j]);
                    assert(t[j - 1] != 0);
                }
            }
        }
    }
}

/// What promoting an entry to UTF-8 text does: the slot afterwards and
/// the characters handed back, `None` when the entry is not interpretable.
pub open spec fn spec_as_utf8(e: SpecEntry) -> (SpecEntry, Option<Seq<char>>) {
    match e {
        SpecEntry::Utf8(s) => (e, Some(s)),
        SpecEntry::Raw(b) => {
            if first_zero(b) >= 0 && valid_utf8(b.take(first_zero(b))) {
                let s = decode_utf8(b.take(first_zero(b)));
                (SpecEntry::Utf8(s), Some(s))
            } else {
                (e, None)
            }
        },
        _ => (e, None),
    }
}

/// What promoting an entry to UTF-16 text does: the raw bytes must begin
/// with the `FF FE` byte-order mark and hold a zero code unit, and the
/// units before it must be valid UTF-16.
pub open spec fn spec_as_utf16(e: SpecEntry) -> (SpecEntry, Option<Seq<char>>) {
    match e {
        SpecEntry::Utf16(s) => (e, Some(s)),
        SpecEntry::Raw(b) => {
            if b.len() >= 2 && b[0] == 0xff && b[1] == 0xfe {
                let us = units_from_bytes(b.skip(2));
                if first_zero_unit(us) >= 0 {
                    match utf16_decode(us.take(first_zero_unit(us))) {
                        Some(s) => (SpecEntry::Utf16(s), Some(s)),
                        None => (e, None),
                    }
                } else {
                    (e, None)
                }
            } else {
                (e, None)
            }
        },
        _ => (e, None),
    }
}

/// The path points at an existing slot, every step but the last running
/// through an already decoded sub-container.
pub open spec fn path_prepared(es: Seq<SpecEntry>, idx: Seq<usize>) -> bool
    decreases idx.len(),
{
    &&& idx.len() >= 1
    &&& (idx[0] as int) < es.len()
    &&& (idx.len() > 1 ==> match es[idx[0] as int] {
        SpecEntry::Nested(inner) => path_prepared(inner, idx.drop_first()),
        _ => false,
    })
}

/// The entry a prepared path points at.
pub open spec fn entry_at(es: Seq<SpecEntry>, idx: Seq<usize>) -> SpecEntry
    decreases idx.len(),
{
    if idx.len() <= 1 {
        es[idx[0] as int]
    } else {
        match es[idx[0] as int] {
            SpecEntry::Nested(inner) => entry_at(inner, idx.drop_first()),
            _ => es[idx[0] as int],
        }
    }
}

/// The entry list with the slot a prepared path points at replaced.
pub open spec fn update_at(es: Seq<SpecEntry>, idx: Seq<usize>, v: SpecEntry) -> Seq<SpecEntry>
    decreases idx.len(),
{
    if idx.len() <= 1 {
        es.update(idx[0] as int, v)
    } else {
        match es[idx[0] as int] {
            SpecEntry::Nested(inner) => es.update(
                idx[0] as int,
                SpecEntry::Nested(update_at(inner, idx.drop_first(), v)),
            ),
            _ => es.update(idx[0] as int, v),
        }
    }
}

/// What walking a path does: sub-containers are decoded in place on the
/// way down, and the walk answers whether the path reached a slot.
///
/// An empty path, a slot that holds something other than a decodable raw
/// entry or a sub-container, and a decode failure all answer
/// `InvalidIndices`; an index beyond an entry list answers
/// `IndexOutOfRange`. Promotions made before a failure stay.
pub open spec fn spec_prepare(es: Seq<SpecEntry>, idx: Seq<usize>) -> (
    Seq<SpecEntry>,
    Result<(), Error>,
)
    decreases idx.len(),
{
    if idx.len() == 0 {
        (es, Err(Error::InvalidIndices))
    } else if (idx[0] as int) >= es.len() {
        (es, Err(Error::IndexOutOfRange))
    } else if idx.len() == 1 {
        (es, Ok(()))
    } else {
        match es[idx[0] as int] {
            SpecEntry::Nested(inner) => {
                let (inner2, r) = spec_prepare(inner, idx.drop_first());
                (es.update(idx[0] as int, SpecEntry::Nested(inner2)), r)
            },
            SpecEntry::Raw(b) => match spec_decode(b) {
                Ok(parts) => {
                    let (inner2, r) = spec_prepare(raw_entries(parts), idx.drop_first());
                    (es.update(idx[0] as int, SpecEntry::Nested(inner2)), r)
                },
                Err(_) => (es, Err(Error::InvalidIndices)),
            },
            _ => (es, Err(Error::InvalidIndices)),
        }
    }
}

/// A walk that answers `Ok` leaves the path prepared.
pub proof fn lemma_prepare_prepares(es: Seq<SpecEntry>, idx: Seq<usize>)
    requires
        spec_prepare(es, idx).1 is Ok,
    ensures
        path_prepared(spec_prepare(es, idx).0, idx),
    decreases idx.len(),
{
    if idx.len() > 1 {
        match es[idx[0] as int] {
            SpecEntry::Nested(inner) => {
                lemma_prepare_prepares(inner, idx.drop_first());
            },
            SpecEntry::Raw(b) => {
                lemma_prepare_prepares(raw_entries(spec_decode(b)->Ok_0), idx.drop_first());
            },
            _ => {},
        }
    }
}

impl Entry {
    /// Serializes this entry's current interpretation to its wire bytes.
    ///
    /// Fails exactly when a container nested in the entry would not fit
    /// the format when encoded.
    pub fn encode(&self) -> (r: Result<Vec<u8>, Error>)
        ensures
            match r {
                Ok(b) => entry_encodable(self@) && b@ == spec_entry_bytes(self@),
                Err(e) => e == Error::TooLarge && !entry_encodable(self@),
            },
        decreases self,
    {
        match self {
            Entry::RawData(v) => Ok(slice_to_vec(v.as_slice())),
            Entry::Utf8String(s) => {
                let mut b = s.as_str().as_bytes_vec();
                b.push(0);
                proof {
                    assert(b@ =~= spec_entry_bytes(self@));
                }
                Ok(b)
            },
            Entry::Utf16String(s) => {
                let units = encode_utf16_units(s.as_str());
                let mut b: Vec<u8> = Vec::new();
                b.push(0xff);
                b.push(0xfe);
                let m = units.len();
                for i in 0..m
                    invariant
                        m == units@.len(),
                        units@ == utf16_units_of(s@),
                        b@ == seq![0xffu8, 0xfeu8] + units_le_bytes(units@.take(i as int)),
                {
                    push_u16_le(&mut b, units[i]);
                    proof {
                        assert(units@.take(i + 1).drop_last() =~= units@.take(i as int));
                        assert(units@.take(i + 1).last() == units@[i as int]);
                        assert(b@ =~= seq![0xffu8, 0xfeu8] + units_le_bytes(
                            units@.take(i + 1),
                        ));
                    }
                }
                b.push(0);
                b.push(0);
                proof {
                    assert(units@.take(m as int) =~= units@);
                    assert(b@ =~= spec_entry_bytes(self@));
                }
                Ok(b)
            },
            Entry::NestedContainer(p) => p.repack(),
        }
    }

    /// Replaces the slot's value wholesale, discarding whatever
    /// interpretation it held.
    pub fn replace(&mut self, value: Entry)
        ensures
            *final(self) == value,
    {
        *self = value;
    }

    /// Reads the entry as NUL-terminated UTF-8 text, caching the promoted
    /// interpretation: raw bytes are interpreted up to their first zero
    /// byte, and the slot keeps the decoded text on success. Returns
    /// `None`, and leaves the slot as it was, when the entry holds no
    /// interpretable UTF-8 text.
    pub fn as_utf8(&mut self) -> (r: Option<String>)
        ensures
            final(self)@ == spec_as_utf8(old(self)@).0,
            match r {
                Some(s) => spec_as_utf8(old(self)@).1 == Some(s@),
                None => spec_as_utf8(old(self)@).1 is None,
            },
    {
        let prefix: Vec<u8> = match &*self {
            Entry::Utf8String(s) => {
                return Some(s.clone());
            },
            Entry::RawData(b) => {
                let n = b.len();
                let mut k: usize = 0;
                let mut found = false;
                while k < n && !found
                    invariant
                        n == b@.len(),
                        0 <= k <= n,
                        forall|j: int| 0 <= j < k ==> b@[j] != 0,
                        found ==> k < n && b@[k as int] == 0,
                    decreases n - k + (if found { 0int } else { 1int }),
                {
                    if b[k] == 0 {
                        found = true;
                    } else {
                        k = k + 1;
                    }
                }
                proof {
                    lemma_first_zero(b@);
                }
                if !found {
                    return None;
                }
                proof {
                    assert(first_zero(b@) == k as int);
                }
                slice_to_vec(slice_subrange(b.as_slice(), 0, k))
            },
            _ => {
                return None;
            },
        };
        match string_from_utf8(prefix) {
            Some(s) => {
                let out = s.clone();
                *self = Entry::Utf8String(s);
                Some(out)
            },
            None => None,
        }
    }

    /// Reads the entry as byte-order-marked, NUL-terminated UTF-16 text,
    /// caching the promoted interpretation: the raw bytes must begin with
    /// `FF FE`, and the little-endian code units up to the first zero unit
    /// must form valid UTF-16. Returns `None`, and leaves the slot as it
    /// was, otherwise.
    pub fn as_utf16(&mut self) -> (r: Option<String>)
        ensures
            final(self)@ == spec_as_utf16(old(self)@).0,
            match r {
                Some(s) => spec_as_utf16(old(self)@).1 == Some(s@),
                None => spec_as_utf16(old(self)@).1 is None,
            },
    {
        let units: Vec<u16> = match &*self {
            Entry::Utf16String(s) => {
                return Some(s.clone());
            },
            Entry::RawData(b) => {
                let n = b.len();
                if n < 2 {
                    return None;
                }
                if b[0] != 0xff || b[1] != 0xfe {
                    return None;
                }
                let ghost tail = b@.skip(2);
                let ghost us = units_from_bytes(tail);
                proof {
                    lemma_units_from_bytes(tail);
                }
                let m = (n - 2) / 2;
                let mut units: Vec<u16> = Vec::new();
                let mut k: usize = 0;
                let mut found = false;
                while k < m && !found
                    invariant
                        n == b@.len(),
                        n >= 2,
                        tail == b@.skip(2),
                        us == units_from_bytes(tail),
                        us.len() == m,
                        m == (n - 2) / 2,
                        0 <= k <= m,
                        forall|i: int| 0 <= i < m ==> us[i] == le16_at(tail, 2 * i),
                        units@.len() == k,
                        forall|j: int| 0 <= j < k ==> units@[j] == us[j] && us[j] != 0,
                        found ==> k < m && us[k as int] == 0,
                    decreases m - k + (if found { 0int } else { 1int }),
                {
                    let u = read_u16_le(b.as_slice(), 2 + 2 * k);
                    proof {
                        assert(tail.subrange(2 * k, 2 * k + 2) =~= b@.subrange(
                            2 + 2 * k,
                            2 + 2 * k + 2,
                        ));
                        assert(le16_at(tail, 2 * k) == le16_at(b@, 2 + 2 * k));
                    }
                    if u == 0 {
                        found = true;
                    } else {
                        units.push(u);
                        k = k + 1;
                    }
                }
                proof {
                    lemma_first_zero_unit(us);
                }
                if !found {
                    return None;
                }
                proof {
                    assert(first_zero_unit(us) == k as int);
                    assert(units@ =~= us.take(first_zero_unit(us)));
                }
                units
            },
            _ => {
                return None;
            },
        };
        match string_from_utf16(units.as_slice()) {
            Some(s) => {
                let out = s.clone();
                *self = Entry::Utf16String(s);
                Some(out)
            },
            None => None,
        }
    }
}

/// What promoting an entry to a sub-container does: raw bytes are decoded
/// in place; an already decoded sub-container is handed back as it is; a
/// text entry cannot be reinterpreted.
pub open spec fn spec_as_sub(e: SpecEntry) -> (SpecEntry, Result<(), Error>) {
    match e {
        SpecEntry::Nested(_) => (e, Ok(())),
        SpecEntry::Raw(b) => match spec_decode(b) {
            Ok(parts) => (SpecEntry::Nested(raw_entries(parts)), Ok(())),
            Err(err) => (e, Err(err)),
        },
        _ => (e, Err(Error::InvalidIndices)),
    }
}

/// Updating one slot updates one slot of the view.
proof fn lemma_entries_view_update(s: Seq<Entry>, i: int, e: Entry)
    requires
        0 <= i < s.len(),
    ensures
        entries_view(s.update(i, e)) == entries_view(s).update(i, entry_view(e)),
{
    lemma_entries_view(s);
    lemma_entries_view(s.update(i, e));
    assert forall|j: int| 0 <= j < s.len() implies entries_view(s.update(i, e))[j]
        == entries_view(s).update(i, entry_view(e))[j] by {
        if j == i {
            assert(s.update(i, e)[j] == e);
        } else {
            assert(s.update(i, e)[j] == s[j]);
        }
    }
    assert(entries_view(s.update(i, e)) =~= entries_view(s).update(i, entry_view(e)));
}

impl Entry {
    /// Reads the entry as a nested container, caching the promoted
    /// interpretation: raw bytes are decoded in place and the slot then
    /// owns the decoded sub-container. Fails with the decode's error on
    /// undecodable bytes, with `InvalidIndices` on a text entry; the slot
    /// is then left as it was.
    pub fn as_subcontainer(&mut self) -> (r: Result<&mut Pak, Error>)
        ensures
            match r {
                Ok(p) => spec_as_sub(old(self)@).1 is Ok && SpecEntry::Nested((*p)@)
                    == spec_as_sub(old(self)@).0 && final(self)@ == SpecEntry::Nested(
                    final(p)@,
                ),
                Err(e) => spec_as_sub(old(self)@).1 == Err::<(), Error>(e) && *final(self)
                    == *old(self),
            },
    {
        match &*self {
            Entry::NestedContainer(_) => {},
            Entry::RawData(b) => {
                match Pak::decode(b.as_slice()) {
                    Ok(sub) => {
                        *self = Entry::NestedContainer(Box::new(sub));
                    },
                    Err(e) => {
                        return Err(e);
                    },
                }
            },
            _ => {
                return Err(Error::InvalidIndices);
            },
        }
        match self {
            Entry::NestedContainer(p) => Ok(&mut **p),
            _ => vstd::pervasive::unreached(),
        }
    }
}

/// Walks the index path, decoding raw entries into sub-containers on the
/// way down, so that the path afterwards points at an existing slot.
///
/// Fails with `IndexOutOfRange` when an index is beyond an entry list,
/// and with `InvalidIndices` when the path is empty or runs through an
/// entry that cannot be interpreted as a sub-container; promotions made
/// before the failure stay.
pub fn prepare_path(pak: &mut Pak, indices: &[usize]) -> (r: Result<(), Error>)
    ensures
        final(pak)@ == spec_prepare(old(pak)@, indices@).0,
        r == spec_prepare(old(pak)@, indices@).1,
    decreases indices@.len(),
{
    proof {
        lemma_entries_view(pak.entries@);
    }
    if indices.len() == 0 {
        return Err(Error::InvalidIndices);
    }
    let i0 = indices[0];
    if i0 >= pak.entries.len() {
        return Err(Error::IndexOutOfRange);
    }
    if indices.len() == 1 {
        return Ok(());
    }
    let rest = slice_subrange(indices, 1, indices.len());
    proof {
        assert(rest@ =~= indices@.drop_first());
    }
    let ghost old_entries = pak.entries@;
    let slot = vstd::std_specs::vec::vec_index_mut(&mut pak.entries, i0);
    let r = match slot.as_subcontainer() {
        Ok(sub) => prepare_path(sub, rest),
        Err(_) => Err(Error::InvalidIndices),
    };
    proof {
        lemma_entries_view_update(old_entries, i0 as int, *final(slot));
    }
    r
}

/// Hands out the slot a prepared path points at, for direct read or
/// replacement.
pub fn index_mut<'a>(pak: &'a mut Pak, indices: &[usize]) -> (r: &'a mut Entry)
    requires
        path_prepared(old(pak)@, indices@),
    ensures
        (*r)@ == entry_at(old(pak)@, indices@),
        final(pak)@ == update_at(old(pak)@, indices@, final(r)@),
    decreases indices@.len(),
{
    proof {
        lemma_entries_view(pak.entries@);
    }
    let i0 = indices[0];
    let ghost old_entries = pak.entries@;
    if indices.len() == 1 {
        let slot = vstd::std_specs::vec::vec_index_mut(&mut pak.entries, i0);
        proof {
            lemma_entries_view_update(old_entries, i0 as int, *final(slot));
        }
        slot
    } else {
        let rest = slice_subrange(indices, 1, indices.len());
        proof {
            assert(rest@ =~= indices@.drop_first());
        }
        let slot = vstd::std_specs::vec::vec_index_mut(&mut pak.entries, i0);
        proof {
            lemma_entries_view_update(old_entries, i0 as int, *final(slot));
        }
        match slot {
            Entry::NestedContainer(p) => index_mut(&mut **p, rest),
            _ => vstd::pervasive::unreached(),
        }
    }
}

/// Resolves the path and overwrites the resolved slot with a raw-bytes
/// entry, discarding any previous interpretation.
pub fn replace_data(pak: &mut Pak, indices: &[usize], data: Vec<u8>) -> (r: Result<(), Error>)
    ensures
        r == spec_prepare(old(pak)@, indices@).1,
        final(pak)@ == (match spec_prepare(old(pak)@, indices@) {
            (es, Ok(())) => update_at(es, indices@, SpecEntry::Raw(data@)),
            (es, Err(_)) => es,
        }),
{
    replace_entry(pak, indices, Entry::RawData(data))
}

/// Resolves the path and overwrites the resolved slot with UTF-8 text.
pub fn replace_utf8(pak: &mut Pak, indices: &[usize], value: String) -> (r: Result<(), Error>)
    ensures
        r == spec_prepare(old(pak)@, indices@).1,
        final(pak)@ == (match spec_prepare(old(pak)@, indices@) {
            (es, Ok(())) => update_at(es, indices@, SpecEntry::Utf8(value@)),
            (es, Err(_)) => es,
        }),
{
    replace_entry(pak, indices, Entry::Utf8String(value))
}

/// Resolves the path and overwrites the resolved slot with UTF-16 text.
pub fn replace_utf16(pak: &mut Pak, indices: &[usize], value: String) -> (r: Result<(), Error>)
    ensures
        r == spec_prepare(old(pak)@, indices@).1,
        final(pak)@ == (match spec_prepare(old(pak)@, indices@) {
            (es, Ok(())) => update_at(es, indices@, SpecEntry::Utf16(value@)),
            (es, Err(_)) => es,
        }),
{
    replace_entry(pak, indices, Entry::Utf16String(value))
}

/// Resolves the path and overwrites the resolved slot with the given
/// entry, discarding any previous interpretation.
pub fn replace_entry(pak: &mut Pak, indices: &[usize], value: Entry) -> (r: Result<(), Error>)
    ensures
        r == spec_prepare(old(pak)@, indices@).1,
        final(pak)@ == (match spec_prepare(old(pak)@, indices@) {
            (es, Ok(())) => update_at(es, indices@, entry_view(value)),
            (es, Err(_)) => es,
        }),
{
    let ghost pre = spec_prepare(old(pak)@, indices@);
    let r0 = prepare_path(pak, indices);
    match r0 {
        Err(e) => Err(e),
        Ok(u) => {
            proof {
                lemma_prepare_prepares(old(pak)@, indices@);
            }
            let slot = index_mut(pak, indices);
            *slot = value;
            Ok(u)
        },
    }
}

/// The decoded offset table of a container buffer, before the entry
/// boundaries against the buffer length are checked.
pub struct Header {
    pub offsets: Vec<u32>,
}

/// What reading the offset table yields: the table's offsets, which must
/// ascend strictly among themselves, or the error the buffer earns.
pub open spec fn spec_read_header(data: Seq<u8>) -> Result<Seq<u32>, Error> {
    if data.len() < 4 {
        Err(Error::UnexpectedEnd)
    } else {
        let count = le32_at(data, 0) as int;
        if data.len() < 4 + 4 * count {
            Err(Error::UnexpectedEnd)
        } else if !(forall|i: int, j: int|
            #![trigger le32_at(data, 4 + 4 * i), le32_at(data, 4 + 4 * j)]
            0 <= i < j < count ==> le32_at(data, 4 + 4 * i) < le32_at(data, 4 + 4 * j)) {
            Err(Error::InvalidOffsetTable)
        } else {
            Ok(Seq::new(count as nat, |i: int| le32_at(data, 4 + 4 * i)))
        }
    }
}

impl Header {
    /// Reads the entry count and the offsets that follow it, requiring
    /// the offsets to ascend strictly among themselves. The final
    /// boundary against the buffer length is not checked here: that is
    /// the decoder's concern.
    pub fn read_from(data: &[u8]) -> (r: Result<Header, Error>)
        ensures
            match spec_read_header(data@) {
                Ok(offs) => r matches Ok(h) && h.offsets@ == offs,
                Err(e) => r matches Err(e2) && e2 == e,
            },
    {
        let n = data.len();
        if n < 4 {
            return Err(Error::UnexpectedEnd);
        }
        let count32 = read_u32_le(data, 0);
        let need: u64 = 4u64 + 4u64 * (count32 as u64);
        if (n as u64) < need {
            return Err(Error::UnexpectedEnd);
        }
        let count = count32 as usize;
        let ghost gcount = count as int;

        let mut offsets: Vec<u32> = Vec::new();
        for i in 0..count
            invariant
                n == data@.len(),
                gcount == le32_at(data@, 0) as int,
                4 + 4 * gcount <= n,
                count == gcount,
                offsets@.len() == i,
                forall|j: int| 0 <= j < i ==> offsets@[j] == le32_at(data@, 4 + 4 * j),
                forall|j: int| 0 <= j < i - 1 ==> #[trigger] offsets@[j] < offsets@[j + 1],
        {
            let off = read_u32_le(data, 4 + 4 * i);
            if i > 0 {
                if offsets[i - 1] >= off {
                    proof {
                        assert(le32_at(data@, 4 + 4 * (i - 1)) == offsets@[i - 1]);
                        assert(le32_at(data@, 4 + 4 * (i as int)) == off);
                        assert(spec_read_header(data@) == Err::<Seq<u32>, Error>(
                            Error::InvalidOffsetTable,
                        )) by {
                            if spec_read_header(data@) is Ok {
                                assert(le32_at(data@, 4 + 4 * (i - 1)) < le32_at(
                                    data@,
                                    4 + 4 * (i as int),
                                ));
                            }
                        }
                    }
                    return Err(Error::InvalidOffsetTable);
                }
            }
            offsets.push(off);
        }
        proof {
            assert forall|i: int, j: int|
                #![trigger le32_at(data@, 4 + 4 * i), le32_at(data@, 4 + 4 * j)]
                0 <= i < j < gcount implies le32_at(data@, 4 + 4 * i) < le32_at(
                data@,
                4 + 4 * j,
            ) by {
                lemma_vec_ascending(offsets@, i, j);
            }
            assert(offsets@ =~= spec_read_header(data@)->Ok_0);
        }
        Ok(Header { offsets })
    }
}

/// `units_from_bytes` lists the 16-bit little-endian words of the bytes.
pub proof fn lemma_units_from_bytes(t: Seq<u8>)
    ensures
        units_from_bytes(t).len() == t.len() / 2,
        forall|i: int|
            0 <= i < t.len() / 2 ==> units_from_bytes(t)[i] == le16_at(t, 2 * i),
    decreases t.len(),
{
    if t.len() >= 2 {
        lemma_units_from_bytes(t.skip(2));
        let rest = t.skip(2);
        assert forall|i: int|
            0 <= i < t.len() / 2 implies units_from_bytes(t)[i] == le16_at(t, 2 * i) by {
            if i > 0 {
                assert(units_from_bytes(t)[i] == units_from_bytes(rest)[i - 1]);
                assert(units_from_bytes(rest)[i - 1] == le16_at(rest, 2 * (i - 1)));
                assert(rest.subrange(2 * (i - 1), 2 * (i - 1) + 2) =~= t.subrange(
                    2 * i,
                    2 * i + 2,
                ));
            }
        }
    }
}

} // verus!
