//! The binary instruction stream of a game script, and its decompiled
//! text form. A script payload is a container whose first entry holds
//! the instruction bytes and whose optional second entry may hold a
//! container of UTF-16 strings.

use vstd::prelude::*;
use crate::bytes::{be16_at, le16_at, read_u16_be, read_u16_le};
use crate::encoding::{decode_utf16_le, spec_decode_utf16_le};
use crate::pak::{Entry, Pak, raw_entries, spec_decode};

verus! {

/// The fixed argument length of each low instruction opcode.
pub open spec fn spec_arg_length(op: u8) -> u8 {
    if op == 0x00 {
        2
    } else if op == 0x01 {
        4
    } else if op == 0x02 {
        2
    } else if op == 0x03 {
        1
    } else if op == 0x04 {
        4
    } else if op == 0x05 {
        2
    } else if op == 0x06 {
        8
    } else if op == 0x07 {
        5
    } else if op == 0x08 {
        5
    } else if op == 0x09 {
        3
    } else if op == 0x0a {
        3
    } else if op == 0x0b {
        2
    } else if op == 0x0c {
        2
    } else if op == 0x0d {
        3
    } else if op == 0x0e {
        2
    } else if op == 0x0f {
        3
    } else if op == 0x10 {
        3
    } else if op == 0x11 {
        4
    } else if op == 0x12 {
        2
    } else if op == 0x13 {
        2
    } else if op == 0x14 {
        6
    } else if op == 0x15 {
        4
    } else if op == 0x16 {
        2
    } else if op == 0x17 {
        14
    } else if op == 0x18 {
        14
    } else if op == 0x19 {
        5
    } else if op == 0x1a {
        0
    } else if op == 0x1b {
        5
    } else if op == 0x1c {
        0
    } else if op == 0x1d {
        0
    } else if op == 0x1e {
        5
    } else if op == 0x1f {
        7
    } else if op == 0x20 {
        5
    } else if op == 0x21 {
        1
    } else if op == 0x22 {
        3
    } else if op == 0x23 {
        5
    } else if op == 0x24 {
        4
    } else if op == 0x25 {
        2
    } else if op == 0x26 {
        3
    } else if op == 0x27 {
        1
    } else if op == 0x28 {
        4
    } else if op == 0x29 {
        13
    } else if op == 0x2a {
        12
    } else if op == 0x2b {
        1
    } else if op == 0x2c {
        2
    } else if op == 0x2d {
        12
    } else if op == 0x2e {
        5
    } else if op == 0x2f {
        2
    } else if op == 0x30 {
        2
    } else if op == 0x31 {
        0
    } else if op == 0x32 {
        1
    } else if op == 0x33 {
        4
    } else if op == 0x34 {
        3
    } else if op == 0x35 {
        2
    } else if op == 0x36 {
        1
    } else if op == 0x37 {
        3
    } else if op == 0x38 {
        2
    } else if op == 0x39 {
        2
    } else if op == 0x3a {
        4
    } else if op == 0x3b {
        2
    } else if op == 0x3c {
        4
    } else if op == 0x3d {
        5
    } else if op == 0x3e {
        2
    } else if op == 0x3f {
        0
    } else if op == 0x40 {
        0
    } else if op == 0x41 {
        0
    } else if op == 0x42 {
        0
    } else if op == 0x43 {
        0
    } else if op == 0x44 {
        0
    } else if op == 0x45 {
        0
    } else if op == 0x46 {
        0
    } else if op == 0x47 {
        0
    } else if op == 0x48 {
        0
    } else if op == 0x49 {
        0
    } else if op == 0x4a {
        0
    } else if op == 0x4b {
        0
    } else if op == 0x4c {
        0
    } else if op == 0x4d {
        0
    } else {
        0
    }
}

/// Exec lookup of `spec_arg_length`.
fn arg_length(op: u8) -> (r: u8)
    ensures
        r == spec_arg_length(op),
{
    match op {
        0x00 => 2,
        0x01 => 4,
        0x02 => 2,
        0x03 => 1,
        0x04 => 4,
        0x05 => 2,
        0x06 => 8,
        0x07 => 5,
        0x08 => 5,
        0x09 => 3,
        0x0a => 3,
        0x0b => 2,
        0x0c => 2,
        0x0d => 3,
        0x0e => 2,
        0x0f => 3,
        0x10 => 3,
        0x11 => 4,
        0x12 => 2,
        0x13 => 2,
        0x14 => 6,
        0x15 => 4,
        0x16 => 2,
        0x17 => 14,
        0x18 => 14,
        0x19 => 5,
        0x1a => 0,
        0x1b => 5,
        0x1c => 0,
        0x1d => 0,
        0x1e => 5,
        0x1f => 7,
        0x20 => 5,
        0x21 => 1,
        0x22 => 3,
        0x23 => 5,
        0x24 => 4,
        0x25 => 2,
        0x26 => 3,
        0x27 => 1,
        0x28 => 4,
        0x29 => 13,
        0x2a => 12,
        0x2b => 1,
        0x2c => 2,
        0x2d => 12,
        0x2e => 5,
        0x2f => 2,
        0x30 => 2,
        0x31 => 0,
        0x32 => 1,
        0x33 => 4,
        0x34 => 3,
        0x35 => 2,
        0x36 => 1,
        0x37 => 3,
        0x38 => 2,
        0x39 => 2,
        0x3a => 4,
        0x3b => 2,
        0x3c => 4,
        0x3d => 5,
        0x3e => 2,
        0x3f => 0,
        0x40 => 0,
        0x41 => 0,
        0x42 => 0,
        0x43 => 0,
        0x44 => 0,
        0x45 => 0,
        0x46 => 0,
        0x47 => 0,
        0x48 => 0,
        0x49 => 0,
        0x4a => 0,
        0x4b => 0,
        0x4c => 0,
        0x4d => 0,
        _ => 0,
    }
}

/// One decoded instruction of the binary stream.
pub enum Instruction {
    TextCount(u16),
    Text(u16),
    Stop,
    Return,
    Raw(Vec<u8>),
}

/// Mathematical model of one instruction.
pub ghost enum SpecInstruction {
    TextCount(u16),
    Text(u16),
    Stop,
    Return,
    Raw(Seq<u8>),
}

impl View for Instruction {
    type V = SpecInstruction;

    open spec fn view(&self) -> SpecInstruction {
        match self {
            Instruction::TextCount(c) => SpecInstruction::TextCount(*c),
            Instruction::Text(i) => SpecInstruction::Text(*i),
            Instruction::Stop => SpecInstruction::Stop,
            Instruction::Return => SpecInstruction::Return,
            Instruction::Raw(v) => SpecInstruction::Raw(v@),
        }
    }
}

/// What reading one instruction from the head of the stream yields: the
/// instruction and how many bytes it took, or `None` when the stream is
/// empty or ends inside an instruction. A byte other than the `0x70`
/// marker passes through as a one-byte raw instruction; a known opcode
/// decodes to its typed form; an unknown low opcode keeps its marker,
/// opcode and fixed-length arguments as raw bytes; an invalid high
/// opcode yields the two bytes raw.
pub open spec fn spec_read(data: Seq<u8>) -> Option<(SpecInstruction, int)> {
    if data.len() == 0 {
        None
    } else if data[0] != 0x70 {
        Some((SpecInstruction::Raw(seq![data[0]]), 1))
    } else if data.len() < 2 {
        None
    } else {
        let op = data[1];
        if op == 0x00 {
            if data.len() >= 4 {
                Some((SpecInstruction::TextCount(le16_at(data, 2)), 4))
            } else {
                None
            }
        } else if op == 0x02 {
            if data.len() >= 4 {
                Some((SpecInstruction::Text(be16_at(data, 2)), 4))
            } else {
                None
            }
        } else if op == 0x1a {
            Some((SpecInstruction::Stop, 2))
        } else if op == 0x1c {
            Some((SpecInstruction::Return, 2))
        } else if op >= 0x4e {
            Some((SpecInstruction::Raw(data.subrange(0, 2)), 2))
        } else {
            let al = spec_arg_length(op) as int;
            if data.len() >= 2 + al {
                Some((SpecInstruction::Raw(data.subrange(0, 2 + al)), 2 + al))
            } else {
                None
            }
        }
    }
}

/// Reading an instruction always consumes at least one byte, and never
/// more than the stream holds.
pub proof fn lemma_spec_read_advances(data: Seq<u8>)
    ensures
        spec_read(data) matches Some((_, sz)) ==> 1 <= sz <= data.len(),
{
}

impl Instruction {
    /// Reads one instruction from the head of the stream, yielding it
    /// and the number of bytes it took.
    pub fn read(data: &[u8]) -> (r: Option<(Instruction, usize)>)
        ensures
            match spec_read(data@) {
                Some((i, sz)) => r matches Some((i2, sz2)) && i2@ == i && sz2 == sz,
                None => r is None,
            },
    {
        let n = data.len();
        if n == 0 {
            return None;
        }
        if data[0] != 0x70 {
            let mut v: Vec<u8> = Vec::new();
            v.push(data[0]);
            proof {
                assert(v@ =~= seq![data@[0]]);
            }
            return Some((Instruction::Raw(v), 1));
        }
        if n < 2 {
            return None;
        }
        let op = data[1];
        if op == 0x00 {
            if n >= 4 {
                Some((Instruction::TextCount(read_u16_le(data, 2)), 4))
            } else {
                None
            }
        } else if op == 0x02 {
            if n >= 4 {
                Some((Instruction::Text(read_u16_be(data, 2)), 4))
            } else {
                None
            }
        } else if op == 0x1a {
            Some((Instruction::Stop, 2))
        } else if op == 0x1c {
            Some((Instruction::Return, 2))
        } else if op >= 0x4e {
            let v = vstd::slice::slice_to_vec(vstd::slice::slice_subrange(data, 0, 2));
            Some((Instruction::Raw(v), 2))
        } else {
            let al = arg_length(op) as usize;
            if n >= 2 + al {
                let v = vstd::slice::slice_to_vec(vstd::slice::slice_subrange(data, 0, 2 + al));
                Some((Instruction::Raw(v), 2 + al))
            } else {
                None
            }
        }
    }

    /// Reads one instruction and advances the stream past it; a stream
    /// that holds no complete instruction is left as it was.
    pub fn read_and_advance(data: &mut &[u8]) -> (r: Option<Instruction>)
        ensures
            match spec_read(old(data)@) {
                Some((i, sz)) => r matches Some(i2) && i2@ == i && final(data)@ == old(
                    data,
                )@.skip(sz),
                None => r is None && final(data)@ == old(data)@,
            },
    {
        proof {
            lemma_spec_read_advances(data@);
        }
        match Instruction::read(*data) {
            Some((instruction, size)) => {
                *data = vstd::slice::slice_subrange(*data, size, data.len());
                proof {
                    assert(data@ =~= old(data)@.skip(size as int));
                }
                Some(instruction)
            },
            None => None,
        }
    }
}

/// A decoder over an instruction stream, handing instructions out one at
/// a time from the front.
pub struct Instructions<'a>(&'a [u8]);

impl<'a> Instructions<'a> {
    /// The bytes not yet decoded.
    pub closed spec fn bytes(&self) -> Seq<u8> {
        self.0@
    }

    /// Wraps an instruction stream for decoding.
    pub fn decode(data: &'a [u8]) -> (r: Self)
        ensures
            r.bytes() == data@,
    {
        Self(data)
    }

    /// Decodes the next instruction, or stops at the first position that
    /// holds no complete instruction.
    pub fn next(&mut self) -> (r: Option<Instruction>)
        ensures
            match spec_read(old(self).bytes()) {
                Some((i, sz)) => r matches Some(i2) && i2@ == i && final(self).bytes() == old(
                    self,
                ).bytes().skip(sz),
                None => r is None && final(self).bytes() == old(self).bytes(),
            },
    {
        Instruction::read_and_advance(&mut self.0)
    }
}

/// The instruction list decoded from a stream: instructions read back to
/// back until the stream is exhausted or holds no complete instruction.
pub open spec fn spec_instructions(data: Seq<u8>) -> Seq<SpecInstruction>
    decreases data.len(),
    via spec_instructions_dec
{
    match spec_read(data) {
        None => Seq::empty(),
        Some((i, sz)) => seq![i] + spec_instructions(data.skip(sz)),
    }
}

#[via_fn]
proof fn spec_instructions_dec(data: Seq<u8>) {
    lemma_spec_read_advances(data);
}

/// A decoded script: its instructions and its string table.
pub struct Script {
    pub instructions: Vec<Instruction>,
    pub strings: Vec<String>,
}

/// The string table decoded from a container's entries: every entry must
/// decode as UTF-16 text.
pub open spec fn spec_strings(parts: Seq<Seq<u8>>) -> Option<Seq<Seq<char>>>
    decreases parts.len(),
{
    if parts.len() == 0 {
        Some(Seq::empty())
    } else {
        match spec_decode_utf16_le(parts[0]) {
            None => None,
            Some(s) => match spec_strings(parts.drop_first()) {
                None => None,
                Some(rest) => Some(seq![s] + rest),
            },
        }
    }
}

/// What decoding a script payload yields: the payload must be a container
/// of one or two entries; the first holds the instruction stream, the
/// second, when present, a container of UTF-16 strings.
pub open spec fn spec_script_decode(data: Seq<u8>) -> Option<(
    Seq<SpecInstruction>,
    Seq<Seq<char>>,
)> {
    match spec_decode(data) {
        Err(_) => None,
        Ok(parts) => {
            if parts.len() != 1 && parts.len() != 2 {
                None
            } else {
                let instrs = spec_instructions(parts[0]);
                if parts.len() == 1 {
                    Some((instrs, Seq::empty()))
                } else {
                    match spec_decode(parts[1]) {
                        Err(_) => None,
                        Ok(sparts) => match spec_strings(sparts) {
                            None => None,
                            Some(strs) => Some((instrs, strs)),
                        },
                    }
                }
            }
        },
    }
}

/// `spec_strings` succeeds exactly when every entry decodes, and then
/// lists the decoded strings in order.
proof fn lemma_spec_strings(parts: Seq<Seq<u8>>)
    ensures
        spec_strings(parts) is Some <==> (forall|j: int|
            0 <= j < parts.len() ==> spec_decode_utf16_le(#[trigger] parts[j]) is Some),
        spec_strings(parts) matches Some(strs) ==> strs.len() == parts.len() && (forall|j: int|
            0 <= j < parts.len() ==> Some(strs[j]) == spec_decode_utf16_le(#[trigger] parts[j])),
    decreases parts.len(),
{
    if parts.len() > 0 {
        lemma_spec_strings(parts.drop_first());
        let t = parts.drop_first();
        if spec_decode_utf16_le(parts[0]) is Some && (forall|j: int|
            0 <= j < t.len() ==> spec_decode_utf16_le(#[trigger] t[j]) is Some) {
            assert forall|j: int|
                0 <= j < parts.len() implies spec_decode_utf16_le(#[trigger] parts[j]) is Some by {
                if j > 0 {
                    assert(t[j - 1] == parts[j]);
                }
            }
        }
        if forall|j: int| 0 <= j < parts.len() ==> spec_decode_utf16_le(#[trigger] parts[j])
            is Some {
            assert forall|j: int|
                0 <= j < t.len() implies spec_decode_utf16_le(#[trigger] t[j]) is Some by {
                assert(t[j] == parts[j + 1]);
            }
        }
        match spec_strings(parts) {
            Some(strs) => {
                assert forall|j: int| 0 <= j < parts.len() implies Some(strs[j])
                    == spec_decode_utf16_le(#[trigger] parts[j]) by {
                    if j > 0 {
                        assert(t[j - 1] == parts[j]);
                        assert(strs[j] == spec_strings(t)->Some_0[j - 1]);
                    }
                }
            },
            None => {},
        }
    }
}

impl Script {
    /// Decodes a script payload: a container of one or two entries, the
    /// first the instruction stream, the second an optional container of
    /// UTF-16 strings.
    pub fn decode(data: &[u8]) -> (r: Option<Script>)
        ensures
            match spec_script_decode(data@) {
                Some((instrs, strs)) => r matches Some(s) && s.instructions@.map_values(
                    |i: Instruction| i@,
                ) == instrs && s.strings.deep_view() == strs,
                None => r is None,
            },
    {
        let pak = match Pak::decode(data) {
            Ok(p) => p,
            Err(_) => {
                return None;
            },
        };
        let ghost parts = spec_decode(data@)->Ok_0;
        proof {
            crate::pak::lemma_entries_view(pak.entries@);
            assert(pak@.len() == raw_entries(parts).len());
            assert(pak.entries@.len() == parts.len());
        }
        let count = pak.entries.len();
        if count != 1 && count != 2 {
            return None;
        }

        let instruction_data: &Vec<u8> = match &pak.entries[0] {
            Entry::RawData(v) => v,
            _ => vstd::pervasive::unreached(),
        };
        proof {
            assert(instruction_data@ == parts[0]);
        }
        let mut instructions: Vec<Instruction> = Vec::new();
        let mut slice: &[u8] = instruction_data.as_slice();
        loop
            invariant
                spec_instructions(parts[0]) == instructions@.map_values(|i: Instruction| i@)
                    + spec_instructions(slice@),
            ensures
                spec_instructions(parts[0]) == instructions@.map_values(|i: Instruction| i@),
            decreases slice@.len(),
        {
            proof {
                lemma_spec_read_advances(slice@);
            }
            let ghost done = instructions@.map_values(|i: Instruction| i@);
            match Instruction::read_and_advance(&mut slice) {
                Some(i) => {
                    instructions.push(i);
                    proof {
                        assert(instructions@.map_values(|x: Instruction| x@) =~= done.push(i@));
                        assert(done.push(i@) + spec_instructions(slice@) =~= done + (seq![i@]
                            + spec_instructions(slice@)));
                    }
                },
                None => {
                    proof {
                        assert(spec_instructions(slice@) =~= Seq::<SpecInstruction>::empty());
                        assert(done + Seq::<SpecInstruction>::empty() =~= done);
                    }
                    break ;
                },
            }
        }

        let mut strings: Vec<String> = Vec::new();
        if count == 2 {
            let string_data: &Vec<u8> = match &pak.entries[1] {
                Entry::RawData(v) => v,
                _ => vstd::pervasive::unreached(),
            };
            proof {
                assert(string_data@ == parts[1]);
            }
            let spak = match Pak::decode(string_data.as_slice()) {
                Ok(p) => p,
                Err(_) => {
                    proof {
                        assert(string_data@ == parts[1]);
                        assert(spec_decode(parts[1]) is Err);
                        assert(parts.len() == 2);
                        assert(spec_script_decode(data@) is None);
                    }
                    return None;
                },
            };
            let ghost sparts = spec_decode(string_data@)->Ok_0;
            proof {
                crate::pak::lemma_entries_view(spak.entries@);
                lemma_spec_strings(sparts);
            }
            let m = spak.entries.len();
            for j in 0..m
                invariant
                    m == spak.entries@.len(),
                    sparts.len() == m,
                    spec_decode(data@) matches Ok(pp) && pp == parts,
                    parts.len() == 2,
                    count == 2,
                    spec_decode(parts[1]) matches Ok(sp) && sp == sparts,
                    spec_instructions(parts[0]) == instructions@.map_values(
                        |i: Instruction| i@,
                    ),
                    spak@ == raw_entries(sparts),
                    spak@ == crate::pak::entries_view(spak.entries@),
                    forall|k: int|
                        0 <= k < m ==> crate::pak::entries_view(spak.entries@)[k]
                            == crate::pak::entry_view(#[trigger] spak.entries@[k]),
                    strings@.len() == j,
                    forall|k: int|
                        0 <= k < j ==> spec_decode_utf16_le(#[trigger] sparts[k]) == Some(
                            strings@[k]@,
                        ),
            {
                let sb: &Vec<u8> = match &spak.entries[j] {
                    Entry::RawData(v) => v,
                    _ => vstd::pervasive::unreached(),
                };
                proof {
                    assert(sb@ == sparts[j as int]);
                }
                match decode_utf16_le(sb.as_slice()) {
                    Some(s) => {
                        strings.push(s);
                    },
                    None => {
                        proof {
                            lemma_spec_strings(sparts);
                            assert(spec_decode_utf16_le(sparts[j as int]) is None);
                            assert(spec_strings(sparts) is None);
                        }
                        return None;
                    },
                }
            }
            proof {
                lemma_spec_strings(sparts);
                assert(spec_strings(sparts) is Some);
                assert forall|k: int| 0 <= k < m as int implies strings.deep_view()[k]
                    == spec_strings(sparts)->Some_0[k] by {
                    assert(strings.deep_view()[k] == strings@[k]@);
                    assert(Some(spec_strings(sparts)->Some_0[k]) == spec_decode_utf16_le(
                        sparts[k],
                    ));
                }
                assert(strings.deep_view() =~= spec_strings(sparts)->Some_0);
            }
        }
        proof {
            if count == 1 {
                assert(strings.deep_view() =~= Seq::<Seq<char>>::empty());
            }
            assert(spec_script_decode(data@) matches Some((instrs, strs)) && instrs
                == instructions@.map_values(|i: Instruction| i@) && strs == strings.deep_view());
        }
        Some(Script { instructions, strings })
    }
}

/// The character of one decimal digit value.
pub open spec fn dec_char(d: int) -> char {
    ((0x30 + d) as u8) as char
}

/// The decimal spelling of a non-negative number.
pub open spec fn dec_chars(n: int) -> Seq<char>
    decreases n,
{
    if n < 10 {
        seq![dec_char(if n >= 0 {
            n
        } else {
            0
        })]
    } else {
        dec_chars(n / 10) + seq![dec_char(n % 10)]
    }
}

/// The character of one hexadecimal digit value, lower case.
pub open spec fn hex_char(d: int) -> char {
    if d < 10 {
        ((0x30 + d) as u8) as char
    } else {
        ((0x61 + (d - 10)) as u8) as char
    }
}

/// The two-digit hexadecimal spelling of a byte.
pub open spec fn hex2(b: u8) -> Seq<char> {
    seq![hex_char(b as int / 16), hex_char(b as int % 16)]
}

/// Appends the decimal spelling of `n`.
fn push_dec_u16(out: &mut String, n: u16)
    ensures
        final(out)@ == old(out)@ + dec_chars(n as int),
    decreases n,
{
    if n >= 10 {
        push_dec_u16(out, n / 10);
    }
    out.push(((0x30 + (n % 10)) as u8) as char);
}

/// Appends the two-digit hexadecimal spelling of `b`.
fn push_hex2(out: &mut String, b: u8)
    ensures
        final(out)@ == old(out)@ + hex2(b),
{
    let hi = b / 16;
    let lo = b % 16;
    let hc: u8 = if hi < 10 {
        0x30 + hi
    } else {
        0x61 + (hi - 10)
    };
    let lc: u8 = if lo < 10 {
        0x30 + lo
    } else {
        0x61 + (lo - 10)
    };
    out.push(hc as char);
    out.push(lc as char);
    proof {
        assert(out@ =~= old(out)@ + hex2(b));
    }
}

/// The `, 0x%02x` continuations for the raw bytes after the first.
pub open spec fn raw_tail_chars(v: Seq<u8>, k: int) -> Seq<char>
    decreases k,
{
    if k <= 1 {
        Seq::empty()
    } else {
        raw_tail_chars(v, k - 1) + ", 0x"@ + hex2(v[k - 1])
    }
}

/// The decompiled text of one instruction, given the script's string
/// table.
pub open spec fn spec_decompile_instr(i: SpecInstruction, strings: Seq<Seq<char>>) -> Seq<char> {
    match i {
        SpecInstruction::TextCount(c) => "text_count "@ + dec_chars(c as int),
        SpecInstruction::Text(ix) => "text `\n"@ + strings[ix as int] + "`"@,
        SpecInstruction::Stop => "stop"@,
        SpecInstruction::Return => "return"@,
        SpecInstruction::Raw(v) => "raw 0x"@ + hex2(v[0]) + raw_tail_chars(v, v.len() as int),
    }
}

/// The instruction refers only to strings the script has, and raw bytes
/// are never empty.
pub open spec fn instr_ok(i: SpecInstruction, strings: Seq<Seq<char>>) -> bool {
    match i {
        SpecInstruction::Text(ix) => (ix as int) < strings.len(),
        SpecInstruction::Raw(v) => v.len() >= 1,
        _ => true,
    }
}

impl Instruction {
    /// Renders the instruction in the script's text form: `text_count`
    /// and `text` with their payloads, `stop` and `return` bare, raw
    /// bytes as a comma-separated hexadecimal list.
    pub fn decompile(&self, script: &Script) -> (r: String)
        requires
            instr_ok(self@, script.strings.deep_view()),
        ensures
            r@ == spec_decompile_instr(self@, script.strings.deep_view()),
    {
        let mut out = String::new();
        match self {
            Instruction::TextCount(count) => {
                out.append("text_count ");
                push_dec_u16(&mut out, *count);
            },
            Instruction::Text(index) => {
                out.append("text `\n");
                out.append(script.strings[*index as usize].as_str());
                out.append("`");
                proof {
                    assert(script.strings.deep_view()[*index as int] == script.strings@[
                        *index as int
                    ]@);
                }
            },
            Instruction::Stop => {
                out.append("stop");
            },
            Instruction::Return => {
                out.append("return");
            },
            Instruction::Raw(data) => {
                out.append("raw 0x");
                push_hex2(&mut out, data[0]);
                let m = data.len();
                for k in 1..m
                    invariant
                        m == data@.len(),
                        m >= 1,
                        out@ == "raw 0x"@ + hex2(data@[0]) + raw_tail_chars(data@, k as int),
                {
                    out.append(", 0x");
                    push_hex2(&mut out, data[k]);
                    proof {
                        assert(out@ =~= "raw 0x"@ + hex2(data@[0]) + raw_tail_chars(
                            data@,
                            k + 1,
                        ));
                    }
                }
            },
        }
        proof {
            assert(out@ =~= spec_decompile_instr(self@, script.strings.deep_view()));
        }
        out
    }
}

/// The decompiled text of a whole instruction list: each instruction's
/// text followed by a newline.
pub open spec fn spec_decompile(instrs: Seq<SpecInstruction>, strings: Seq<Seq<char>>) -> Seq<
    char,
>
    decreases instrs.len(),
{
    if instrs.len() == 0 {
        Seq::empty()
    } else {
        spec_decompile_instr(instrs[0], strings) + seq!['\n'] + spec_decompile(
            instrs.drop_first(),
            strings,
        )
    }
}

/// Decompiling one more instruction appends its text and a newline.
proof fn lemma_decompile_push(
    instrs: Seq<SpecInstruction>,
    x: SpecInstruction,
    strings: Seq<Seq<char>>,
)
    ensures
        spec_decompile(instrs.push(x), strings) == spec_decompile(instrs, strings)
            + spec_decompile_instr(x, strings) + seq!['\n'],
    decreases instrs.len(),
{
    if instrs.len() == 0 {
        assert(instrs.push(x).drop_first() =~= Seq::<SpecInstruction>::empty());
        assert(instrs.push(x)[0] == x);
        assert(spec_decompile(Seq::<SpecInstruction>::empty(), strings)
            == Seq::<char>::empty());
        assert(spec_decompile(instrs.push(x), strings) =~= spec_decompile(instrs, strings)
            + spec_decompile_instr(x, strings) + seq!['\n']);
    } else {
        lemma_decompile_push(instrs.drop_first(), x, strings);
        assert(instrs.push(x).drop_first() =~= instrs.drop_first().push(x));
        assert(spec_decompile(instrs.push(x).drop_first(), strings) == spec_decompile(
            instrs.drop_first(),
            strings,
        ) + spec_decompile_instr(x, strings) + seq!['\n']);
        assert(instrs.push(x)[0] == instrs[0]);
        assert(spec_decompile(instrs.push(x), strings) =~= spec_decompile(instrs, strings)
            + spec_decompile_instr(x, strings) + seq!['\n']);
    }
}

impl Script {
    /// Renders the whole script in its text form, one instruction per
    /// line.
    pub fn decompile(&self) -> (r: String)
        requires
            forall|j: int|
                0 <= j < self.instructions@.len() ==> instr_ok(
                    (#[trigger] self.instructions@[j])@,
                    self.strings.deep_view(),
                ),
        ensures
            r@ == spec_decompile(
                self.instructions@.map_values(|i: Instruction| i@),
                self.strings.deep_view(),
            ),
    {
        let ghost ivs = self.instructions@.map_values(|i: Instruction| i@);
        let mut result = String::new();
        let n = self.instructions.len();
        proof {
            assert(ivs.take(0) =~= Seq::<SpecInstruction>::empty());
        }
        for j in 0..n
            invariant
                n == self.instructions@.len(),
                ivs == self.instructions@.map_values(|i: Instruction| i@),
                forall|k: int|
                    0 <= k < n ==> instr_ok(
                        (#[trigger] self.instructions@[k])@,
                        self.strings.deep_view(),
                    ),
                result@ == spec_decompile(ivs.take(j as int), self.strings.deep_view()),
        {
            let line = self.instructions[j].decompile(self);
            result.append(line.as_str());
            result.push('\n');
            proof {
                lemma_decompile_push(ivs.take(j as int), ivs[j as int], self.strings.deep_view());
                assert(ivs.take(j + 1) =~= ivs.take(j as int).push(ivs[j as int]));
                assert(result@ =~= spec_decompile(ivs.take(j + 1), self.strings.deep_view()));
            }
        }
        proof {
            assert(ivs.take(n as int) =~= ivs);
        }
        result
    }
}

} // verus!
